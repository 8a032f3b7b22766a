//! Numbers written in digits.

use crate::text;
use vstd::prelude::*;

verus! {

/// The digit for `d`, which is less than 16.
pub open spec fn digit_char(d: nat) -> char {
    if d < 10 {
        (48 + d) as char
    } else {
        (87 + d) as char
    }
}

/// A number in digits, without leading zeros.
pub open spec fn digits(n: nat, radix: nat) -> Seq<char>
    decreases n,
{
    if n < radix || radix < 2 {
        seq![digit_char(n)]
    } else {
        proof {
            lemma_fewer(n, radix);
        }
        digits(n / radix, radix).push(digit_char(n % radix))
    }
}

pub proof fn lemma_fewer(n: nat, radix: nat)
    requires
        2 <= radix <= n,
    ensures
        n / radix < n,
        n % radix < radix,
{
    assert(n / radix < n && n % radix < radix) by (nonlinear_arith)
        requires
            2 <= radix <= n,
    ;
}

/// A number in decimal, with a minus sign where it is negative.
pub open spec fn signed(n: int) -> Seq<char> {
    if n < 0 {
        seq!['-'] + digits((-n) as nat, 10)
    } else {
        digits(n as nat, 10)
    }
}

fn char_of_digit(d: u64) -> (c: char)
    requires
        d < 16,
    ensures
        c == digit_char(d as nat),
{
    if d < 10 {
        (48 + d as u8) as char
    } else {
        (87 + d as u8) as char
    }
}

/// The digits of `n`, decimal or hexadecimal.
pub fn unsigned_digits(n: u64, hex: bool) -> (r: Vec<char>)
    ensures
        r@ == digits(
            n as nat,
            if hex {
                16
            } else {
                10
            },
        ),
    decreases n,
{
    let radix: u64 = if hex {
        16
    } else {
        10
    };
    if n < radix {
        let mut r: Vec<char> = Vec::new();
        r.push(char_of_digit(n));
        assert(r@ =~= seq![digit_char(n as nat)]);
        return r;
    }
    let mut r = unsigned_digits(n / radix, hex);
    r.push(char_of_digit(n % radix));
    r
}

/// The decimal digits of `n`.
pub fn signed_digits(n: i32) -> (r: Vec<char>)
    ensures
        r@ == signed(n as int),
{
    if n < 0 {
        let mut d = unsigned_digits((0 - n as i64) as u64, false);
        let mut r: Vec<char> = Vec::new();
        r.push('-');
        r.append(&mut d);
        assert(r@ =~= signed(n as int));
        r
    } else {
        unsigned_digits(n as u64, false)
    }
}

/// ASCII characters as bytes.
pub open spec fn ascii(s: Seq<char>) -> Seq<u8> {
    Seq::new(s.len(), |i: int| s[i] as u8)
}

/// Append ASCII characters to bytes.
pub fn append_ascii(v: &mut Vec<u8>, chars: &Vec<char>)
    ensures
        final(v)@ == old(v)@ + ascii(chars@),
{
    let ghost head = v@;
    let mut i: usize = 0;
    assert(v@ =~= head + ascii(chars@.take(0)));
    while i < chars.len()
        invariant
            i <= chars@.len(),
            v@ == head + ascii(chars@.take(i as int)),
        decreases chars@.len() - i,
    {
        v.push(chars[i] as u8);
        i += 1;
        assert(v@ =~= head + ascii(chars@.take(i as int)));
    }
    assert(chars@.take(i as int) =~= chars@);
}

/// Each digit is a character below 128, no sign and no white space.
pub proof fn lemma_plain(n: nat, radix: nat)
    requires
        2 <= radix <= 16,
    ensures
        digits(n, radix).len() > 0,
        forall|i: int|
            0 <= i < digits(n, radix).len() ==> {
                let c = #[trigger] digits(n, radix)[i];
                &&& (c as u32) < 128
                &&& c != '+'
                &&& c != '-'
                &&& !text::is_space(c)
            },
    decreases n,
{
    if n >= radix {
        lemma_fewer(n, radix);
        lemma_plain(n / radix, radix);
    }
}

/// Reading the digits of a number gives it back.
pub proof fn lemma_read_back(n: nat, radix: nat)
    requires
        radix == 10 || radix == 16,
    ensures
        text::digits_value(digits(n, radix), radix) == Some(n),
    decreases n,
{
    let s = digits(n, radix);
    if n < radix {
        assert(s.drop_last() =~= Seq::empty());
        assert(text::digits_value(Seq::empty(), radix) == Some(0nat));
        assert(text::digit(digit_char(n), radix) == Some(n));
        assert(0 * radix + n == n) by (nonlinear_arith);
    } else {
        lemma_fewer(n, radix);
        lemma_read_back(n / radix, radix);
        assert(s.drop_last() =~= digits(n / radix, radix));
        assert(text::digit(digit_char(n % radix), radix) == Some(n % radix));
        assert((n / radix) * radix + n % radix == n) by (nonlinear_arith)
            requires
                radix > 0,
        ;
    }
}

/// Reading a decimal i32 gives it back.
pub proof fn lemma_signed_read_back(n: i32)
    ensures
        text::parse_signed(signed(n as int)) == Some(n),
{
    let s = signed(n as int);
    if n < 0 {
        lemma_read_back((-n) as nat, 10);
        lemma_plain((-n) as nat, 10);
        assert(s.drop_first() =~= digits((-n) as nat, 10));
    } else {
        lemma_read_back(n as nat, 10);
        lemma_plain(n as nat, 10);
        assert(s[0] != '-' && s[0] != '+');
    }
}

} // verus!
