//! Reading text: lines, words, prefixes and numbers, over sequences of characters.

use vstd::prelude::*;
use vstd::utf8::*;
use vstd::slice::{slice_subrange, slice_to_vec};
use vstd::string::*;

verus! {

/// `String::push` appends one character.
pub assume_specification[ String::push ](s: &mut String, c: char)
    ensures
        final(s)@ == old(s)@.push(c),
;

/// The characters of `s`.
pub fn chars_of(s: &str) -> (r: Vec<char>)
    ensures
        r@ == s@,
{
    let mut r: Vec<char> = Vec::new();
    for c in it: s.chars()
        invariant
            r@ == it.seq().take(it.index()),
            it.seq() == s@,
    {
        r.push(c);
        assert(it.seq().take(it.index() + 1) =~= it.seq().take(it.index()).push(c));
    }
    assert(r@ =~= s@);
    r
}

/// The string made of `chars`.
pub fn string_of(chars: &[char]) -> (s: String)
    ensures
        s@ == chars@,
{
    let mut s = String::new();
    let mut i: usize = 0;
    while i < chars.len()
        invariant
            i <= chars@.len(),
            s@ == chars@.take(i as int),
        decreases chars@.len() - i,
    {
        s.push(chars[i]);
        i += 1;
        assert(chars@.take(i as int) =~= chars@.take(i - 1).push(chars@[i - 1]));
    }
    assert(chars@.take(i as int) =~= chars@);
    s
}

/// Whether two texts are the same.
pub fn same_chars(a: &[char], b: &[char]) -> (r: bool)
    ensures
        r == (a@ == b@),
{
    if a.len() != b.len() {
        return false;
    }
    let mut i: usize = 0;
    while i < a.len()
        invariant
            a@.len() == b@.len(),
            i <= a@.len(),
            forall|j: int| 0 <= j < i ==> a@[j] == b@[j],
        decreases a@.len() - i,
    {
        if a[i] != b[i] {
            assert(a@[i as int] != b@[i as int]);
            return false;
        }
        i += 1;
    }
    assert(a@ =~= b@);
    true
}

/// The index of the first `c` in `s`, or its length where there is none.
pub open spec fn index_of(s: Seq<char>, c: char) -> nat
    decreases s.len(),
{
    if s.len() == 0 || s[0] == c {
        0
    } else {
        1 + index_of(s.drop_first(), c)
    }
}

pub proof fn lemma_index_of(s: Seq<char>, c: char)
    ensures
        index_of(s, c) <= s.len(),
        forall|i: int| 0 <= i < index_of(s, c) ==> s[i] != c,
        index_of(s, c) < s.len() ==> s[index_of(s, c) as int] == c,
    decreases s.len(),
{
    if s.len() > 0 && s[0] != c {
        let t = s.drop_first();
        lemma_index_of(t, c);
        assert forall|i: int| 0 <= i < index_of(s, c) implies s[i] != c by {
            if i > 0 {
                assert(s[i] == t[i - 1]);
            }
        }
    }
}

/// An index with no `c` before it, and a `c` or the end at it, is `index_of`.
pub proof fn lemma_index_of_is(s: Seq<char>, c: char, k: nat)
    requires
        k <= s.len(),
        forall|i: int| 0 <= i < k ==> s[i] != c,
        k < s.len() ==> s[k as int] == c,
    ensures
        index_of(s, c) == k,
{
    lemma_index_of(s, c);
    if index_of(s, c) < k {
        assert(s[index_of(s, c) as int] != c);
    }
}

/// The index of the first `c` in `s`, or its length where there is none.
pub fn find_char(s: &[char], c: char) -> (k: usize)
    ensures
        k == index_of(s@, c),
        k <= s@.len(),
{
    let mut k: usize = 0;
    while k < s.len() && s[k] != c
        invariant
            k <= s@.len(),
            forall|i: int| 0 <= i < k ==> s@[i] != c,
        decreases s@.len() - k,
    {
        k += 1;
    }
    proof {
        lemma_index_of_is(s@, c, k as nat);
    }
    k
}

/// What stands before and after the first `c`, where there is one.
pub open spec fn split_once(s: Seq<char>, c: char) -> Option<(Seq<char>, Seq<char>)> {
    let k = index_of(s, c);
    if k < s.len() {
        Some((s.take(k as int), s.skip(k as int + 1)))
    } else {
        None
    }
}

/// What stands before and after the first `c`, where there is one.
pub fn split_at_first(s: &[char], c: char) -> (r: Option<(&[char], &[char])>)
    ensures
        match r {
            Some((a, b)) => split_once(s@, c) == Some((a@, b@)),
            None => split_once(s@, c) is None,
        },
{
    let k: usize = find_char(s, c);
    if k < s.len() {
        let a = slice_subrange(s, 0, k);
        let b = slice_subrange(s, k + 1, s.len());
        assert(a@ =~= s@.take(k as int));
        assert(b@ =~= s@.skip(k + 1));
        Some((a, b))
    } else {
        None
    }
}

/// The rest of `s` where it starts with `prefix`.
pub open spec fn strip_prefix(s: Seq<char>, prefix: Seq<char>) -> Option<Seq<char>> {
    if prefix.len() <= s.len() && s.take(prefix.len() as int) == prefix {
        Some(s.skip(prefix.len() as int))
    } else {
        None
    }
}

/// The rest of `s` where it starts with `prefix`.
pub fn after_prefix<'a>(s: &'a [char], prefix: &str) -> (r: Option<&'a [char]>)
    ensures
        match r {
            Some(rest) => strip_prefix(s@, prefix@) == Some(rest@),
            None => strip_prefix(s@, prefix@) is None,
        },
{
    let p = chars_of(prefix);
    if p.len() <= s.len() {
        let head = slice_subrange(s, 0, p.len());
        assert(head@ =~= s@.take(p@.len() as int));
        if same_chars(head, p.as_slice()) {
            let rest = slice_subrange(s, p.len(), s.len());
            assert(rest@ =~= s@.skip(p@.len() as int));
            return Some(rest);
        }
    }
    None
}

/// The White_Space characters of Unicode, as `char::is_whitespace` has them.
pub open spec fn is_space(c: char) -> bool {
    let u = c as u32;
    ||| 0x09 <= u <= 0x0d
    ||| u == 0x20
    ||| u == 0x85
    ||| u == 0xa0
    ||| u == 0x1680
    ||| 0x2000 <= u <= 0x200a
    ||| u == 0x2028
    ||| u == 0x2029
    ||| u == 0x202f
    ||| u == 0x205f
    ||| u == 0x3000
}

pub fn is_white(c: char) -> (r: bool)
    ensures
        r == is_space(c),
{
    let u: u32 = c as u32;
    (0x09 <= u && u <= 0x0d) || u == 0x20 || u == 0x85 || u == 0xa0 || u == 0x1680 || (0x2000 <= u
        && u <= 0x200a) || u == 0x2028 || u == 0x2029 || u == 0x202f || u == 0x205f || u == 0x3000
}

/// `s` without the white space at its start.
pub open spec fn trim_start(s: Seq<char>) -> Seq<char>
    decreases s.len(),
{
    if s.len() > 0 && is_space(s[0]) {
        trim_start(s.drop_first())
    } else {
        s
    }
}

/// `s` without the white space at its end.
pub open spec fn trim_end(s: Seq<char>) -> Seq<char>
    decreases s.len(),
{
    if s.len() > 0 && is_space(s.last()) {
        trim_end(s.drop_last())
    } else {
        s
    }
}

/// `s` without the white space around it.
pub open spec fn trim(s: Seq<char>) -> Seq<char> {
    trim_end(trim_start(s))
}

pub proof fn lemma_trim_start(s: Seq<char>)
    ensures
        trim_start(s).len() <= s.len(),
        s.len() > 0 && is_space(s[0]) ==> trim_start(s).len() < s.len(),
    decreases s.len(),
{
    if s.len() > 0 && is_space(s[0]) {
        lemma_trim_start(s.drop_first());
    }
}

pub proof fn lemma_trim_end(s: Seq<char>)
    ensures
        trim_end(s).len() <= s.len(),
        s.len() > 0 && is_space(s.last()) ==> trim_end(s).len() < s.len(),
    decreases s.len(),
{
    if s.len() > 0 && is_space(s.last()) {
        lemma_trim_end(s.drop_last());
    }
}

/// A text that trimming leaves as it is has no white space at its ends.
pub proof fn lemma_trim(s: Seq<char>)
    requires
        trim(s) == s,
        s.len() > 0,
    ensures
        !is_space(s[0]),
        !is_space(s.last()),
{
    lemma_trim_start(s);
    lemma_trim_end(trim_start(s));
    assert(trim_start(s).len() == s.len());
}

/// `s` without the white space around it.
pub fn trimmed(s: &[char]) -> (r: &[char])
    ensures
        r@ == trim(s@),
{
    let mut a: usize = 0;
    assert(s@.skip(0) =~= s@);
    while a < s.len() && is_white(s[a])
        invariant
            a <= s@.len(),
            trim_start(s@.skip(a as int)) == trim_start(s@),
        decreases s@.len() - a,
    {
        assert(s@.skip(a as int).drop_first() =~= s@.skip(a + 1));
        a += 1;
    }
    let ghost t = s@.skip(a as int);
    assert(trim_start(t) == t);
    let mut b: usize = s.len();
    assert(s@.subrange(a as int, b as int) =~= t);
    while b > a && is_white(s[b - 1])
        invariant
            a <= b <= s@.len(),
            trim_end(s@.subrange(a as int, b as int)) == trim_end(t),
        decreases b,
    {
        assert(s@.subrange(a as int, b as int).drop_last() =~= s@.subrange(a as int, b - 1));
        b -= 1;
    }
    let r = slice_subrange(s, a, b);
    assert(r@ == trim_end(t));
    r
}

/// How many characters stand before the first white space.
pub open spec fn word_len(s: Seq<char>) -> nat
    decreases s.len(),
{
    if s.len() == 0 || is_space(s[0]) {
        0
    } else {
        1 + word_len(s.drop_first())
    }
}

pub proof fn lemma_word_len(s: Seq<char>)
    ensures
        word_len(s) <= s.len(),
    decreases s.len(),
{
    if s.len() > 0 && !is_space(s[0]) {
        lemma_word_len(s.drop_first());
    }
}

/// The first word of `s`: empty where `s` is all white space.
pub open spec fn first_word(s: Seq<char>) -> Seq<char> {
    let t = trim_start(s);
    t.take(word_len(t) as int)
}

/// The first word of `s`: empty where `s` is all white space.
pub fn first_word_of(s: &[char]) -> (r: &[char])
    ensures
        r@ == first_word(s@),
{
    let mut a: usize = 0;
    assert(s@.skip(0) =~= s@);
    while a < s.len() && is_white(s[a])
        invariant
            a <= s@.len(),
            trim_start(s@.skip(a as int)) == trim_start(s@),
        decreases s@.len() - a,
    {
        assert(s@.skip(a as int).drop_first() =~= s@.skip(a + 1));
        a += 1;
    }
    let ghost t = s@.skip(a as int);
    assert(trim_start(t) == t);
    let mut b: usize = a;
    assert(t.skip(0) =~= t);
    while b < s.len() && !is_white(s[b])
        invariant
            a <= b <= s@.len(),
            t == s@.skip(a as int),
            word_len(t) == b - a + word_len(t.skip(b - a)),
        decreases s@.len() - b,
    {
        assert(t.skip(b - a).drop_first() =~= t.skip(b + 1 - a));
        assert(t.skip(b - a)[0] == s@[b as int]);
        b += 1;
    }
    assert(b < s@.len() ==> t.skip(b - a)[0] == s@[b as int]);
    let r = slice_subrange(s, a, b);
    assert(r@ =~= t.take(b - a));
    r
}

/// The value of a digit of base 10 or 16.
pub open spec fn digit(c: char, radix: nat) -> Option<nat> {
    let u = c as u32;
    if 0x30 <= u <= 0x39 {
        Some((u - 0x30) as nat)
    } else if radix == 16 && 0x61 <= u <= 0x66 {
        Some((u - 0x61 + 10) as nat)
    } else if radix == 16 && 0x41 <= u <= 0x46 {
        Some((u - 0x41 + 10) as nat)
    } else {
        None
    }
}

/// The number that the digits `s` write, where all of them are digits.
pub open spec fn digits_value(s: Seq<char>, radix: nat) -> Option<nat>
    decreases s.len(),
{
    if s.len() == 0 {
        Some(0)
    } else {
        match (digits_value(s.drop_last(), radix), digit(s.last(), radix)) {
            (Some(v), Some(d)) => Some(v * radix + d),
            _ => None,
        }
    }
}

/// The text without a leading sign `sign`, where it has one.
pub open spec fn after_sign(s: Seq<char>, sign: char) -> Seq<char> {
    if s.len() > 0 && s[0] == sign {
        s.drop_first()
    } else {
        s
    }
}

/// An unsigned number of at most `max`: an optional plus sign, then at least one
/// digit.
pub open spec fn parse_unsigned(s: Seq<char>, radix: nat, max: nat) -> Option<nat> {
    let d = after_sign(s, '+');
    if d.len() == 0 {
        None
    } else {
        match digits_value(d, radix) {
            Some(v) => if v <= max {
                Some(v)
            } else {
                None
            },
            None => None,
        }
    }
}

/// A decimal i32: an optional sign, then at least one digit.
pub open spec fn parse_signed(s: Seq<char>) -> Option<i32> {
    if s.len() > 0 && s[0] == '-' {
        let d = s.drop_first();
        if d.len() == 0 {
            None
        } else {
            match digits_value(d, 10) {
                Some(v) => if v <= 0x8000_0000 {
                    Some((-v) as i32)
                } else {
                    None
                },
                None => None,
            }
        }
    } else {
        match parse_unsigned(s, 10, 0x7fff_ffff) {
            Some(v) => Some(v as i32),
            None => None,
        }
    }
}

/// More digits never make a number smaller, and a wrong digit stays wrong.
pub proof fn lemma_digits_grow(s: Seq<char>, n: int, radix: nat)
    requires
        0 <= n <= s.len(),
        radix >= 1,
    ensures
        digits_value(s.take(n), radix) is None ==> digits_value(s, radix) is None,
        digits_value(s.take(n), radix) matches Some(v) ==> (digits_value(s, radix) matches Some(w)
            ==> v <= w),
    decreases s.len() - n,
{
    if n == s.len() {
        assert(s.take(n) =~= s);
    } else {
        lemma_digits_grow(s, n + 1, radix);
        assert(s.take(n + 1).drop_last() =~= s.take(n));
        if let Some(v) = digits_value(s.take(n), radix) {
            assert(v * radix >= v) by (nonlinear_arith)
                requires
                    radix >= 1,
            ;
        }
    }
}

fn digit_of(c: char, hex: bool) -> (r: Option<u64>)
    ensures
        match r {
            Some(d) => digit(
                c,
                if hex {
                    16
                } else {
                    10
                },
            ) == Some(d as nat) && d < 16,
            None => digit(
                c,
                if hex {
                    16
                } else {
                    10
                },
            ) is None,
        },
{
    let u: u32 = c as u32;
    if 0x30 <= u && u <= 0x39 {
        Some((u - 0x30) as u64)
    } else if hex && 0x61 <= u && u <= 0x66 {
        Some((u - 0x61 + 10) as u64)
    } else if hex && 0x41 <= u && u <= 0x46 {
        Some((u - 0x41 + 10) as u64)
    } else {
        None
    }
}

/// The number that `s` writes, where that is at most `max`.
fn value_of(s: &[char], hex: bool, max: u64) -> (r: Option<u64>)
    ensures
        ({
            let radix: nat = if hex {
                16
            } else {
                10
            };
            match r {
                Some(v) => digits_value(s@, radix) == Some(v as nat) && v <= max,
                None => digits_value(s@, radix) is None || digits_value(s@, radix)->0 > max,
            }
        }),
{
    let ghost radix: nat = if hex {
        16
    } else {
        10
    };
    let base: u128 = if hex {
        16
    } else {
        10
    };
    let mut v: u64 = 0;
    let mut i: usize = 0;
    assert(s@.take(0) =~= Seq::empty());
    while i < s.len()
        invariant
            i <= s@.len(),
            radix == (if hex {
                16nat
            } else {
                10nat
            }),
            base == radix,
            v <= max,
            digits_value(s@.take(i as int), radix) == Some(v as nat),
        decreases s@.len() - i,
    {
        proof {
            assert(s@.take(i + 1).drop_last() =~= s@.take(i as int));
            lemma_digits_grow(s@, i + 1, radix);
        }
        match digit_of(s[i], hex) {
            None => {
                return None;
            },
            Some(d) => {
                let next: u128 = v as u128 * base + d as u128;
                if next > max as u128 {
                    return None;
                }
                v = next as u64;
            },
        }
        i += 1;
    }
    assert(s@.take(i as int) =~= s@);
    Some(v)
}

/// An unsigned number, hexadecimal or decimal, of at most `max`.
pub fn unsigned_of(s: &[char], hex: bool, max: u64) -> (r: Option<u64>)
    ensures
        ({
            let radix: nat = if hex {
                16
            } else {
                10
            };
            match r {
                Some(v) => parse_unsigned(s@, radix, max as nat) == Some(v as nat) && v <= max,
                None => parse_unsigned(s@, radix, max as nat) is None,
            }
        }),
{
    if s.len() > 0 && s[0] == '+' {
        let d = slice_subrange(s, 1, s.len());
        assert(d@ =~= s@.drop_first());
        if d.len() == 0 {
            return None;
        }
        value_of(d, hex, max)
    } else {
        if s.len() == 0 {
            return None;
        }
        value_of(s, hex, max)
    }
}

/// A decimal i32.
pub fn signed_of(s: &[char]) -> (r: Option<i32>)
    ensures
        r == parse_signed(s@),
{
    if s.len() > 0 && s[0] == '-' {
        let d = slice_subrange(s, 1, s.len());
        assert(d@ =~= s@.drop_first());
        if d.len() == 0 {
            return None;
        }
        match value_of(d, false, 0x8000_0000) {
            Some(v) => Some((0 - v as i64) as i32),
            None => None,
        }
    } else {
        match unsigned_of(s, false, 0x7fff_ffff) {
            Some(v) => Some(v as i32),
            None => None,
        }
    }
}

/// `s` without a carriage return at its end.
pub open spec fn without_cr(s: Seq<char>) -> Seq<char> {
    if s.len() > 0 && s.last() == '\r' {
        s.drop_last()
    } else {
        s
    }
}

/// The lines of a text. A line ends at a newline, or a carriage return and a
/// newline; the last one may lack it. Nothing follows a final newline.
pub open spec fn lines(s: Seq<char>) -> Seq<Seq<char>>
    decreases s.len(),
{
    if s.len() == 0 {
        Seq::empty()
    } else {
        let k = index_of(s, '\n');
        if k >= s.len() {
            seq![s]
        } else {
            seq![without_cr(s.take(k as int))] + lines(s.skip(k as int + 1))
        }
    }
}

/// The lines of a text.
pub fn lines_of(text: &str) -> (r: Vec<Vec<char>>)
    ensures
        crate::intern::rows(r@) == lines(text@),
{
    let all = chars_of(text);
    let s = all.as_slice();
    let mut r: Vec<Vec<char>> = Vec::new();
    let mut at: usize = 0;
    assert(s@.skip(0) =~= s@);
    assert(crate::intern::rows(r@) + lines(s@) =~= lines(s@));
    while at < s.len()
        invariant
            at <= s@.len(),
            crate::intern::rows(r@) + lines(s@.skip(at as int)) == lines(s@),
        decreases s@.len() - at,
    {
        let rest = slice_subrange(s, at, s.len());
        assert(rest@ =~= s@.skip(at as int));
        let k: usize = find_char(rest, '\n');
        let ghost before = crate::intern::rows(r@);
        if k >= rest.len() {
            let line = slice_to_vec(rest);
            r.push(line);
            proof {
                assert(crate::intern::rows(r@) =~= before.push(rest@));
                assert(lines(rest@) =~= seq![rest@]);
                assert(s@.skip(s@.len() as int) =~= Seq::empty());
                assert(crate::intern::rows(r@) + lines(s@.skip(s@.len() as int)) =~= before + lines(
                    rest@,
                ));
            }
            at = s.len();
        } else {
            let mut e: usize = k;
            if k > 0 && rest[k - 1] == '\r' {
                e = k - 1;
            }
            let cut = slice_subrange(rest, 0, e);
            assert(cut@ =~= without_cr(rest@.take(k as int)));
            let line = slice_to_vec(cut);
            r.push(line);
            proof {
                assert(crate::intern::rows(r@) =~= before.push(cut@));
                assert(rest@.skip(k + 1) =~= s@.skip(at + k + 1));
                assert(crate::intern::rows(r@) + lines(s@.skip(at + k + 1)) =~= before + lines(
                    rest@,
                ));
            }
            at = at + k + 1;
        }
    }
    proof {
        assert(s@.skip(at as int) =~= Seq::empty());
        assert(crate::intern::rows(r@) + lines(s@.skip(at as int)) =~= crate::intern::rows(r@));
    }
    r
}

/// What stands between the `c`s of `s`, before the first and after the last: one
/// piece more than there are `c`s.
pub open spec fn pieces(s: Seq<char>, c: char) -> Seq<Seq<char>>
    decreases s.len(),
{
    let k = index_of(s, c);
    if k >= s.len() {
        seq![s]
    } else {
        seq![s.take(k as int)] + pieces(s.skip(k as int + 1), c)
    }
}

/// What stands between the `c`s of `text`.
pub fn pieces_of(text: &[char], c: char) -> (r: Vec<Vec<char>>)
    ensures
        crate::intern::rows(r@) == pieces(text@, c),
{
    let mut r: Vec<Vec<char>> = Vec::new();
    let mut at: usize = 0;
    assert(text@.skip(0) =~= text@);
    assert(crate::intern::rows(r@) + pieces(text@, c) =~= pieces(text@, c));
    loop
        invariant
            at <= text@.len(),
            crate::intern::rows(r@) + pieces(text@.skip(at as int), c) == pieces(text@, c),
        decreases text@.len() - at,
    {
        let rest = slice_subrange(text, at, text.len());
        assert(rest@ =~= text@.skip(at as int));
        let k: usize = find_char(rest, c);
        let ghost before = crate::intern::rows(r@);
        if k >= rest.len() {
            let piece = slice_to_vec(rest);
            r.push(piece);
            assert(crate::intern::rows(r@) =~= before + pieces(rest@, c));
            return r;
        }
        let cut = slice_subrange(rest, 0, k);
        assert(cut@ =~= rest@.take(k as int));
        let piece = slice_to_vec(cut);
        r.push(piece);
        proof {
            assert(crate::intern::rows(r@) =~= before.push(cut@));
            assert(rest@.skip(k + 1) =~= text@.skip(at + k + 1));
            assert(crate::intern::rows(r@) + pieces(text@.skip(at + k + 1), c) =~= before + pieces(
                rest@,
                c,
            ));
        }
        at = at + k + 1;
    }
}

/// A space or a tab.
pub open spec fn is_blank(c: char) -> bool {
    c == ' ' || c == '\t'
}

/// How many characters stand before the first blank.
pub open spec fn run_len(s: Seq<char>) -> nat
    decreases s.len(),
{
    if s.len() == 0 || is_blank(s[0]) {
        0
    } else {
        1 + run_len(s.drop_first())
    }
}

/// The non-empty runs of characters between blanks.
pub open spec fn runs(s: Seq<char>) -> Seq<Seq<char>>
    decreases s.len(),
{
    if s.len() == 0 {
        Seq::empty()
    } else if is_blank(s[0]) {
        runs(s.drop_first())
    } else {
        let n = run_len(s);
        if 1 <= n <= s.len() {
            seq![s.take(n as int)] + runs(s.skip(n as int))
        } else {
            Seq::empty()
        }
    }
}

/// The length of the run of non-blanks at the start of `s`.
fn run_of(s: &[char]) -> (n: usize)
    ensures
        n == run_len(s@),
        n <= s@.len(),
{
    let mut n: usize = 0;
    assert(s@.skip(0) =~= s@);
    while n < s.len() && s[n] != ' ' && s[n] != '\t'
        invariant
            n <= s@.len(),
            run_len(s@) == n + run_len(s@.skip(n as int)),
        decreases s@.len() - n,
    {
        assert(s@.skip(n as int).drop_first() =~= s@.skip(n + 1));
        assert(s@.skip(n as int)[0] == s@[n as int]);
        n += 1;
    }
    assert(n < s@.len() ==> s@.skip(n as int)[0] == s@[n as int]);
    n
}

/// The non-empty runs of characters between blanks.
pub fn runs_of(s: &[char]) -> (r: Vec<Vec<char>>)
    ensures
        crate::intern::rows(r@) == runs(s@),
{
    let mut r: Vec<Vec<char>> = Vec::new();
    let mut at: usize = 0;
    assert(s@.skip(0) =~= s@);
    assert(crate::intern::rows(r@) + runs(s@) =~= runs(s@));
    while at < s.len()
        invariant
            at <= s@.len(),
            crate::intern::rows(r@) + runs(s@.skip(at as int)) == runs(s@),
        decreases s@.len() - at,
    {
        let rest = slice_subrange(s, at, s.len());
        assert(rest@ =~= s@.skip(at as int));
        let n: usize = run_of(rest);
        let ghost before = crate::intern::rows(r@);
        if n == 0 {
            assert(rest@.drop_first() =~= s@.skip(at + 1));
            at += 1;
        } else {
            let cut = slice_subrange(rest, 0, n);
            assert(cut@ =~= rest@.take(n as int));
            let run = slice_to_vec(cut);
            r.push(run);
            proof {
                assert(crate::intern::rows(r@) =~= before.push(cut@));
                assert(rest@.skip(n as int) =~= s@.skip(at + n));
                assert(crate::intern::rows(r@) + runs(s@.skip(at + n)) =~= before + runs(rest@));
            }
            at = at + n;
        }
    }
    proof {
        assert(s@.skip(at as int) =~= Seq::empty());
        assert(crate::intern::rows(r@) + runs(s@.skip(at as int)) =~= crate::intern::rows(r@));
    }
    r
}

/// `s` without the blanks that it starts with.
pub open spec fn skip_blanks(s: Seq<char>) -> Seq<char>
    decreases s.len(),
{
    if s.len() > 0 && is_blank(s[0]) {
        skip_blanks(s.drop_first())
    } else {
        s
    }
}

/// What stands behind the first `n` runs of `s`, without the blanks before it.
pub open spec fn after_runs(s: Seq<char>, n: nat) -> Seq<char>
    decreases n,
{
    let t = skip_blanks(s);
    if n == 0 {
        t
    } else {
        after_runs(t.skip(run_len(t) as int), (n - 1) as nat)
    }
}

fn without_blanks(s: &[char]) -> (r: &[char])
    ensures
        r@ == skip_blanks(s@),
{
    let mut at: usize = 0;
    assert(s@.skip(0) =~= s@);
    while at < s.len() && (s[at] == ' ' || s[at] == '\t')
        invariant
            at <= s@.len(),
            skip_blanks(s@) == skip_blanks(s@.skip(at as int)),
        decreases s@.len() - at,
    {
        assert(s@.skip(at as int).drop_first() =~= s@.skip(at + 1));
        at += 1;
    }
    let r = slice_subrange(s, at, s.len());
    assert(r@ =~= s@.skip(at as int));
    r
}

/// What stands behind the first `n` runs of `s`, without the blanks before it.
pub fn tail_after_runs(s: &[char], n: usize) -> (r: &[char])
    ensures
        r@ == after_runs(s@, n as nat),
{
    let mut rest: &[char] = without_blanks(s);
    let mut k: usize = 0;
    proof {
        lemma_skip_blanks_twice(s@);
    }
    while k < n
        invariant
            k <= n,
            skip_blanks(rest@) == rest@,
            after_runs(rest@, (n - k) as nat) == after_runs(s@, n as nat),
        decreases n - k,
    {
        let run: usize = run_of(rest);
        let tail = slice_subrange(rest, run, rest.len());
        assert(tail@ =~= rest@.skip(run as int));
        proof {
            lemma_skip_blanks_twice(tail@);
        }
        rest = without_blanks(tail);
        k += 1;
    }
    rest
}

proof fn lemma_skip_blanks_twice(s: Seq<char>)
    ensures
        skip_blanks(skip_blanks(s)) == skip_blanks(s),
        forall|n: nat| #[trigger] after_runs(skip_blanks(s), n) == after_runs(s, n),
    decreases s.len(),
{
    if s.len() > 0 && is_blank(s[0]) {
        lemma_skip_blanks_twice(s.drop_first());
    }
}

/// Whether `s` ends with `suffix`.
pub open spec fn ends_with(s: Seq<char>, suffix: Seq<char>) -> bool {
    suffix.len() <= s.len() && s.skip(s.len() - suffix.len()) == suffix
}

/// Whether `s` ends with `suffix`.
pub fn has_suffix(s: &[char], suffix: &[char]) -> (r: bool)
    ensures
        r == ends_with(s@, suffix@),
{
    if suffix.len() > s.len() {
        return false;
    }
    let tail = slice_subrange(s, s.len() - suffix.len(), s.len());
    assert(tail@ =~= s@.skip(s@.len() - suffix@.len()));
    same_chars(tail, suffix)
}

/// What stands after the last `c`; all of it where there is none.
pub open spec fn after_last(s: Seq<char>, c: char) -> Seq<char>
    decreases s.len(),
{
    if s.len() == 0 || s.last() == c {
        Seq::empty()
    } else {
        after_last(s.drop_last(), c).push(s.last())
    }
}

/// What stands after the last `c`; all of it where there is none.
pub fn tail_after(s: &[char], c: char) -> (r: &[char])
    ensures
        r@ == after_last(s@, c),
{
    let mut at: usize = s.len();
    assert(s@.take(at as int) =~= s@);
    assert(after_last(s@, c) =~= after_last(s@.take(at as int), c) + s@.skip(at as int));
    while at > 0 && s[at - 1] != c
        invariant
            at <= s@.len(),
            after_last(s@, c) == after_last(s@.take(at as int), c) + s@.skip(at as int),
        decreases at,
    {
        proof {
            let t = s@.take(at as int);
            assert(t.drop_last() =~= s@.take(at - 1));
            assert(after_last(t, c) + s@.skip(at as int) =~= after_last(s@.take(at - 1), c)
                + s@.skip(at - 1));
        }
        at -= 1;
    }
    let r = slice_subrange(s, at, s.len());
    proof {
        assert(at > 0 ==> s@.take(at as int).last() == c);
        assert(r@ =~= s@.skip(at as int));
        assert(after_last(s@, c) =~= s@.skip(at as int));
    }
    r
}

/// Whether `needle` stands somewhere in `s`.
pub open spec fn contains(s: Seq<char>, needle: Seq<char>) -> bool {
    exists|i: int|
        0 <= i <= s.len() - needle.len() && #[trigger] s.subrange(i, i + needle.len()) == needle
}

/// Whether `needle` stands somewhere in `s`.
pub fn contains_text(s: &[char], needle: &[char]) -> (r: bool)
    ensures
        r == contains(s@, needle@),
{
    if needle.len() > s.len() {
        return false;
    }
    let last: usize = s.len() - needle.len();
    let mut i: usize = 0;
    loop
        invariant
            i <= last,
            last == s.len() - needle.len(),
            needle.len() <= s.len(),
            forall|j: int|
                0 <= j < i ==> #[trigger] s@.subrange(j, j + needle@.len()) != needle@,
        decreases last - i,
    {
        assert(i + needle.len() <= s.len());
        let part = slice_subrange(s, i, i + needle.len());
        if same_chars(part, needle) {
            assert(s@.subrange(i as int, i + needle@.len()) == needle@);
            return true;
        }
        if i == last {
            return false;
        }
        i += 1;
    }
}

/// A character takes four bytes at most.
pub proof fn lemma_utf8_len(s: Seq<char>)
    ensures
        encode_utf8(s).len() <= 4 * s.len(),
    decreases s.len(),
{
    if s.len() > 0 {
        lemma_utf8_len(s.drop_first());
    }
}

} // verus!
