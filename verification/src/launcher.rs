//! The launcher that lends its capabilities to the recorder.

use vstd::prelude::*;

verus! {

pub const CAP_SYS_RESOURCE: u32 = 24;

pub const CAP_PERFMON: u32 = 38;

pub const CAP_BPF: u32 = 39;

/// Capabilities are numbered; a number's bit stands in one of two words.
#[derive(Clone, Copy, PartialEq, Eq, Structural, Debug)]
pub struct CapWords {
    pub low: u32,
    pub high: u32,
}

/// Whether capability `cap` is in the words.
pub open spec fn has_cap(w: CapWords, cap: u32) -> bool {
    if cap < 32 {
        w.low & (1u32 << cap) != 0
    } else {
        w.high & (1u32 << ((cap - 32) as u32)) != 0
    }
}

/// The capabilities that the recorder needs.
pub open spec fn is_needed(cap: u32) -> bool {
    cap == CAP_SYS_RESOURCE || cap == CAP_PERFMON || cap == CAP_BPF
}

/// The inheritable capabilities, with those that the recorder needs.
pub fn raise_caps(inheritable: CapWords) -> (r: CapWords)
    ensures
        forall|cap: u32|
            cap < 64 ==> #[trigger] has_cap(r, cap) == (has_cap(inheritable, cap) || is_needed(
                cap,
            )),
{
    let low: u32 = inheritable.low | 0x0100_0000;
    let high: u32 = inheritable.high | 0xc0;
    let r = CapWords { low, high };
    proof {
        let l = inheritable.low;
        let h = inheritable.high;
        assert forall|cap: u32| cap < 64 implies #[trigger] has_cap(r, cap) == (has_cap(
            inheritable,
            cap,
        ) || is_needed(cap)) by {
            if cap < 32 {
                assert((low & (1u32 << cap) != 0) == (l & (1u32 << cap) != 0 || cap == 24))
                    by (bit_vector)
                    requires
                        cap < 32,
                        low == l | 0x0100_0000,
                ;
            } else {
                let c = (cap - 32) as u32;
                assert((high & (1u32 << c) != 0) == (h & (1u32 << c) != 0 || c == 6 || c == 7))
                    by (bit_vector)
                    requires
                        c < 32,
                        high == h | 0xc0,
                ;
            }
        }
    }
    r
}

} // verus!
