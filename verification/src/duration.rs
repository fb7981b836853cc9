//! Durations given on the command line, in microseconds.
use vstd::prelude::*;
use crate::board_text::{digits_value, lemma_digits_none_extends, lemma_digits_grow};
use crate::text::chars_of;

verus! {

/// A `u64` written in decimal, with an optional leading `+`, as `u64::from_str`.
pub open spec fn parse_u64(t: Seq<char>) -> Option<int> {
    if t.len() == 0 || (t.len() == 1 && (t[0] == '+' || t[0] == '-')) {
        None
    } else {
        let ds = if t[0] == '+' {
            t.drop_first()
        } else {
            t
        };
        match digits_value(ds) {
            Some(v) => if v <= u64::MAX {
                Some(v)
            } else {
                None
            },
            None => None,
        }
    }
}

/// The value of the digits `ds[lo..hi]`, or `None` if one is not a digit or
/// the value does not fit in a `u64`.
fn digits_u64(ds: &Vec<char>, lo: usize, hi: usize) -> (r: Option<u64>)
    requires
        lo <= hi <= ds@.len(),
    ensures
        match r {
            Some(v) => digits_value(ds@.subrange(lo as int, hi as int)) == Some(v as int),
            None => digits_value(ds@.subrange(lo as int, hi as int)) is None || digits_value(
                ds@.subrange(lo as int, hi as int),
            )->0 > u64::MAX,
        },
{
    let mut v: u64 = 0;
    let mut k: usize = lo;
    assert(digits_value(ds@.subrange(lo as int, lo as int)) == Some(0int)) by {
        assert(ds@.subrange(lo as int, lo as int) =~= Seq::<char>::empty());
    }
    while k < hi
        invariant
            lo <= k <= hi <= ds@.len(),
            digits_value(ds@.subrange(lo as int, k as int)) == Some(v as int),
        decreases hi - k,
    {
        let ch = ds[k];
        assert(ds@.subrange(lo as int, k + 1).drop_last() =~= ds@.subrange(lo as int, k as int));
        if !('0' <= ch && ch <= '9') {
            proof {
                lemma_digits_none_extends(ds@, lo as int, k + 1, hi as int);
            }
            return None;
        }
        let d = (ch as u64) - ('0' as u64);
        if v > (u64::MAX - d) / 10 {
            assert(v * 10 + d > u64::MAX) by (nonlinear_arith)
                requires
                    v > (u64::MAX - d) / 10,
                    d <= 9,
            ;
            proof {
                lemma_digits_grow(ds@, lo as int, k + 1, hi as int);
            }
            return None;
        }
        assert(v * 10 + d <= u64::MAX) by (nonlinear_arith)
            requires
                v <= (u64::MAX - d) / 10,
                d <= 9,
        ;
        v = v * 10 + d;
        k += 1;
    }
    Some(v)
}

/// Reads a number of microseconds written in decimal, as `u64::from_str`:
/// an optional `+`, then digits only; `None` when the text is not such a
/// number or the number does not fit in a `u64`.
pub fn parse_micros(arg: &str) -> (r: Option<u64>)
    ensures
        match r {
            Some(v) => parse_u64(arg@) == Some(v as int),
            None => parse_u64(arg@) is None,
        },
{
    let t = chars_of(arg);
    let hi = t.len();
    let ghost w = t@.subrange(0, hi as int);
    assert(w =~= t@);
    if hi == 0 || (hi == 1 && (t[0] == '+' || t[0] == '-')) {
        return None;
    }
    let start: usize = if t[0] == '+' {
        1
    } else {
        0
    };
    assert(t@.subrange(start as int, hi as int) =~= if t@[0] == '+' { t@.drop_first() } else { t@ });
    digits_u64(&t, start, hi)
}

} // verus!
