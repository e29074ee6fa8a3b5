//! Scoring, alphabet construction and range extraction: the small pure
//! helpers under the Bitap matcher.

use std::collections::HashMap;
use std::ops::Range;
use vstd::prelude::*;
use crate::score::Score;

verus! {

broadcast use vstd::std_specs::hash::group_hash_axioms;

/// Largest supported pattern length: one bit of a `u64` mask per position.
pub const MAX_PATTERN_LEN: usize = 64;

/// Largest supported target length, so that every positional computation
/// stays comfortably inside the fixed-width integer types.
pub const MAX_TEXT_LEN: usize = 0x0FFF_FFFF;

/// Largest supported expected-match location.
pub const MAX_LOCATION: i32 = 0x0FFF_FFFF;

/// The cost of a candidate match: `error_count / pattern_length` plus the
/// positional deviation `|x - loc|` divided by `distance`. A `distance` of
/// zero turns any deviation into a full mismatch and otherwise charges
/// nothing for position.
pub open spec fn spec_score(len: int, e: int, x: int, loc: int, d: int) -> Score {
    let p = if x >= loc {
        x - loc
    } else {
        loc - x
    };
    if d == 0 {
        if p != 0 {
            Score { num: 1, den: 1 }
        } else {
            Score { num: e as u64, den: len as u64 }
        }
    } else {
        Score { num: (e * d + p * len) as u64, den: (len * d) as u64 }
    }
}

/// Converts an error count and a positional deviation into a match cost.
///
/// `accuracy = e / pattern_length` and `proximity = |x - loc|`; the result
/// is `accuracy + proximity / distance`, except that a `distance` of zero
/// makes any nonzero proximity a full mismatch.
pub fn calculate_score(pattern_length: usize, e: i32, x: i32, loc: i32, distance: i32) -> (r: Score)
    requires
        1 <= pattern_length <= MAX_PATTERN_LEN,
        0 <= e <= MAX_PATTERN_LEN,
        0 <= x <= 0x4000_0000,
        0 <= loc <= 0x4000_0000,
        0 <= distance,
    ensures
        r == spec_score(pattern_length as int, e as int, x as int, loc as int, distance as int),
        r.wf(),
{
    let proximity: i32 = if x >= loc {
        x - loc
    } else {
        loc - x
    };
    if distance == 0 {
        if proximity != 0 {
            Score { num: 1, den: 1 }
        } else {
            Score { num: e as u64, den: pattern_length as u64 }
        }
    } else {
        proof {
            assert((e as int) * (distance as int) <= 64 * 0x8000_0000int) by (nonlinear_arith)
                requires
                    0 <= e <= 64,
                    0 <= distance <= 0x8000_0000int,
            ;
            assert((proximity as int) * (pattern_length as int) <= 0x8000_0000int * 64)
                by (nonlinear_arith)
                requires
                    0 <= proximity <= 0x8000_0000int,
                    0 <= pattern_length <= 64,
            ;
            assert((pattern_length as int) * (distance as int) <= 64 * 0x8000_0000int)
                by (nonlinear_arith)
                requires
                    1 <= pattern_length <= 64,
                    0 <= distance <= 0x8000_0000int,
            ;
            assert((pattern_length as int) * (distance as int) >= 1) by (nonlinear_arith)
                requires
                    1 <= pattern_length,
                    1 <= distance,
            ;
        }
        Score {
            num: (e as u64) * (distance as u64) + (proximity as u64) * (pattern_length as u64),
            den: (pattern_length as u64) * (distance as u64),
        }
    }
}

/// The bits contributed to character `c`'s alphabet mask by pattern
/// positions below `hi`: bit `len - 1 - i` is set for each position
/// `i < hi` holding `c`.
pub open spec fn alphabet_upto(p: Seq<u8>, hi: int, c: u8) -> u64
    decreases hi,
{
    if hi <= 0 || hi > p.len() || p.len() > 64 {
        0u64
    } else {
        alphabet_upto(p, hi - 1, c) | (if p[hi - 1] == c {
            1u64 << (p.len() - hi) as u64
        } else {
            0u64
        })
    }
}

/// The alphabet mask of character `c` for pattern `p`: bit `len - 1 - i`
/// is set exactly when position `i` of `p` holds `c`.
pub open spec fn spec_alphabet(p: Seq<u8>, c: u8) -> u64 {
    alphabet_upto(p, p.len() as int, c)
}

/// Builds the Bitap alphabet: maps each distinct byte of the pattern to the
/// mask of the positions where it occurs, bit 0 standing for the pattern's
/// last position.
pub fn calculate_pattern_alphabet(pattern: &[u8]) -> (m: HashMap<u8, u64>)
    requires
        pattern@.len() <= MAX_PATTERN_LEN,
    ensures
        forall|c: u8| #[trigger] m@.contains_key(c) <==> spec_alphabet(pattern@, c) != 0,
        forall|c: u8| m@.contains_key(c) ==> #[trigger] m@[c] == spec_alphabet(pattern@, c),
{
    let len = pattern.len();
    let mut mask: HashMap<u8, u64> = HashMap::new();
    let mut i: usize = 0;
    while i < len
        invariant
            len == pattern@.len() <= 64,
            0 <= i <= len,
            vstd::std_specs::hash::obeys_key_model::<u8>(),
            forall|c: u8| #[trigger] mask@.contains_key(c) <==> alphabet_upto(pattern@, i as int, c)
                != 0,
            forall|c: u8| mask@.contains_key(c) ==> #[trigger] mask@[c] == alphabet_upto(
                pattern@,
                i as int,
                c,
            ),
        decreases len - i,
    {
        let c = pattern[i];
        let bit: u64 = 1u64 << ((len - i - 1) as u64);
        proof {
            assert(1u64 << ((len - i - 1) as u64) != 0) by (bit_vector)
                requires
                    ((len - i - 1) as u64) < 64,
            ;
            assert(forall|a: u64, b: u64| (#[trigger] (a | b)) != 0 <==> a != 0 || b != 0)
                by (bit_vector);
        }
        let prev: u64 = match mask.get(&c) {
            Some(v) => *v,
            None => 0,
        };
        mask.insert(c, prev | bit);
        proof {
            assert forall|d: u8| #[trigger] alphabet_upto(pattern@, i + 1, d) == alphabet_upto(
                pattern@,
                i as int,
                d,
            ) | (if pattern@[i as int] == d {
                1u64 << (pattern@.len() - i - 1) as u64
            } else {
                0u64
            }) by {
                assert(alphabet_upto(pattern@, i + 1, d) == alphabet_upto(pattern@, i as int, d) | (
                if pattern@[i as int] == d {
                    1u64 << (pattern@.len() - (i + 1)) as u64
                } else {
                    0u64
                }));
            }
            assert(forall|a: u64| #[trigger] (a | 0u64) == a) by (bit_vector);
        }
        i = i + 1;
    }
    mask
}

/// A closed range `[low, high]` over an ordered index type.
pub struct CountableCloseRange<T: Ord> {
    low: T,
    high: T,
}

/// The state of the range-extraction scan after reading `n` mask entries:
/// the ranges already closed, and the start of the currently open run
/// (`-1` when no run is open).
pub open spec fn ranges_loop(mask: Seq<u8>, n: int) -> (Seq<Range<usize>>, int)
    decreases n,
{
    if n <= 0 || n > mask.len() {
        (Seq::empty(), -1)
    } else {
        let (acc, start) = ranges_loop(mask, n - 1);
        if start == -1 && mask[n - 1] >= 1 {
            (acc, n - 1)
        } else if start != -1 && mask[n - 1] == 0 {
            (acc.push(Range { start: start as usize, end: (n - 1) as usize }), -1)
        } else {
            (acc, start)
        }
    }
}

/// The maximal runs of set entries in `mask`, as half-open ranges in order;
/// a run still open at the end is closed at `mask.len()` when the final
/// entry is exactly 1.
pub open spec fn spec_find_ranges(mask: Seq<u8>) -> Seq<Range<usize>> {
    let (acc, start) = ranges_loop(mask, mask.len() as int);
    if mask.len() > 0 && mask.last() == 1 {
        acc.push(Range { start: start as usize, end: mask.len() as usize })
    } else {
        acc
    }
}

/// Extracts the maximal runs of nonzero entries from a match mask as
/// half-open `start..end` ranges, ascending; an empty mask is an error.
pub fn find_ranges(mask: &[u8]) -> (r: Result<Vec<Range<usize>>, String>)
    ensures
        mask@.len() == 0 <==> r is Err,
        mask@.len() > 0 ==> (r matches Ok(v) && v@ == spec_find_ranges(mask@)),
{
    if mask.is_empty() {
        return Err("Input array is empty".to_owned());
    }
    let mut ranges: Vec<Range<usize>> = Vec::new();
    let mut start_set: bool = false;
    let mut start_at: usize = 0;
    let n = mask.len();
    let mut i: usize = 0;
    proof {
        assert(ranges@ =~= ranges_loop(mask@, 0).0);
    }
    while i < n
        invariant
            n == mask@.len(),
            0 <= i <= n,
            ranges@ == ranges_loop(mask@, i as int).0,
            start_set <==> ranges_loop(mask@, i as int).1 != -1,
            start_set ==> start_at as int == ranges_loop(mask@, i as int).1 && start_at < i,
        decreases n - i,
    {
        let bit = mask[i];
        proof {
            assert(ranges_loop(mask@, i + 1) == {
                let (acc, start) = ranges_loop(mask@, i as int);
                if start == -1 && mask@[i as int] >= 1 {
                    (acc, i as int)
                } else if start != -1 && mask@[i as int] == 0 {
                    (acc.push(Range { start: start as usize, end: i }), -1int)
                } else {
                    (acc, start)
                }
            });
        }
        if !start_set && bit >= 1 {
            start_set = true;
            start_at = i;
        } else if start_set && bit == 0 {
            ranges.push(Range { start: start_at, end: i });
            start_set = false;
        }
        i = i + 1;
    }
    if mask[n - 1] == 1 {
        proof {
            assert(ranges_loop(mask@, n as int).1 != -1);
        }
        ranges.push(Range { start: start_at, end: n });
    }
    Ok(ranges)
}

} // verus!
