//! The library's laws: properties of the matcher that hold for every
//! input, each stated and proved over the specification mirrors that the
//! executable functions are pinned to.

use std::ops::Range;
use vstd::prelude::*;
use vstd::string::StringSliceAdditionalSpecFns;

use crate::bitap::spec_search_util;
use crate::score::Score;
use crate::search::spec_search;
use crate::spec_normalize;
use crate::utils::ranges_loop;
use crate::utils::spec_find_ranges;

verus! {

/// The ranges of `rs` are nonempty, non-overlapping and strictly
/// ascending by start, with every endpoint at most `n`.
pub open spec fn ranges_ordered(rs: Seq<Range<usize>>, n: int) -> bool {
    &&& forall|k: int| 0 <= k < rs.len() ==> (#[trigger] rs[k]).start < rs[k].end <= n
    &&& forall|a: int, b: int|
        0 <= a < b < rs.len() ==> (#[trigger] rs[a]).end <= (#[trigger] rs[b]).start
}

/// The scan state after `n` mask entries is ordered: the closed ranges
/// are ordered below `n`, and an open run starts at or after every
/// closed range's end.
proof fn lemma_ranges_loop_ordered(mask: Seq<u8>, n: int)
    requires
        0 <= n <= mask.len(),
        mask.len() <= usize::MAX,
    ensures
        ({
            let (acc, start) = ranges_loop(mask, n);
            &&& ranges_ordered(acc, n)
            &&& (start != -1 ==> 0 <= start < n && (forall|k: int|
                0 <= k < acc.len() ==> (#[trigger] acc[k]).end <= start))
            &&& forall|k: int| 0 <= k < acc.len() ==> (#[trigger] acc[k]).end < n
        }),
    decreases n,
{
    if n <= 0 {
    } else {
        lemma_ranges_loop_ordered(mask, n - 1);
        let (acc0, st0) = ranges_loop(mask, n - 1);
        let (acc, st) = ranges_loop(mask, n);
        if st0 == -1 && mask[n - 1] >= 1 {
            assert(acc == acc0 && st == n - 1);
        } else if st0 != -1 && mask[n - 1] == 0 {
            let r = Range { start: st0 as usize, end: (n - 1) as usize };
            assert(acc == acc0.push(r) && st == -1int);
            assert(forall|k: int| 0 <= k < acc0.len() ==> acc[k] == (#[trigger] acc0[k]));
            assert(acc[acc0.len() as int] == r);
        } else {
            assert(acc == acc0 && st == st0);
        }
    }
}

/// Range ordering: the extracted ranges of any match mask are nonempty,
/// non-overlapping and strictly ascending by start, and they end at or
/// before the mask's length.
pub proof fn lemma_find_ranges_ordered(mask: Seq<u8>)
    requires
        mask.len() <= usize::MAX,
    ensures
        ranges_ordered(spec_find_ranges(mask), mask.len() as int),
{
    lemma_ranges_loop_ordered(mask, mask.len() as int);
    let n = mask.len() as int;
    let (acc, st) = ranges_loop(mask, n);
    if n > 0 && mask.last() == 1 {
        assert(st != -1) by {
            let (acc0, st0) = ranges_loop(mask, n - 1);
            assert(mask[n - 1] == 1);
        }
        let r = Range { start: st as usize, end: mask.len() as usize };
        let rs = acc.push(r);
        assert(spec_find_ranges(mask) == rs);
        assert(forall|k: int| 0 <= k < acc.len() ==> rs[k] == (#[trigger] acc[k]));
        assert(rs[acc.len() as int] == r);
    }
}

/// Range ordering at the search level: every non-tokenized match result
/// carries ranges that are nonempty, non-overlapping and strictly
/// ascending by start within the target.
pub proof fn lemma_search_ranges_ordered(
    p: Seq<u8>,
    t_raw: Seq<u8>,
    loc: int,
    d: int,
    th0: Score,
    cs: bool,
)
    requires
        p.len() >= 1,
        1 <= t_raw.len() <= usize::MAX,
    ensures
        spec_search(p, t_raw, loc, d, th0, cs, false) matches Some(v) ==> ranges_ordered(
            v.1,
            t_raw.len() as int,
        ),
{
    let t = spec_normalize(t_raw, cs);
    assert(t.len() == t_raw.len());
    let s = spec_search_util(p, t_raw, loc, d, th0, cs);
    if t == p {
        assert(s.1.len() == 1);
        assert(s.1[0] == Range { start: 0usize, end: t.len() as usize });
        assert(ranges_ordered(s.1, t_raw.len() as int));
    } else {
        let seeded = crate::bitap::seed_loop(
            t,
            p,
            loc,
            d,
            th0,
            crate::bitap::zero_seq_u8(t.len() as int),
            0,
        );
        let out = crate::bitap::outer_loop(
            t,
            p,
            loc,
            d,
            0,
            seeded.0,
            Score { num: 1, den: 1 },
            p.len() + t.len() as int,
            crate::bitap::zero_seq_u64((t.len() + p.len() + 2) as int),
            seeded.1,
        );
        lemma_seed_mask_len(t, p, loc, d, th0, crate::bitap::zero_seq_u8(t.len() as int), 0);
        lemma_outer_mask_len(
            t,
            p,
            loc,
            d,
            0,
            seeded.0,
            Score { num: 1, den: 1 },
            p.len() + t.len() as int,
            crate::bitap::zero_seq_u64((t.len() + p.len() + 2) as int),
            seeded.1,
        );
        lemma_find_ranges_ordered(out.1);
    }
}

/// Range ordering carried to collection search: every entry that
/// `Fuse::search_text_in_iterable` returns for a non-tokenized
/// configuration has nonempty, non-overlapping, strictly ascending ranges
/// within its item.
pub proof fn lemma_iterable_entry_ranges_ordered(
    e: crate::SearchResult,
    q: Seq<u8>,
    t: &str,
    loc: int,
    d: int,
    th0: Score,
    cs: bool,
)
    requires
        crate::search::entry_matches(e, q, t, loc, d, th0, cs, false),
        1 <= t.spec_bytes().len() <= usize::MAX,
    ensures
        ranges_ordered(e.ranges@, t.spec_bytes().len() as int),
{
    lemma_search_ranges_ordered(q, t.spec_bytes(), loc, d, th0, cs);
}

/// Seeding does not change the mask's length.
proof fn lemma_seed_mask_len(
    t: Seq<u8>,
    p: Seq<u8>,
    loc: int,
    d: int,
    th: Score,
    mask: Seq<u8>,
    pos: int,
)
    requires
        0 <= pos,
    ensures
        crate::bitap::seed_loop(t, p, loc, d, th, mask, pos).1.len() == mask.len(),
    decreases t.len() - pos,
{
    match crate::bitap::first_match(t, p, pos) {
        None => {},
        Some(i) => {
            crate::bitap::lemma_first_match_some(t, p, pos, i);
            let sc = crate::utils::spec_score(p.len() as int, 0, i, loc, d);
            let th2 = th.spec_min(sc);
            let mask2 = crate::bitap::mark_run(mask, i, p.len() as int);
            lemma_seed_mask_len(t, p, loc, d, th2, mask2, i + p.len() as int);
        },
    }
}

/// The error passes do not change the mask's length.
proof fn lemma_outer_mask_len(
    t: Seq<u8>,
    p: Seq<u8>,
    loc: int,
    d: int,
    e: int,
    th: Score,
    sc: Score,
    bin_max: int,
    last: Seq<u64>,
    mask: Seq<u8>,
)
    requires
        mask.len() == t.len(),
    ensures
        crate::bitap::outer_loop(t, p, loc, d, e, th, sc, bin_max, last, mask).1.len()
            == mask.len(),
    decreases p.len() - e,
{
    if e < 0 || e >= p.len() {
    } else {
        let bin_mid = crate::bitap::spec_bin_search(p.len() as int, e, loc, d, th, 0, bin_max,
            bin_max,
        );
        let start: int = if loc - bin_mid + 1 > 1 {
            loc - bin_mid + 1
        } else {
            1
        };
        let finish: int = (if t.len() < loc + bin_mid {
            t.len() as int
        } else {
            loc + bin_mid
        }) + p.len();
        if start > finish {
            lemma_outer_mask_len(t, p, loc, d, e + 1, th, sc, bin_mid, last, mask);
        } else {
            let bit0 = crate::bitap::seed_bit_arr(t.len() + p.len() + 2 as int, finish, e);
            let s = crate::bitap::scan_loop(t, p, loc, d, e, last, bit0, mask, th, sc, finish,
                start,
            );
            lemma_scan_mask_len(t, p, loc, d, e, last, bit0, mask, th, sc, finish, start);
            if !crate::utils::spec_score(p.len() as int, e + 1, loc, loc, d).spec_le(s.2) {
            } else {
                lemma_outer_mask_len(t, p, loc, d, e + 1, s.2, s.3, bin_mid, s.0, s.1);
            }
        }
    }
}

/// ASCII case folding is idempotent.
pub proof fn lemma_lower_idempotent(s: Seq<u8>)
    ensures
        crate::spec_lower(crate::spec_lower(s)) == crate::spec_lower(s),
{
    let once = crate::spec_lower(s);
    let twice = crate::spec_lower(once);
    assert forall|k: int| 0 <= k < twice.len() implies twice[k] == once[k] by {
        assert(once[k] == crate::spec_lower_byte(s[k]));
        assert(twice[k] == crate::spec_lower_byte(once[k]));
    }
    assert(twice =~= once);
}

/// One matcher run is invariant under pre-folding the target: the matcher
/// sees only the folded form.
proof fn lemma_search_util_fold(p: Seq<u8>, t_raw: Seq<u8>, loc: int, d: int, th0: Score)
    ensures
        spec_search_util(p, crate::spec_lower(t_raw), loc, d, th0, false) == spec_search_util(
            p,
            t_raw,
            loc,
            d,
            th0,
            false,
        ),
{
    lemma_lower_idempotent(t_raw);
    assert(spec_normalize(crate::spec_lower(t_raw), false) == spec_normalize(t_raw, false));
}

/// Tokenized accumulation is invariant under pre-folding the target.
proof fn lemma_tok_fold(
    words: Seq<Seq<u8>>,
    k: int,
    t_raw: Seq<u8>,
    loc: int,
    d: int,
    th0: Score,
    acc: Score,
    rgs: Seq<Range<usize>>,
)
    ensures
        crate::search::tok_loop(words, k, crate::spec_lower(t_raw), loc, d, th0, false, acc, rgs)
            == crate::search::tok_loop(words, k, t_raw, loc, d, th0, false, acc, rgs),
    decreases words.len() - k,
{
    if 0 <= k < words.len() {
        lemma_search_util_fold(words[k], t_raw, loc, d, th0);
        let rw = spec_search_util(words[k], t_raw, loc, d, th0, false);
        lemma_tok_fold(
            words,
            k + 1,
            t_raw,
            loc,
            d,
            th0,
            crate::score::spec_add(acc, rw.0),
            rgs + rw.1,
        );
    }
}

/// Case-fold invariance: the library's case folding is the ASCII fold,
/// applied identically to the query and the target — a deliberate choice,
/// since a length-preserving fold is what keeps the returned ranges valid
/// byte indices into the caller's original string. Folding the target (or
/// the query before compilation) to ASCII lower case beforehand therefore
/// changes nothing under case-insensitive matching; bytes beyond ASCII
/// compare case-sensitively.
pub proof fn lemma_case_fold_invariance(
    p: Seq<u8>,
    t_raw: Seq<u8>,
    loc: int,
    d: int,
    th0: Score,
    tok: bool,
)
    ensures
        spec_search(p, crate::spec_lower(t_raw), loc, d, th0, false, tok) == spec_search(
            p,
            t_raw,
            loc,
            d,
            th0,
            false,
            tok,
        ),
        spec_normalize(crate::spec_lower(p), false) == spec_normalize(p, false),
{
    lemma_lower_idempotent(p);
    lemma_search_util_fold(p, t_raw, loc, d, th0);
    if tok {
        let full = spec_search_util(p, t_raw, loc, d, th0, false);
        lemma_tok_fold(crate::search::spec_words(p), 0, t_raw, loc, d, th0, full.0, full.1);
    }
}

/// No byte of `t` occurs anywhere in `p`.
pub open spec fn no_shared_bytes(p: Seq<u8>, t: Seq<u8>) -> bool {
    forall|k: int| 0 <= k < t.len() ==> !p.contains(#[trigger] t[k])
}

/// Every entry of `s` is below `1 << b`.
pub open spec fn bounded_by(s: Seq<u64>, b: int) -> bool {
    forall|k: int| 0 <= k < s.len() ==> (#[trigger] s[k]) < (1u64 << b as u64)
}

/// A byte that occurs nowhere in the pattern has an all-zero alphabet
/// mask.
proof fn lemma_alphabet_upto_zero(p: Seq<u8>, hi: int, c: u8)
    requires
        !p.contains(c),
    ensures
        crate::utils::alphabet_upto(p, hi, c) == 0,
    decreases hi,
{
    if hi <= 0 || hi > p.len() || p.len() > 64 {
    } else {
        assert(p[hi - 1] != c);
        lemma_alphabet_upto_zero(p, hi - 1, c);
        assert(0u64 | 0u64 == 0u64) by (bit_vector);
    }
}

/// A pattern that shares no byte with `t` occurs nowhere in `t` as a
/// literal substring.
proof fn lemma_no_literal_match(t: Seq<u8>, p: Seq<u8>, from: int)
    requires
        p.len() >= 1,
        no_shared_bytes(p, t),
    ensures
        crate::bitap::first_match(t, p, from) is None,
    decreases t.len() - from,
{
    if p.len() < 1 || from < 0 || from + p.len() > t.len() {
    } else if crate::bitap::is_match_at(t, p, from) {
        assert(t.subrange(from, from + p.len() as int)[0] == t[from]);
        assert(p[0] == t[from]);
        assert(p.contains(t[from]));
    } else {
        lemma_no_literal_match(t, p, from + 1);
    }
}

/// With no shared byte, the seeding pass changes neither the threshold
/// nor the mask.
proof fn lemma_seed_no_shared(
    t: Seq<u8>,
    p: Seq<u8>,
    loc: int,
    d: int,
    th: Score,
    mask: Seq<u8>,
    pos: int,
)
    requires
        p.len() >= 1,
        no_shared_bytes(p, t),
        0 <= pos,
    ensures
        crate::bitap::seed_loop(t, p, loc, d, th, mask, pos) == (th, mask),
{
    lemma_no_literal_match(t, p, pos);
}

/// With no shared byte, one window scan leaves the mask, the threshold
/// and the running score unchanged, and its bit states stay below
/// `1 << (e + 1)`.
proof fn lemma_scan_no_shared(
    t: Seq<u8>,
    p: Seq<u8>,
    loc: int,
    d: int,
    e: int,
    last: Seq<u64>,
    bit: Seq<u64>,
    mask: Seq<u8>,
    th: Score,
    sc: Score,
    j: int,
    start: int,
)
    requires
        1 <= p.len() <= 64,
        0 <= e < p.len(),
        no_shared_bytes(p, t),
        e == 0 || bounded_by(last, e - 1),
        bounded_by(bit, e),
        j < bit.len() || j < start || start < 1,
    ensures
        ({
            let s = crate::bitap::scan_loop(t, p, loc, d, e, last, bit, mask, th, sc, j, start);
            &&& bounded_by(s.0, e)
            &&& s.1 == mask
            &&& s.2 == th
            &&& s.3 == sc
        }),
    decreases j,
{
    if j < start || start < 1 {
    } else {
        let curloc = j - 1;
        let cm: u64 = if curloc < t.len() {
            crate::utils::spec_alphabet(p, t[curloc])
        } else {
            0u64
        };
        if curloc < t.len() {
            lemma_alphabet_upto_zero(p, p.len() as int, t[curloc]);
        }
        assert(cm == 0);
        let vj1 = crate::bitap::at64(bit, j + 1);
        let v0 = ((vj1 << 1u64) | 1u64) & cm;
        assert(v0 == 0) by (bit_vector)
            requires
                v0 == ((vj1 << 1u64) | 1u64) & 0u64,
        ;
        let l1 = crate::bitap::at64(last, j + 1);
        let l0 = crate::bitap::at64(last, j);
        let v: u64 = if e > 0 {
            v0 | ((((l1 | l0) << 1u64) | 1u64) | l1)
        } else {
            v0
        };
        let eu = e as u64;
        let em = (e - 1) as u64;
        if e > 0 {
            assert(l1 < (1u64 << em) && l0 < (1u64 << em)) by {
                assert(last.len() <= 0 || bounded_by(last, e - 1));
                if 0 <= j + 1 < last.len() {
                    assert(last[j + 1] < (1u64 << (e - 1) as u64));
                }
                if 0 <= j < last.len() {
                    assert(last[j] < (1u64 << (e - 1) as u64));
                }
                assert(0u64 < (1u64 << em)) by (bit_vector)
                    requires
                        em <= 63,
                ;
            }
            assert((0u64 | ((((l1 | l0) << 1u64) | 1u64) | l1)) < (1u64 << eu)) by (bit_vector)
                requires
                    l1 < (1u64 << em),
                    l0 < (1u64 << em),
                    1 <= eu <= 63,
                    em == eu - 1,
            ;
            assert(v < (1u64 << eu));
        } else {
            assert(v == 0);
            assert(0u64 < (1u64 << 0u64)) by (bit_vector);
        }
        let bit2 = bit.update(j, v);
        assert(bounded_by(bit2, e)) by {
            assert forall|k: int| 0 <= k < bit2.len() implies (#[trigger] bit2[k]) < (1u64
                << e as u64) by {
                if k != j {
                    assert(bit2[k] == bit[k]);
                }
            }
        }
        let pmask: u64 = 1u64 << (p.len() - 1) as u64;
        let lm = (p.len() - 1) as u64;
        assert(v & pmask == 0) by (bit_vector)
            requires
                v < (1u64 << eu),
                eu <= lm,
                lm < 64,
                pmask == 1u64 << lm,
        ;
        lemma_scan_no_shared(t, p, loc, d, e, last, bit2, mask, th, sc, j - 1, start);
    }
}

/// With no shared byte, the error passes leave the score and the mask
/// unchanged.
proof fn lemma_outer_no_shared(
    t: Seq<u8>,
    p: Seq<u8>,
    loc: int,
    d: int,
    e: int,
    th: Score,
    sc: Score,
    bin_max: int,
    last: Seq<u64>,
    mask: Seq<u8>,
)
    requires
        1 <= p.len() <= 64,
        0 <= e,
        no_shared_bytes(p, t),
        bounded_by(last, if e <= 0 {
            0int
        } else {
            e - 1
        }),
    ensures
        crate::bitap::outer_loop(t, p, loc, d, e, th, sc, bin_max, last, mask) == (sc, mask),
    decreases p.len() - e,
{
    if e < 0 || e >= p.len() {
    } else {
        let bin_mid = crate::bitap::spec_bin_search(p.len() as int, e, loc, d, th, 0, bin_max,
            bin_max,
        );
        let start: int = if loc - bin_mid + 1 > 1 {
            loc - bin_mid + 1
        } else {
            1
        };
        let finish: int = (if t.len() < loc + bin_mid {
            t.len() as int
        } else {
            loc + bin_mid
        }) + p.len();
        let eu = e as u64;
        let eb: u64 = if e <= 0 {
            0u64
        } else {
            (e - 1) as u64
        };
        assert(bounded_by(last, e)) by {
            assert forall|k: int| 0 <= k < last.len() implies (#[trigger] last[k]) < (1u64
                << eu) by {
                let x = last[k];
                assert(x < (1u64 << eu)) by (bit_vector)
                    requires
                        x < (1u64 << eb),
                        eb <= eu,
                        eu < 64,
                ;
            }
        }
        if start > finish {
            lemma_outer_no_shared(t, p, loc, d, e + 1, th, sc, bin_mid, last, mask);
        } else {
            let width = t.len() + p.len() + 2 as int;
            let bit0 = crate::bitap::seed_bit_arr(width, finish, e);
            assert(bounded_by(bit0, e)) by {
                assert((((1u64 << eu) - 1) as u64) < (1u64 << eu) && 0u64 < (1u64 << eu))
                    by (bit_vector)
                    requires
                        eu < 64,
                ;
            }
            lemma_scan_no_shared(t, p, loc, d, e, last, bit0, mask, th, sc, finish, start);
            let s = crate::bitap::scan_loop(t, p, loc, d, e, last, bit0, mask, th, sc, finish,
                start,
            );
            if !crate::utils::spec_score(p.len() as int, e + 1, loc, loc, d).spec_le(s.2) {
            } else {
                lemma_outer_no_shared(t, p, loc, d, e + 1, s.2, s.3, bin_mid, s.0, s.1);
            }
        }
    }
}

/// Under the engine's bounds a score is a well-formed rational.
proof fn lemma_spec_score_wf(len: int, e: int, x: int, loc: int, d: int)
    requires
        1 <= len <= 64,
        0 <= d <= 0x8000_0000,
    ensures
        crate::utils::spec_score(len, e, x, loc, d).wf(),
{
    if d != 0 {
        assert(1 <= len * d <= 64 * 0x8000_0000int) by (nonlinear_arith)
            requires
                1 <= len <= 64,
                1 <= d <= 0x8000_0000int,
        ;
    }
}

/// Seeding only ever tightens the threshold: the returned threshold is
/// well-formed and at most the given one.
proof fn lemma_seed_score_within(
    t: Seq<u8>,
    p: Seq<u8>,
    loc: int,
    d: int,
    th: Score,
    mask: Seq<u8>,
    pos: int,
)
    requires
        1 <= p.len() <= 64,
        0 <= d <= 0x8000_0000,
        th.wf(),
        0 <= pos,
    ensures
        ({
            let r = crate::bitap::seed_loop(t, p, loc, d, th, mask, pos);
            r.0.wf() && r.0.spec_le(th)
        }),
    decreases t.len() - pos,
{
    match crate::bitap::first_match(t, p, pos) {
        None => {},
        Some(i) => {
            crate::bitap::lemma_first_match_some(t, p, pos, i);
            let sc = crate::utils::spec_score(p.len() as int, 0, i, loc, d);
            let th2 = th.spec_min(sc);
            let mask2 = crate::bitap::mark_run(mask, i, p.len() as int);
            lemma_seed_score_within(t, p, loc, d, th2, mask2, i + p.len() as int);
            let r = crate::bitap::seed_loop(t, p, loc, d, th2, mask2, i + p.len() as int);
            crate::score::lemma_score_le_trans(r.0, th2, th);
        },
    }
}

/// The window scan only ever tightens the threshold, and records a score
/// only when it is within the threshold: the returned score is a full
/// mismatch or at most `th0`.
proof fn lemma_scan_score_within(
    t: Seq<u8>,
    p: Seq<u8>,
    loc: int,
    d: int,
    e: int,
    last: Seq<u64>,
    bit: Seq<u64>,
    mask: Seq<u8>,
    th: Score,
    sc: Score,
    j: int,
    start: int,
    th0: Score,
)
    requires
        1 <= p.len() <= 64,
        0 <= d <= 0x8000_0000,
        th0.wf(),
        th.wf(),
        th.spec_le(th0),
        sc == (Score { num: 1, den: 1 }) || (sc.wf() && sc.spec_le(th0)),
    ensures
        ({
            let r = crate::bitap::scan_loop(t, p, loc, d, e, last, bit, mask, th, sc, j, start);
            &&& r.2.wf() && r.2.spec_le(th0)
            &&& (r.3 == (Score { num: 1, den: 1 }) || (r.3.wf() && r.3.spec_le(th0)))
        }),
    decreases j,
{
    if j < start || start < 1 {
    } else {
        let curloc = j - 1;
        let cm: u64 = if curloc < t.len() {
            crate::utils::spec_alphabet(p, t[curloc])
        } else {
            0u64
        };
        let mask2 = if cm != 0 && curloc < t.len() {
            mask.update(curloc, 1u8)
        } else {
            mask
        };
        let v0 = ((crate::bitap::at64(bit, j + 1) << 1u64) | 1u64) & cm;
        let v: u64 = if e > 0 {
            v0 | ((((crate::bitap::at64(last, j + 1) | crate::bitap::at64(last, j)) << 1u64)
                | 1u64) | crate::bitap::at64(last, j + 1))
        } else {
            v0
        };
        let bit2 = bit.update(j, v);
        let pmask: u64 = 1u64 << (p.len() - 1) as u64;
        if v & pmask != 0 {
            let cand = crate::utils::spec_score(p.len() as int, e, loc, curloc, d);
            if cand.spec_le(th) {
                lemma_spec_score_wf(p.len() as int, e, loc, curloc, d);
                crate::score::lemma_score_le_trans(cand, th, th0);
                if curloc <= loc {
                } else {
                    lemma_scan_score_within(t, p, loc, d, e, last, bit2, mask2, cand, cand, j - 1,
                        start, th0);
                }
            } else {
                lemma_scan_score_within(t, p, loc, d, e, last, bit2, mask2, th, sc, j - 1, start,
                    th0);
            }
        } else {
            lemma_scan_score_within(t, p, loc, d, e, last, bit2, mask2, th, sc, j - 1, start, th0);
        }
    }
}

/// The error passes record a score only when some pass tightened it to at
/// most `th0`; otherwise the running score is returned unchanged.
proof fn lemma_outer_score_within(
    t: Seq<u8>,
    p: Seq<u8>,
    loc: int,
    d: int,
    e: int,
    th: Score,
    sc: Score,
    bin_max: int,
    last: Seq<u64>,
    mask: Seq<u8>,
    th0: Score,
)
    requires
        1 <= p.len() <= 64,
        0 <= d <= 0x8000_0000,
        th0.wf(),
        th.wf(),
        th.spec_le(th0),
        sc == (Score { num: 1, den: 1 }) || (sc.wf() && sc.spec_le(th0)),
    ensures
        ({
            let r = crate::bitap::outer_loop(t, p, loc, d, e, th, sc, bin_max, last, mask);
            r.0 == (Score { num: 1, den: 1 }) || (r.0.wf() && r.0.spec_le(th0))
        }),
    decreases p.len() - e,
{
    if e < 0 || e >= p.len() {
    } else {
        let bin_mid = crate::bitap::spec_bin_search(p.len() as int, e, loc, d, th, 0, bin_max,
            bin_max,
        );
        let start: int = if loc - bin_mid + 1 > 1 {
            loc - bin_mid + 1
        } else {
            1
        };
        let finish: int = (if t.len() < loc + bin_mid {
            t.len() as int
        } else {
            loc + bin_mid
        }) + p.len();
        if start > finish {
            lemma_outer_score_within(t, p, loc, d, e + 1, th, sc, bin_mid, last, mask, th0);
        } else {
            let bit0 = crate::bitap::seed_bit_arr(t.len() + p.len() + 2 as int, finish, e);
            lemma_scan_score_within(t, p, loc, d, e, last, bit0, mask, th, sc, finish, start, th0);
            let s = crate::bitap::scan_loop(t, p, loc, d, e, last, bit0, mask, th, sc, finish,
                start,
            );
            if !crate::utils::spec_score(p.len() as int, e + 1, loc, loc, d).spec_le(s.2) {
            } else {
                lemma_outer_score_within(t, p, loc, d, e + 1, s.2, s.3, bin_mid, s.0, s.1, th0);
            }
        }
    }
}

/// Scores respect the threshold: the matcher's score is a full mismatch
/// (`1`) unless seeding or an error pass tightened it, and anything
/// tightened is at most the configured threshold — a score above the
/// threshold is a non-match and is never reported.
pub proof fn lemma_search_util_score_within(
    p: Seq<u8>,
    t_raw: Seq<u8>,
    loc: int,
    d: int,
    th0: Score,
    cs: bool,
)
    requires
        1 <= p.len() <= 64,
        0 <= d <= 0x8000_0000,
        th0.wf(),
    ensures
        ({
            let s = spec_search_util(p, t_raw, loc, d, th0, cs);
            s.0 == (Score { num: 1, den: 1 }) || (s.0.wf() && s.0.spec_le(th0))
        }),
{
    let t = spec_normalize(t_raw, cs);
    if t == p {
    } else {
        let mask0 = crate::bitap::zero_seq_u8(t.len() as int);
        lemma_seed_score_within(t, p, loc, d, th0, mask0, 0);
        let seeded = crate::bitap::seed_loop(t, p, loc, d, th0, mask0, 0);
        lemma_outer_score_within(
            t,
            p,
            loc,
            d,
            0,
            seeded.0,
            Score { num: 1, den: 1 },
            p.len() + t.len() as int,
            crate::bitap::zero_seq_u64((t.len() + p.len() + 2) as int),
            seeded.1,
            th0,
        );
    }
}

/// Threshold respected at the search level: every non-tokenized match
/// result scores at most the configured threshold; a score that nothing
/// tightened is the full mismatch, which the cutoff turns into no result.
pub proof fn lemma_search_score_within(
    p: Seq<u8>,
    t_raw: Seq<u8>,
    loc: int,
    d: int,
    th0: Score,
    cs: bool,
)
    requires
        1 <= p.len() <= 64,
        0 <= d <= 0x8000_0000,
        th0.wf(),
    ensures
        spec_search(p, t_raw, loc, d, th0, cs, false) matches Some(v) ==> (v.0.wf()
            && v.0.spec_le(th0)),
{
    lemma_search_util_score_within(p, t_raw, loc, d, th0, cs);
}

/// `w` is a word drawn from `s`: nonempty, no longer than `s`, and made
/// of bytes that occur in `s`.
pub open spec fn word_of(s: Seq<u8>, w: Seq<u8>) -> bool {
    &&& 1 <= w.len() <= s.len()
    &&& forall|k: int| 0 <= k < w.len() ==> s.contains(#[trigger] w[k])
}

/// A contiguous piece of `s` is a word of `s`.
proof fn lemma_subrange_word(s: Seq<u8>, a: int, b: int)
    requires
        0 <= a < b <= s.len(),
    ensures
        word_of(s, s.subrange(a, b)),
{
    let w = s.subrange(a, b);
    assert forall|k: int| 0 <= k < w.len() implies s.contains(#[trigger] w[k]) by {
        assert(w[k] == s[a + k]);
        assert(0 <= a + k < s.len() && s[a + k] == w[k]);
    }
}

/// Every word the whitespace split produces is a word of `s`, and there
/// are at most `s.len() + 1` of them beyond those already accumulated.
proof fn lemma_words_wf(s: Seq<u8>, i: int, cur: int, acc: Seq<Seq<u8>>)
    requires
        0 <= i <= s.len(),
        cur >= 0 ==> 0 <= cur < i,
        forall|j: int| 0 <= j < acc.len() ==> word_of(s, #[trigger] acc[j]),
    ensures
        ({
            let ws = crate::search::words_loop(s, i, cur, acc);
            &&& ws.len() <= acc.len() + (s.len() - i) + 1
            &&& forall|j: int| 0 <= j < ws.len() ==> word_of(s, #[trigger] ws[j])
        }),
    decreases s.len() - i,
{
    if i == s.len() {
        if cur >= 0 {
            lemma_subrange_word(s, cur, i);
        }
    } else {
        let w = crate::search::ws_len_at(s, i);
        if w > 0 {
            if cur >= 0 {
                lemma_subrange_word(s, cur, i);
                lemma_words_wf(s, i + w, -1, acc.push(s.subrange(cur, i)));
            } else {
                lemma_words_wf(s, i + w, -1, acc);
            }
        } else {
            if cur >= 0 {
                lemma_words_wf(s, i + 1, cur, acc);
            } else {
                lemma_words_wf(s, i + 1, i, acc);
            }
        }
    }
}

/// When every remaining word shares no byte with the folded target, the
/// tokenized accumulation adds exactly one full mismatch per word and
/// leaves the ranges alone.
proof fn lemma_tok_all_ones(
    words: Seq<Seq<u8>>,
    k: int,
    t_raw: Seq<u8>,
    loc: int,
    d: int,
    th0: Score,
    cs: bool,
    j: u64,
    rgs: Seq<Range<usize>>,
)
    requires
        t_raw.len() >= 1,
        0 <= k <= words.len(),
        1 <= j,
        j + (words.len() - k) <= u64::MAX,
        forall|m: int|
            k <= m < words.len() ==> (1 <= (#[trigger] words[m]).len() <= 64 && no_shared_bytes(
                words[m],
                spec_normalize(t_raw, cs),
            )),
    ensures
        crate::search::tok_loop(words, k, t_raw, loc, d, th0, cs, Score { num: j, den: 1 }, rgs)
            == (Score { num: (j + words.len() - k) as u64, den: 1 }, rgs),
    decreases words.len() - k,
{
    if k < words.len() {
        lemma_search_util_no_shared(words[k], t_raw, loc, d, th0, cs);
        assert(crate::score::spec_add(Score { num: j, den: 1 }, Score { num: 1, den: 1 })
            == Score { num: (j + 1) as u64, den: 1 });
        assert(rgs + Seq::<Range<usize>>::empty() =~= rgs);
        lemma_tok_all_ones(words, k + 1, t_raw, loc, d, th0, cs, (j + 1) as u64, rgs);
    }
}

/// The all-zero mask yields no ranges.
proof fn lemma_ranges_loop_zero(mask: Seq<u8>, n: int)
    requires
        forall|k: int| 0 <= k < mask.len() ==> (#[trigger] mask[k]) == 0,
        n <= mask.len(),
    ensures
        ranges_loop(mask, n) == (Seq::<Range<usize>>::empty(), -1int),
    decreases n,
{
    if n <= 0 {
    } else {
        lemma_ranges_loop_zero(mask, n - 1);
    }
}

/// The matcher-level core of the no-shared-bytes law: with no byte in
/// common the single run scores a full mismatch and marks nothing.
proof fn lemma_search_util_no_shared(
    p: Seq<u8>,
    t_raw: Seq<u8>,
    loc: int,
    d: int,
    th0: Score,
    cs: bool,
)
    requires
        1 <= p.len() <= 64,
        t_raw.len() >= 1,
        no_shared_bytes(p, spec_normalize(t_raw, cs)),
    ensures
        spec_search_util(p, t_raw, loc, d, th0, cs) == (
            Score { num: 1, den: 1 },
            Seq::<Range<usize>>::empty(),
        ),
{
    let t = spec_normalize(t_raw, cs);
    assert(t.len() == t_raw.len());
    assert(t != p) by {
        if t == p {
            assert(p.contains(t[0])) by {
                assert(p[0] == t[0]);
            }
        }
    }
    let mask0 = crate::bitap::zero_seq_u8(t.len() as int);
    lemma_seed_no_shared(t, p, loc, d, th0, mask0, 0);
    let last0 = crate::bitap::zero_seq_u64((t.len() + p.len() + 2) as int);
    assert(bounded_by(last0, 0)) by {
        assert(0u64 < (1u64 << 0u64)) by (bit_vector);
    }
    lemma_outer_no_shared(
        t,
        p,
        loc,
        d,
        0,
        th0,
        Score { num: 1, den: 1 },
        p.len() + t.len() as int,
        last0,
        mask0,
    );
    lemma_ranges_loop_zero(mask0, mask0.len() as int);
    assert(spec_find_ranges(mask0) =~= Seq::<Range<usize>>::empty());
}

/// No match is reported: when the pattern and the (case-folded) target
/// share no byte at all, the matcher scores a full mismatch and marks
/// nothing, so the orchestrated search — tokenized or not — yields no
/// result, under every location, distance and threshold.
pub proof fn lemma_no_shared_bytes_no_match(
    p: Seq<u8>,
    t_raw: Seq<u8>,
    loc: int,
    d: int,
    th0: Score,
    cs: bool,
    tok: bool,
)
    requires
        1 <= p.len() <= 64,
        t_raw.len() >= 1,
        no_shared_bytes(p, spec_normalize(t_raw, cs)),
    ensures
        spec_search_util(p, t_raw, loc, d, th0, cs) == (
            Score { num: 1, den: 1 },
            Seq::<Range<usize>>::empty(),
        ),
        spec_search(p, t_raw, loc, d, th0, cs, tok) is None,
{
    let t = spec_normalize(t_raw, cs);
    lemma_search_util_no_shared(p, t_raw, loc, d, th0, cs);
    if tok {
        let words = crate::search::spec_words(p);
        lemma_words_wf(p, 0, -1, Seq::empty());
        assert forall|m: int|
            0 <= m < words.len() implies (1 <= (#[trigger] words[m]).len() <= 64
            && no_shared_bytes(words[m], t)) by {
            assert(word_of(p, words[m]));
            assert forall|x: int| 0 <= x < t.len() implies !words[m].contains(
                #[trigger] t[x],
            ) by {
                if words[m].contains(t[x]) {
                    let kk = choose|kk: int|
                        0 <= kk < words[m].len() && words[m][kk] == t[x];
                    assert(p.contains(words[m][kk]));
                }
            }
        }
        lemma_tok_all_ones(words, 0, t_raw, loc, d, th0, cs, 1u64, Seq::empty());
        let w_count = words.len() as int;
        let total = Score { num: (1 + w_count) as u64, den: 1 };
        assert(crate::score::spec_div_count(total, w_count + 1) == Score {
            num: (1 + w_count) as u64,
            den: (1 + w_count) as u64,
        });
        assert(crate::search::spec_near_one(
            Score { num: (1 + w_count) as u64, den: (1 + w_count) as u64 },
        ));
    }
}

/// The window scan does not change the mask's length.
proof fn lemma_scan_mask_len(
    t: Seq<u8>,
    p: Seq<u8>,
    loc: int,
    d: int,
    e: int,
    last: Seq<u64>,
    bit: Seq<u64>,
    mask: Seq<u8>,
    th: Score,
    sc: Score,
    j: int,
    start: int,
)
    requires
        mask.len() == t.len(),
    ensures
        crate::bitap::scan_loop(t, p, loc, d, e, last, bit, mask, th, sc, j, start).1.len()
            == mask.len(),
    decreases j,
{
    if j < start || start < 1 {
    } else {
        let curloc = j - 1;
        let cm: u64 = if curloc < t.len() {
            crate::utils::spec_alphabet(p, t[curloc])
        } else {
            0u64
        };
        let mask2 = if cm != 0 && curloc < t.len() {
            mask.update(curloc, 1u8)
        } else {
            mask
        };
        let v0 = ((crate::bitap::at64(bit, j + 1) << 1u64) | 1u64) & cm;
        let v: u64 = if e > 0 {
            v0 | ((((crate::bitap::at64(last, j + 1) | crate::bitap::at64(last, j)) << 1u64)
                | 1u64) | crate::bitap::at64(last, j + 1))
        } else {
            v0
        };
        let bit2 = bit.update(j, v);
        let pmask: u64 = 1u64 << (p.len() - 1) as u64;
        if v & pmask != 0 {
            let cand = crate::utils::spec_score(p.len() as int, e, loc, curloc, d);
            if cand.spec_le(th) {
                if curloc <= loc {
                } else {
                    lemma_scan_mask_len(t, p, loc, d, e, last, bit2, mask2, cand, cand, j - 1,
                        start,
                    );
                }
            } else {
                lemma_scan_mask_len(t, p, loc, d, e, last, bit2, mask2, th, sc, j - 1, start);
            }
        } else {
            lemma_scan_mask_len(t, p, loc, d, e, last, bit2, mask2, th, sc, j - 1, start);
        }
    }
}

/// Determinism: the orchestrated search is a pure function of the
/// pattern text, the target, and the configuration. Since `Fuse::search`
/// ensures its result equals `spec_search` on these inputs, any two calls
/// on identical inputs return identical results.
pub proof fn lemma_search_deterministic(
    p: Seq<u8>,
    t_raw: Seq<u8>,
    loc: int,
    d: int,
    th0: Score,
    cs: bool,
    tok: bool,
    r1: Option<(Score, Seq<Range<usize>>)>,
    r2: Option<(Score, Seq<Range<usize>>)>,
)
    requires
        r1 == spec_search(p, t_raw, loc, d, th0, cs, tok),
        r2 == spec_search(p, t_raw, loc, d, th0, cs, tok),
    ensures
        r1 == r2,
{
}

/// A target equal to the pattern (after the same case folding) scores
/// exactly 0, with a single range covering the whole target, under every
/// location, distance and threshold; the near-mismatch cutoff never
/// discards it. Stated for whole-pattern matching: tokenized averaging
/// blends the per-word scores into the whole-pattern score, so an exact
/// whole-target match need not average to 0 there.
pub proof fn lemma_exact_match_scores_zero(
    p: Seq<u8>,
    t_raw: Seq<u8>,
    loc: int,
    d: int,
    th0: Score,
    cs: bool,
)
    requires
        p == spec_normalize(t_raw, cs),
        p.len() >= 1,
    ensures
        spec_search(p, t_raw, loc, d, th0, cs, false) == Some(
            (
                Score { num: 0, den: 1 },
                seq![Range { start: 0usize, end: t_raw.len() as usize }],
            ),
        ),
{
    let t = spec_normalize(t_raw, cs);
    assert(t.len() == t_raw.len());
    let s = spec_search_util(p, t_raw, loc, d, th0, cs);
    assert(s.0 == Score { num: 0, den: 1 });
    assert(s.1 =~= seq![Range { start: 0usize, end: t_raw.len() as usize }]);
}

} // verus!
