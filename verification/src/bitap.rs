//! The Bitap matcher: an exact-substring fast path, literal-occurrence
//! seeding, and the bounded-error bit-parallel search, producing a score
//! and a match mask.
//!
//! Every step of the executable matcher is pinned to a specification-level
//! mirror (`spec_search_util` and the loop functions under it), so two runs
//! on the same inputs provably return the same result.

use std::ops::Range;
use vstd::prelude::*;
use vstd::string::StringSliceAdditionalSpecFns;

use crate::score::Score;
use crate::utils::calculate_score;
use crate::utils::find_ranges;
use crate::utils::spec_alphabet;
use crate::utils::spec_find_ranges;
use crate::utils::spec_score;
use crate::utils::MAX_TEXT_LEN;
use crate::spec_normalize;
use crate::Fuse;
use crate::Pattern;
use crate::ScoreResult;

verus! {

broadcast use vstd::std_specs::hash::group_hash_axioms;

/// The entry of `s` at `k`, reading absent positions as zero.
pub open spec fn at64(s: Seq<u64>, k: int) -> u64 {
    if 0 <= k < s.len() {
        s[k]
    } else {
        0u64
    }
}

/// A sequence of `n` zero bytes.
pub open spec fn zero_seq_u8(n: int) -> Seq<u8> {
    Seq::new(n as nat, |k: int| 0u8)
}

/// A sequence of `n` zero words.
pub open spec fn zero_seq_u64(n: int) -> Seq<u64> {
    Seq::new(n as nat, |k: int| 0u64)
}

/// `mask` with positions `i .. i + len` marked as matched.
pub open spec fn mark_run(mask: Seq<u8>, i: int, len: int) -> Seq<u8> {
    Seq::new(
        mask.len(),
        |k: int|
            if i <= k < i + len {
                1u8
            } else {
                mask[k]
            },
    )
}

/// The fresh bit-state array of one error pass: all zero but for the entry
/// just past the window's end, which starts with the `e` lowest bits set.
pub open spec fn seed_bit_arr(width: int, finish: int, e: int) -> Seq<u64> {
    Seq::new(
        width as nat,
        |k: int|
            if k == finish + 1 {
                ((1u64 << e as u64) - 1) as u64
            } else {
                0u64
            },
    )
}

/// `needle` occurs in `hay` starting at position `i`.
pub open spec fn is_match_at(hay: Seq<u8>, needle: Seq<u8>, i: int) -> bool {
    &&& 0 <= i
    &&& i + needle.len() <= hay.len()
    &&& hay.subrange(i, i + needle.len() as int) == needle
}

/// The first position at or after `from` where `needle` occurs in `hay`.
pub open spec fn first_match(hay: Seq<u8>, needle: Seq<u8>, from: int) -> Option<int>
    decreases hay.len() - from,
{
    if needle.len() < 1 || from < 0 || from + needle.len() > hay.len() {
        None
    } else if is_match_at(hay, needle, from) {
        Some(from)
    } else {
        first_match(hay, needle, from + 1)
    }
}

/// What a found occurrence means: it is a match at or after `from` that
/// fits inside `hay`.
pub proof fn lemma_first_match_some(hay: Seq<u8>, needle: Seq<u8>, from: int, i: int)
    requires
        first_match(hay, needle, from) == Some(i),
    ensures
        from <= i,
        needle.len() >= 1,
        i + needle.len() <= hay.len(),
        is_match_at(hay, needle, i),
    decreases hay.len() - from,
{
    if needle.len() < 1 || from < 0 || from + needle.len() > hay.len() {
        assert(false);
    } else if is_match_at(hay, needle, from) {
    } else {
        lemma_first_match_some(hay, needle, from + 1, i);
    }
}

/// The exact-substring seeding pass: starting the scan at `pos`, each
/// non-overlapping literal occurrence of `p` in `t` lowers the threshold
/// to the occurrence's score and marks its positions in the mask.
pub open spec fn seed_loop(
    t: Seq<u8>,
    p: Seq<u8>,
    loc: int,
    d: int,
    th: Score,
    mask: Seq<u8>,
    pos: int,
) -> (Score, Seq<u8>)
    decreases t.len() - pos,
    when 0 <= pos
    via seed_loop_decreases
{
    match first_match(t, p, pos) {
        None => (th, mask),
        Some(i) => {
            let sc = spec_score(p.len() as int, 0, i, loc, d);
            let th2 = th.spec_min(sc);
            let mask2 = mark_run(mask, i, p.len() as int);
            seed_loop(t, p, loc, d, th2, mask2, i + p.len() as int)
        },
    }
}

#[via_fn]
proof fn seed_loop_decreases(
    t: Seq<u8>,
    p: Seq<u8>,
    loc: int,
    d: int,
    th: Score,
    mask: Seq<u8>,
    pos: int,
) {
    match first_match(t, p, pos) {
        None => {},
        Some(i) => {
            lemma_first_match_some(t, p, pos, i);
        },
    }
}

/// The radius search: narrows `[bin_min, bin_max]` to the largest window
/// radius whose score at `e` errors still stays within the threshold.
pub open spec fn spec_bin_search(
    len: int,
    e: int,
    loc: int,
    d: int,
    th: Score,
    bin_min: int,
    bin_mid: int,
    bin_max: int,
) -> int
    decreases bin_max - bin_min, bin_mid - bin_min,
{
    if !(0 <= bin_min && bin_min < bin_mid && bin_mid <= bin_max) {
        bin_mid
    } else if spec_score(len, e, loc, loc + bin_mid, d).spec_le(th) {
        spec_bin_search(len, e, loc, d, th, bin_mid, (bin_max - bin_mid) / 2 + bin_mid, bin_max)
    } else {
        spec_bin_search(len, e, loc, d, th, bin_min, (bin_mid - bin_min) / 2 + bin_min, bin_mid)
    }
}

/// One right-to-left scan of the window `[start, j]` at error budget `e`:
/// updates the bit states, marks matched positions in the mask, and on a
/// full-length match within the threshold tightens the threshold and the
/// score to the candidate; at or before the expected location it stops
/// early. A candidate above the threshold is a non-match and changes
/// nothing. Returns the bit states, the mask, the threshold and the score.
pub open spec fn scan_loop(
    t: Seq<u8>,
    p: Seq<u8>,
    loc: int,
    d: int,
    e: int,
    last: Seq<u64>,
    bit: Seq<u64>,
    mask: Seq<u8>,
    th: Score,
    sc: Score,
    j: int,
    start: int,
) -> (Seq<u64>, Seq<u8>, Score, Score)
    decreases j,
{
    if j < start || start < 1 {
        (bit, mask, th, sc)
    } else {
        let curloc = j - 1;
        let cm: u64 = if curloc < t.len() {
            spec_alphabet(p, t[curloc])
        } else {
            0u64
        };
        let mask2 = if cm != 0 && curloc < t.len() {
            mask.update(curloc, 1u8)
        } else {
            mask
        };
        let v0 = ((at64(bit, j + 1) << 1u64) | 1u64) & cm;
        let v: u64 = if e > 0 {
            v0 | ((((at64(last, j + 1) | at64(last, j)) << 1u64) | 1u64) | at64(last, j + 1))
        } else {
            v0
        };
        let bit2 = bit.update(j, v);
        let pmask: u64 = 1u64 << (p.len() - 1) as u64;
        if v & pmask != 0 {
            let cand = spec_score(p.len() as int, e, loc, curloc, d);
            if cand.spec_le(th) {
                if curloc <= loc {
                    (bit2, mask2, cand, cand)
                } else {
                    scan_loop(t, p, loc, d, e, last, bit2, mask2, cand, cand, j - 1, start)
                }
            } else {
                scan_loop(t, p, loc, d, e, last, bit2, mask2, th, sc, j - 1, start)
            }
        } else {
            scan_loop(t, p, loc, d, e, last, bit2, mask2, th, sc, j - 1, start)
        }
    }
}

/// One pass per tolerated error count `e`: bounds the scan window, runs
/// the window scan, and stops once even a perfect position with `e + 1`
/// errors could not meet the threshold. Returns the final score and mask.
pub open spec fn outer_loop(
    t: Seq<u8>,
    p: Seq<u8>,
    loc: int,
    d: int,
    e: int,
    th: Score,
    sc: Score,
    bin_max: int,
    last: Seq<u64>,
    mask: Seq<u8>,
) -> (Score, Seq<u8>)
    decreases p.len() - e,
{
    if e < 0 || e >= p.len() {
        (sc, mask)
    } else {
        let bin_mid = spec_bin_search(p.len() as int, e, loc, d, th, 0, bin_max, bin_max);
        let start: int = if loc - bin_mid + 1 > 1 {
            loc - bin_mid + 1
        } else {
            1
        };
        let finish: int = (if t.len() < loc + bin_mid {
            t.len() as int
        } else {
            loc + bin_mid
        }) + p.len();
        if start > finish {
            outer_loop(t, p, loc, d, e + 1, th, sc, bin_mid, last, mask)
        } else {
            let bit0 = seed_bit_arr(t.len() + p.len() + 2 as int, finish, e);
            let s = scan_loop(t, p, loc, d, e, last, bit0, mask, th, sc, finish, start);
            if !spec_score(p.len() as int, e + 1, loc, loc, d).spec_le(s.2) {
                (s.3, s.1)
            } else {
                outer_loop(t, p, loc, d, e + 1, s.2, s.3, bin_mid, s.0, s.1)
            }
        }
    }
}

/// The whole matcher on one target: normalize the target, short-circuit an
/// exact equality, seed from literal occurrences, run the bounded-error
/// passes, and extract the ranges of the final mask. The score is a full
/// mismatch (`1`) unless seeding or a pass tightened it to at most the
/// threshold.
pub open spec fn spec_search_util(
    p: Seq<u8>,
    t_raw: Seq<u8>,
    loc: int,
    d: int,
    th0: Score,
    cs: bool,
) -> (Score, Seq<Range<usize>>) {
    let t = spec_normalize(t_raw, cs);
    if t == p {
        (Score { num: 0, den: 1 }, seq![Range { start: 0usize, end: t.len() as usize }])
    } else {
        let seeded = seed_loop(t, p, loc, d, th0, zero_seq_u8(t.len() as int), 0);
        let width = t.len() + p.len() + 2;
        let out = outer_loop(
            t,
            p,
            loc,
            d,
            0,
            seeded.0,
            Score { num: 1, den: 1 },
            p.len() + t.len() as int,
            zero_seq_u64(width as int),
            seeded.1,
        );
        (out.0, spec_find_ranges(out.1))
    }
}

/// Slice equality on bytes.
pub(crate) fn bytes_eq(a: &[u8], b: &[u8]) -> (r: bool)
    ensures
        r <==> a@ == b@,
{
    let n = a.len();
    if n != b.len() {
        return false;
    }
    let mut i: usize = 0;
    while i < n
        invariant
            n == a@.len() == b@.len(),
            0 <= i <= n,
            forall|k: int| 0 <= k < i ==> a@[k] == b@[k],
        decreases n - i,
    {
        if a[i] != b[i] {
            return false;
        }
        i = i + 1;
    }
    proof {
        assert(a@ =~= b@);
    }
    true
}

/// Whether `needle` occurs in `hay` at position `i`.
fn match_at(hay: &[u8], needle: &[u8], i: usize) -> (r: bool)
    requires
        i + needle@.len() <= hay@.len(),
    ensures
        r <==> is_match_at(hay@, needle@, i as int),
{
    let n = needle.len();
    let hlen = hay.len();
    let mut j: usize = 0;
    while j < n
        invariant
            n == needle@.len(),
            hlen == hay@.len(),
            i + n <= hlen,
            0 <= j <= n,
            forall|k: int| 0 <= k < j ==> hay@[i + k] == needle@[k],
        decreases n - j,
    {
        if hay[i + j] != needle[j] {
            proof {
                assert(hay@.subrange(i as int, i + n) != needle@) by {
                    assert(hay@.subrange(i as int, i + n)[j as int] == hay@[i + j]);
                }
            }
            return false;
        }
        j = j + 1;
    }
    proof {
        assert(hay@.subrange(i as int, i + n) =~= needle@);
    }
    true
}

/// The first occurrence of `needle` in `hay` at or after `from`.
pub(crate) fn find_substr(hay: &[u8], needle: &[u8], from: usize) -> (r: Option<usize>)
    requires
        needle@.len() >= 1,
        from <= hay@.len(),
        hay@.len() <= MAX_TEXT_LEN,
    ensures
        r is Some <==> first_match(hay@, needle@, from as int) is Some,
        r matches Some(i) ==> first_match(hay@, needle@, from as int) == Some(i as int),
{
    let hlen = hay.len();
    let nlen = needle.len();
    if nlen > hlen {
        return None;
    }
    let mut i: usize = from;
    while i <= hlen - nlen
        invariant
            hlen == hay@.len(),
            nlen == needle@.len(),
            1 <= nlen <= hlen <= MAX_TEXT_LEN,
            from <= i,
            i <= hlen,
            first_match(hay@, needle@, from as int) == first_match(hay@, needle@, i as int),
        decreases hlen - i,
    {
        if match_at(hay, needle, i) {
            return Some(i);
        }
        i = i + 1;
    }
    None
}

/// Fills a byte vector with `n` zeros.
pub(crate) fn zero_vec_u8(n: usize) -> (r: Vec<u8>)
    ensures
        r@ == zero_seq_u8(n as int),
{
    let mut out: Vec<u8> = Vec::new();
    let mut i: usize = 0;
    while i < n
        invariant
            0 <= i <= n,
            out@ == zero_seq_u8(n as int).take(i as int),
        decreases n - i,
    {
        out.push(0);
        proof {
            assert(out@ =~= zero_seq_u8(n as int).take(i + 1));
        }
        i = i + 1;
    }
    proof {
        assert(out@ =~= zero_seq_u8(n as int));
    }
    out
}

/// Fills a word vector with `n` zeros.
fn zero_vec_u64(n: usize) -> (r: Vec<u64>)
    ensures
        r@ == zero_seq_u64(n as int),
{
    let mut out: Vec<u64> = Vec::new();
    let mut i: usize = 0;
    while i < n
        invariant
            0 <= i <= n,
            out@ == zero_seq_u64(n as int).take(i as int),
        decreases n - i,
    {
        out.push(0);
        proof {
            assert(out@ =~= zero_seq_u64(n as int).take(i + 1));
        }
        i = i + 1;
    }
    proof {
        assert(out@ =~= zero_seq_u64(n as int));
    }
    out
}

impl Fuse {
    /// Matches a compiled pattern against one target string, returning the
    /// score and the matched byte ranges. The result equals the matcher's
    /// specification mirror on the same inputs.
    #[verifier::loop_isolation(false)]
    pub(crate) fn search_util(&self, pattern: &Pattern, string: &str) -> (r: ScoreResult)
        requires
            self.wf(),
            pattern.wf(),
            1 <= string.spec_bytes().len() <= MAX_TEXT_LEN,
        ensures
            ({
                let s = spec_search_util(
                    pattern.spec_text(),
                    string.spec_bytes(),
                    self.location as int,
                    self.distance as int,
                    self.threshold,
                    self.is_case_sensitive,
                );
                r.score == s.0 && r.ranges@ == s.1 && r.score.wf()
            }),
    {
        let ghost traw = string.spec_bytes();
        let ghost ptxt = pattern.spec_text();
        let ghost gloc = self.location as int;
        let ghost gd = self.distance as int;
        let t: Vec<u8> = crate::normalize_bytes(string.as_bytes(), self.is_case_sensitive);
        let tl = t.len();
        let plen = pattern.len;
        if bytes_eq(t.as_slice(), pattern.text.as_slice()) {
            let r = ScoreResult {
                score: Score { num: 0, den: 1 },
                ranges: vec![Range { start: 0usize, end: tl }],
            };
            proof {
                assert(r.ranges@ =~= seq![Range { start: 0usize, end: tl }]);
            }
            return r;
        }
        let location = self.location;
        let distance = self.distance;
        let mut threshold = self.threshold;
        let mut mask: Vec<u8> = zero_vec_u8(tl);

        // Seeding from literal occurrences.
        let ghost seed_target = seed_loop(t@, ptxt, gloc, gd, threshold, mask@, 0);
        let mut pos: usize = 0;
        let mut searching = true;
        while searching
            invariant
                mask@.len() == tl,
                threshold.wf(),
                pos <= tl,
                searching ==> seed_loop(t@, ptxt, gloc, gd, threshold, mask@, pos as int)
                    == seed_target,
                !searching ==> (threshold, mask@) == seed_target,
            decreases (if searching {
                1int
            } else {
                0int
            }), tl - pos,
        {
            let ghost th_b = threshold;
            let ghost mask_b = mask@;
            let ghost pos_b = pos as int;
            let found = find_substr(t.as_slice(), pattern.text.as_slice(), pos);
            match found {
                Some(i) => {
                    proof {
                        lemma_first_match_some(t@, ptxt, pos as int, i as int);
                    }
                    let sc = calculate_score(plen, 0, i as i32, location, distance);
                    let new_threshold = threshold.min_with(&sc);
                    let mut idx: usize = 0;
                    while idx < plen
                        invariant
                            0 <= idx <= plen,
                            i + plen <= tl,
                            mask@.len() == tl,
                            forall|k: int|
                                0 <= k < tl ==> mask@[k] == (if i <= k < i + idx {
                                    1u8
                                } else {
                                    mask_b[k]
                                }),
                        decreases plen - idx,
                    {
                        mask[i + idx] = 1;
                        idx = idx + 1;
                    }
                    proof {
                        assert(mask@ =~= mark_run(mask_b, i as int, ptxt.len() as int));
                    }
                    threshold = new_threshold;
                    pos = i + plen;
                    proof {
                        assert(seed_loop(t@, ptxt, gloc, gd, th_b, mask_b, pos_b) == seed_loop(
                            t@,
                            ptxt,
                            gloc,
                            gd,
                            threshold,
                            mask@,
                            pos as int,
                        ));
                    }
                },
                None => {
                    searching = false;
                    proof {
                        assert(seed_loop(t@, ptxt, gloc, gd, th_b, mask_b, pos_b) == (
                        threshold,
                        mask@,
                        ));
                    }
                },
            }
        }

        // Bounded-error bit-parallel passes.
        let mut score = Score { num: 1, den: 1 };
        let mut bin_max: usize = plen + tl;
        let width = tl + plen + 2;
        let mut last: Vec<u64> = zero_vec_u64(width);
        let ghost outer_target = outer_loop(
            t@,
            ptxt,
            gloc,
            gd,
            0,
            threshold,
            score,
            bin_max as int,
            last@,
            mask@,
        );
        let mut i: usize = 0;
        let mut done = false;
        while i < plen && !done
            invariant
                mask@.len() == tl,
                last@.len() == width,
                threshold.wf(),
                score.wf(),
                i <= plen,
                bin_max <= plen + tl,
                !done ==> outer_loop(
                    t@,
                    ptxt,
                    gloc,
                    gd,
                    i as int,
                    threshold,
                    score,
                    bin_max as int,
                    last@,
                    mask@,
                ) == outer_target,
                done ==> (score, mask@) == outer_target,
            decreases plen - i, (if done {
                0int
            } else {
                1int
            }),
        {
            let ghost th_in = threshold;
            let ghost sc_in = score;
            let ghost mask_in = mask@;
            let ghost last_in = last@;
            let ghost binmax_in = bin_max as int;
            let ghost bs_target = spec_bin_search(
                plen as int,
                i as int,
                gloc,
                gd,
                threshold,
                0,
                bin_max as int,
                bin_max as int,
            );
            let mut bin_min: usize = 0;
            let mut bin_mid: usize = bin_max;
            let mut cur_max: usize = bin_max;
            while bin_min < bin_mid
                invariant
                    bin_min <= cur_max,
                    bin_mid <= cur_max,
                    cur_max <= plen + tl,
                    spec_bin_search(
                        plen as int,
                        i as int,
                        gloc,
                        gd,
                        threshold,
                        bin_min as int,
                        bin_mid as int,
                        cur_max as int,
                    ) == bs_target,
                decreases cur_max - bin_min, bin_mid - bin_min,
            {
                let sc = calculate_score(
                    plen,
                    i as i32,
                    location,
                    location + (bin_mid as i32),
                    distance,
                );
                if sc.le(&threshold) {
                    bin_min = bin_mid;
                } else {
                    cur_max = bin_mid;
                }
                bin_mid = (cur_max - bin_min) / 2 + bin_min;
            }
            proof {
                assert(spec_bin_search(
                    plen as int,
                    i as int,
                    gloc,
                    gd,
                    threshold,
                    bin_min as int,
                    bin_mid as int,
                    cur_max as int,
                ) == bin_mid as int);
            }
            bin_max = bin_mid;

            let s64: i64 = location as i64 - bin_mid as i64 + 1;
            let start: usize = if s64 < 1 {
                1
            } else {
                s64 as usize
            };
            let loc_u = location as usize;
            let finish: usize = (if tl < loc_u + bin_mid {
                tl
            } else {
                loc_u + bin_mid
            }) + plen;
            proof {
                assert(start as int == (if gloc - bin_mid + 1 > 1 {
                    gloc - bin_mid as int + 1
                } else {
                    1int
                }));
                assert(finish as int == (if t@.len() < gloc + bin_mid {
                    t@.len() as int
                } else {
                    gloc + bin_mid as int
                }) + plen);
            }

            if start > finish {
                i = i + 1;
                continue ;
            }
            let mut bit: Vec<u64> = zero_vec_u64(width);
            proof {
                assert(1u64 << (i as u64) >= 1) by (bit_vector)
                    requires
                        (i as u64) < 64,
                ;
            }
            let seed_bits: u64 = (1u64 << (i as u64)) - 1;
            bit[finish + 1] = seed_bits;
            proof {
                assert(bit@ =~= seed_bit_arr(width as int, finish as int, i as int));
            }
            let ghost scan_target = scan_loop(
                t@,
                ptxt,
                gloc,
                gd,
                i as int,
                last@,
                bit@,
                mask@,
                threshold,
                score,
                finish as int,
                start as int,
            );
            let mut j: usize = finish;
            let mut stop = false;
            while j >= start && !stop
                invariant
                    1 <= start,
                    j <= finish,
                    bit@.len() == width,
                    mask@.len() == tl,
                    threshold.wf(),
                    score.wf(),
                    !stop ==> scan_loop(
                        t@,
                        ptxt,
                        gloc,
                        gd,
                        i as int,
                        last@,
                        bit@,
                        mask@,
                        threshold,
                        score,
                        j as int,
                        start as int,
                    ) == scan_target,
                    stop ==> (bit@, mask@, threshold, score) == scan_target,
                decreases j, (if stop {
                    0int
                } else {
                    1int
                }),
            {
                let ghost bit_b = bit@;
                let ghost mask_b = mask@;
                let ghost th_b = threshold;
                let ghost sc_b = score;
                let ghost jj = j as int;
                let curloc = j - 1;
                let mut cm: u64 = 0;
                if curloc < tl {
                    let b = t[curloc];
                    cm = match pattern.alphabet.get(&b) {
                        Some(v) => *v,
                        None => 0,
                    };
                    proof {
                        assert(cm == spec_alphabet(ptxt, t@[curloc as int]));
                    }
                    if cm != 0 {
                        mask[curloc] = 1;
                    }
                }
                let vj1 = bit[j + 1];
                let mut v: u64 = ((vj1 << 1u64) | 1u64) & cm;
                if i > 0 {
                    let l1 = last[j + 1];
                    let l0 = last[j];
                    v = v | ((((l1 | l0) << 1u64) | 1u64) | l1);
                }
                bit[j] = v;
                proof {
                    assert(v == ({
                        let v0 = ((at64(bit_b, jj + 1) << 1u64) | 1u64) & cm;
                        if i as int > 0 {
                            v0 | ((((at64(last@, jj + 1) | at64(last@, jj)) << 1u64) | 1u64) | at64(
                                last@,
                                jj + 1,
                            ))
                        } else {
                            v0
                        }
                    }));
                }
                if v & pattern.mask != 0 {
                    let cand = calculate_score(plen, i as i32, location, curloc as i32, distance);
                    if cand.le(&threshold) {
                        score = cand;
                        threshold = cand;
                        if curloc <= loc_u {
                            stop = true;
                        }
                    }
                }
                proof {
                    if stop {
                        assert((bit@, mask@, threshold, score) == scan_loop(
                            t@,
                            ptxt,
                            gloc,
                            gd,
                            i as int,
                            last@,
                            bit_b,
                            mask_b,
                            th_b,
                            sc_b,
                            jj,
                            start as int,
                        ));
                    } else {
                        assert(scan_loop(
                            t@,
                            ptxt,
                            gloc,
                            gd,
                            i as int,
                            last@,
                            bit@,
                            mask@,
                            threshold,
                            score,
                            jj - 1,
                            start as int,
                        ) == scan_loop(
                            t@,
                            ptxt,
                            gloc,
                            gd,
                            i as int,
                            last@,
                            bit_b,
                            mask_b,
                            th_b,
                            sc_b,
                            jj,
                            start as int,
                        ));
                    }
                }
                if !stop {
                    j = j - 1;
                }
            }
            proof {
                assert((bit@, mask@, threshold, score) == scan_target);
            }

            let chk = calculate_score(plen, (i + 1) as i32, location, location, distance);
            proof {
                assert(outer_loop(t@, ptxt, gloc, gd, i as int, th_in, sc_in, binmax_in, last_in,
                    mask_in,
                ) == ({
                    let s = (bit@, mask@, threshold, score);
                    if !spec_score(plen as int, i as int + 1, gloc, gloc, gd).spec_le(s.2) {
                        (s.3, s.1)
                    } else {
                        outer_loop(
                            t@,
                            ptxt,
                            gloc,
                            gd,
                            i as int + 1,
                            s.2,
                            s.3,
                            bin_mid as int,
                            s.0,
                            s.1,
                        )
                    }
                }));
            }
            if !chk.le(&threshold) {
                done = true;
            } else {
                last = bit;
            }
            i = i + 1;
        }
        proof {
            assert((score, mask@) == outer_target);
        }

        let ranges = match find_ranges(mask.as_slice()) {
            Ok(v) => v,
            Err(_) => {
                proof {
                    assert(false);
                }
                Vec::new()
            },
        };
        ScoreResult { score, ranges }
    }
}

} // verus!
