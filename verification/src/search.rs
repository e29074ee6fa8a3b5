//! The search orchestrator: whole-pattern and tokenized matching with the
//! near-mismatch cutoff, and ranked searches over string collections and
//! weighted-field records.

use std::ops::Range;
use vstd::prelude::*;
use vstd::string::StringSliceAdditionalSpecFns;

use crate::bitap::spec_search_util;
use crate::score::lemma_score_le_trans;
use crate::score::spec_add;
use crate::score::spec_div_count;
use crate::score::spec_mul;
use crate::score::Score;
use crate::utils::MAX_PATTERN_LEN;
use crate::utils::MAX_TEXT_LEN;
use crate::pattern_from_text;
use crate::spec_normalize;
use crate::FResult;
use crate::Fuse;
use crate::Fuseable;
use crate::FuseableSearchResult;
use crate::Pattern;
use crate::ScoreResult;
use crate::SearchResult;

verus! {

/// The score lies within the no-match tolerance `1 / 100000` of 1.
pub open spec fn spec_near_one(s: Score) -> bool {
    100000 * (if s.num >= s.den {
        s.num - s.den
    } else {
        s.den - s.num
    }) < s.den
}

/// Whether the score is within the no-match tolerance of 1.
pub(crate) fn near_one(s: &Score) -> (r: bool)
    requires
        s.wf(),
    ensures
        r == spec_near_one(*s),
{
    let diff: u64 = if s.num >= s.den {
        s.num - s.den
    } else {
        s.den - s.num
    };
    proof {
        crate::score::lemma_u64_mul_fits_u128(100000u64, diff);
    }
    (100000 as u128) * (diff as u128) < s.den as u128
}

/// One of the six ASCII whitespace bytes (space, tab, line feed, vertical
/// tab, form feed, carriage return): the single-byte token separators.
pub open spec fn is_ws(b: u8) -> bool {
    b == 32 || b == 9 || b == 10 || b == 11 || b == 12 || b == 13
}

/// The three-byte UTF-8 whitespace characters: U+1680, U+2000 through
/// U+200A, U+2028, U+2029, U+202F, U+205F and U+3000.
pub open spec fn is_ws3(a: u8, b: u8, c: u8) -> bool {
    ||| (a == 0xE1 && b == 0x9A && c == 0x80)
    ||| (a == 0xE2 && b == 0x80 && (0x80 <= c <= 0x8A || c == 0xA8 || c == 0xA9 || c == 0xAF))
    ||| (a == 0xE2 && b == 0x81 && c == 0x9F)
    ||| (a == 0xE3 && b == 0x80 && c == 0x80)
}

/// The byte length of the whitespace character starting at position `i`
/// of `s`, or 0 when none starts there: the UTF-8 encodings of the
/// Unicode whitespace code points — the six ASCII bytes, the two-byte
/// U+0085 and U+00A0, and the three-byte sequences of `is_ws3`. In valid
/// UTF-8 a separator can only begin at a character boundary, since its
/// lead byte is never a continuation byte.
pub open spec fn ws_len_at(s: Seq<u8>, i: int) -> int {
    if 0 <= i < s.len() && is_ws(s[i]) {
        1
    } else if 0 <= i && i + 2 <= s.len() && s[i] == 0xC2 && (s[i + 1] == 0x85 || s[i + 1]
        == 0xA0) {
        2
    } else if 0 <= i && i + 3 <= s.len() && is_ws3(s[i], s[i + 1], s[i + 2]) {
        3
    } else {
        0
    }
}

/// The byte length of the whitespace character starting at `s[i]`, or 0.
fn ws_len(s: &[u8], i: usize) -> (r: usize)
    requires
        i < s@.len(),
    ensures
        r as int == ws_len_at(s@, i as int),
{
    let n = s.len();
    let b0 = s[i];
    if b0 == 32 || b0 == 9 || b0 == 10 || b0 == 11 || b0 == 12 || b0 == 13 {
        return 1;
    }
    if b0 == 0xC2 && n - i >= 2 {
        let b1 = s[i + 1];
        if b1 == 0x85 || b1 == 0xA0 {
            return 2;
        }
    }
    if n - i >= 3 {
        let b1 = s[i + 1];
        let b2 = s[i + 2];
        if (b0 == 0xE1 && b1 == 0x9A && b2 == 0x80) || (b0 == 0xE2 && b1 == 0x80 && (b2 >= 0x80
            && b2 <= 0x8A || b2 == 0xA8 || b2 == 0xA9 || b2 == 0xAF)) || (b0 == 0xE2 && b1 == 0x81
            && b2 == 0x9F) || (b0 == 0xE3 && b1 == 0x80 && b2 == 0x80) {
            return 3;
        }
    }
    0
}

/// The whitespace-splitting scan after reading `i` bytes: `cur` is the
/// start of the word being read (`-1` between words) and `acc` the words
/// already taken. A whitespace character of `ws_len_at` closes the open
/// word and is skipped whole.
pub open spec fn words_loop(s: Seq<u8>, i: int, cur: int, acc: Seq<Seq<u8>>) -> Seq<Seq<u8>>
    decreases s.len() - i,
{
    if i < 0 || i > s.len() {
        acc
    } else if i == s.len() {
        if cur >= 0 {
            acc.push(s.subrange(cur, i))
        } else {
            acc
        }
    } else {
        let w = ws_len_at(s, i);
        if w > 0 {
            if cur >= 0 {
                words_loop(s, i + w, -1, acc.push(s.subrange(cur, i)))
            } else {
                words_loop(s, i + w, -1, acc)
            }
        } else {
            if cur >= 0 {
                words_loop(s, i + 1, cur, acc)
            } else {
                words_loop(s, i + 1, i, acc)
            }
        }
    }
}

/// The words of `s`, in order, separated at the Unicode whitespace
/// characters of `ws_len_at`.
pub open spec fn spec_words(s: Seq<u8>) -> Seq<Seq<u8>> {
    words_loop(s, 0, -1, Seq::empty())
}

/// Copies `s[a .. b]` into an owned vector.
pub(crate) fn copy_range(s: &[u8], a: usize, b: usize) -> (r: Vec<u8>)
    requires
        a <= b <= s@.len(),
    ensures
        r@ == s@.subrange(a as int, b as int),
{
    let mut out: Vec<u8> = Vec::new();
    let mut i: usize = a;
    while i < b
        invariant
            a <= i <= b <= s@.len(),
            out@ == s@.subrange(a as int, i as int),
        decreases b - i,
    {
        out.push(s[i]);
        proof {
            assert(out@ =~= s@.subrange(a as int, i + 1));
        }
        i = i + 1;
    }
    proof {
        assert(out@ =~= s@.subrange(a as int, b as int));
    }
    out
}

/// Splits `s` at Unicode whitespace into its words: nonempty, in order,
/// matching `spec_words`.
pub(crate) fn split_words(s: &[u8]) -> (r: Vec<Vec<u8>>)
    ensures
        r@.len() == spec_words(s@).len(),
        forall|k: int| 0 <= k < r@.len() ==> (#[trigger] r@[k])@ == spec_words(s@)[k],
        forall|k: int| 0 <= k < r@.len() ==> 1 <= (#[trigger] r@[k])@.len() <= s@.len(),
        r@.len() <= s@.len(),
{
    let n = s.len();
    let mut out: Vec<Vec<u8>> = Vec::new();
    let ghost mut gacc: Seq<Seq<u8>> = Seq::empty();
    let mut cur_set = false;
    let mut cur: usize = 0;
    let mut i: usize = 0;
    while i < n
        invariant
            n == s@.len(),
            0 <= i <= n,
            out@.len() == gacc.len(),
            forall|k: int| 0 <= k < gacc.len() ==> (#[trigger] out@[k])@ == gacc[k],
            forall|k: int| 0 <= k < gacc.len() ==> 1 <= (#[trigger] gacc[k]).len() <= n,
            cur_set ==> cur < i && gacc.len() <= cur,
            !cur_set ==> gacc.len() <= i,
            words_loop(s@, i as int, (if cur_set {
                cur as int
            } else {
                -1
            }), gacc) == spec_words(s@),
        decreases n - i,
    {
        let w = ws_len(s, i);
        if w > 0 {
            if cur_set {
                let wd = copy_range(s, cur, i);
                out.push(wd);
                proof {
                    gacc = gacc.push(s@.subrange(cur as int, i as int));
                }
                cur_set = false;
            }
            i = i + w;
        } else {
            if !cur_set {
                cur_set = true;
                cur = i;
            }
            i = i + 1;
        }
    }
    if cur_set {
        let w = copy_range(s, cur, n);
        out.push(w);
        proof {
            gacc = gacc.push(s@.subrange(cur as int, n as int));
        }
    }
    out
}

/// One tokenized-search accumulation step for each word from `k` on: the
/// word's match against the target is added to the running score and its
/// ranges appended.
pub open spec fn tok_loop(
    words: Seq<Seq<u8>>,
    k: int,
    t_raw: Seq<u8>,
    loc: int,
    d: int,
    th0: Score,
    cs: bool,
    acc: Score,
    rgs: Seq<Range<usize>>,
) -> (Score, Seq<Range<usize>>)
    decreases words.len() - k,
{
    if k < 0 || k >= words.len() {
        (acc, rgs)
    } else {
        let rw = spec_search_util(words[k], t_raw, loc, d, th0, cs);
        tok_loop(words, k + 1, t_raw, loc, d, th0, cs, spec_add(acc, rw.0), rgs + rw.1)
    }
}

/// The orchestrated search: on the whole pattern alone, or additionally
/// on each whitespace word of the pattern with the scores averaged over
/// `words + 1` runs; a score within the no-match tolerance of 1 yields
/// nothing.
pub open spec fn spec_search(
    p: Seq<u8>,
    t_raw: Seq<u8>,
    loc: int,
    d: int,
    th0: Score,
    cs: bool,
    tok: bool,
) -> Option<(Score, Seq<Range<usize>>)> {
    if !tok {
        let s = spec_search_util(p, t_raw, loc, d, th0, cs);
        if spec_near_one(s.0) {
            None
        } else {
            Some(s)
        }
    } else {
        let full = spec_search_util(p, t_raw, loc, d, th0, cs);
        let words = spec_words(p);
        let folded = tok_loop(words, 0, t_raw, loc, d, th0, cs, full.0, full.1);
        let avg = spec_div_count(folded.0, words.len() + 1 as int);
        if spec_near_one(avg) {
            None
        } else {
            Some((avg, folded.1))
        }
    }
}

impl Fuse {
    /// Matches a compiled pattern against a target string. Yields the
    /// score and matched ranges, or nothing when no pattern was given or
    /// the score is within the no-match tolerance of 1 — exactly as the
    /// specification mirror `spec_search` has it.
    #[verifier::loop_isolation(false)]
    pub fn search(&self, pattern: Option<&Pattern>, string: &str) -> (r: Option<ScoreResult>)
        requires
            self.wf(),
            pattern matches Some(p) ==> p.wf() && 1 <= string.spec_bytes().len() <= MAX_TEXT_LEN,
        ensures
            pattern is None ==> r is None,
            pattern matches Some(p) ==> ({
                let s = spec_search(
                    p.spec_text(),
                    string.spec_bytes(),
                    self.location as int,
                    self.distance as int,
                    self.threshold,
                    self.is_case_sensitive,
                    self.tokenize,
                );
                &&& (r is Some <==> s is Some)
                &&& (r matches Some(sr) ==> (s matches Some(v) && sr.score == v.0 && sr.ranges@
                    == v.1 && sr.score.wf()))
            }),
    {
        let pattern = match pattern {
            Some(p) => p,
            None => {
                return None;
            },
        };
        let ghost traw = string.spec_bytes();
        let ghost ptxt = pattern.spec_text();
        let ghost gloc = self.location as int;
        let ghost gd = self.distance as int;
        if self.tokenize {
            let full = self.search_util(pattern, string);
            let words = split_words(pattern.text.as_slice());
            let ghost gwords = spec_words(ptxt);
            let mut total = full.score;
            let mut ranges = full.ranges;
            let ghost tok_target = tok_loop(
                gwords,
                0,
                traw,
                gloc,
                gd,
                self.threshold,
                self.is_case_sensitive,
                total,
                ranges@,
            );
            let n = words.len();
            let mut k: usize = 0;
            while k < n
                invariant
                    0 <= k <= n,
                    total.wf(),
                    tok_loop(
                        gwords,
                        k as int,
                        traw,
                        gloc,
                        gd,
                        self.threshold,
                        self.is_case_sensitive,
                        total,
                        ranges@,
                    ) == tok_target,
                decreases n - k,
            {
                let wref = &words[k];
                let wlen = wref.len();
                let wcopy = copy_range(wref.as_slice(), 0, wlen);
                proof {
                    assert(wcopy@ =~= gwords[k as int]);
                }
                let wp = pattern_from_text(wcopy);
                let mut res = self.search_util(&wp, string);
                total = total.add_score(&res.score);
                ranges.append(&mut res.ranges);
                k = k + 1;
            }
            let avg = total.div_count(n + 1);
            if near_one(&avg) {
                None
            } else {
                Some(ScoreResult { score: avg, ranges })
            }
        } else {
            let result = self.search_util(pattern, string);
            if near_one(&result.score) {
                None
            } else {
                Some(result)
            }
        }
    }

    /// Compiles `text` into a pattern and matches it against `string`.
    pub fn search_text_in_string(&self, text: &str, string: &str) -> (r: Option<ScoreResult>)
        requires
            self.wf(),
            text.spec_bytes().len() <= MAX_PATTERN_LEN,
            text.spec_bytes().len() > 0 ==> 1 <= string.spec_bytes().len() <= MAX_TEXT_LEN,
        ensures
            text.spec_bytes().len() == 0 ==> r is None,
            text.spec_bytes().len() > 0 ==> ({
                let s = spec_search(
                    spec_normalize(text.spec_bytes(), self.is_case_sensitive),
                    string.spec_bytes(),
                    self.location as int,
                    self.distance as int,
                    self.threshold,
                    self.is_case_sensitive,
                    self.tokenize,
                );
                &&& (r is Some <==> s is Some)
                &&& (r matches Some(sr) ==> (s matches Some(v) && sr.score == v.0 && sr.ranges@
                    == v.1 && sr.score.wf()))
            }),
    {
        let pattern = self.create_pattern(text);
        match &pattern {
            Some(p) => self.search(Some(p), string),
            None => self.search(None, string),
        }
    }
}

/// `e` truthfully reports a match of the query `q` against target `t`:
/// the orchestrated search on `t` succeeds with exactly this score and
/// these ranges.
pub open spec fn entry_matches(
    e: SearchResult,
    q: Seq<u8>,
    t: &str,
    loc: int,
    d: int,
    th0: Score,
    cs: bool,
    tok: bool,
) -> bool {
    &&& q.len() > 0
    &&& ({
        let s = spec_search(q, t.spec_bytes(), loc, d, th0, cs, tok);
        &&& s matches Some(v) && e.score == v.0 && e.ranges@ == v.1
    })
}

/// How many of the first `upto` targets the query matches.
pub open spec fn match_count(
    q: Seq<u8>,
    list: Seq<&str>,
    loc: int,
    d: int,
    th0: Score,
    cs: bool,
    tok: bool,
    upto: int,
) -> int
    decreases upto,
{
    if upto <= 0 || upto > list.len() {
        0
    } else {
        match_count(q, list, loc, d, th0, cs, tok, upto - 1) + (if q.len() > 0 && spec_search(
            q,
            list[upto - 1].spec_bytes(),
            loc,
            d,
            th0,
            cs,
            tok,
        ) is Some {
            1int
        } else {
            0int
        })
    }
}

impl Fuse {
    /// Searches every string of `list` for `text` and ranks the matches by
    /// ascending score. Each returned entry reports a true match of its
    /// item, every matching item is reported exactly once, and the order
    /// is ascending by score.
    #[verifier::loop_isolation(false)]
    pub fn search_text_in_iterable(&self, text: &str, list: &[&str]) -> (r: Vec<SearchResult>)
        requires
            self.wf(),
            text.spec_bytes().len() <= MAX_PATTERN_LEN,
            text.spec_bytes().len() > 0 ==> forall|k: int|
                0 <= k < list@.len() ==> 1 <= (#[trigger] list@[k]).spec_bytes().len()
                    <= MAX_TEXT_LEN,
        ensures
            ({
                let q = spec_normalize(text.spec_bytes(), self.is_case_sensitive);
                let loc = self.location as int;
                let d = self.distance as int;
                &&& forall|a: int, b: int|
                    0 <= a < b < r@.len() ==> (#[trigger] r@[a]).score.spec_le(
                        (#[trigger] r@[b]).score,
                    )
                &&& forall|k: int|
                    0 <= k < r@.len() ==> (#[trigger] r@[k]).index < list@.len() && r@[k].score.wf()
                        && entry_matches(
                        r@[k],
                        q,
                        list@[r@[k].index as int],
                        loc,
                        d,
                        self.threshold,
                        self.is_case_sensitive,
                        self.tokenize,
                    )
                &&& forall|a: int, b: int|
                    0 <= a < b < r@.len() ==> (#[trigger] r@[a]).index != (#[trigger] r@[b]).index
                &&& r@.len() == match_count(
                    q,
                    list@,
                    loc,
                    d,
                    self.threshold,
                    self.is_case_sensitive,
                    self.tokenize,
                    list@.len() as int,
                )
            }),
    {
        let ghost q = spec_normalize(text.spec_bytes(), self.is_case_sensitive);
        let ghost loc = self.location as int;
        let ghost d = self.distance as int;
        let pattern = self.create_pattern(text);
        let mut items: Vec<SearchResult> = Vec::new();
        let n = list.len();
        let mut index: usize = 0;
        while index < n
            invariant
                0 <= index <= n,
                pattern matches Some(p) ==> p.wf() && p.spec_text() == q,
                pattern is Some <==> q.len() > 0,
                forall|a: int, b: int|
                    0 <= a < b < items@.len() ==> (#[trigger] items@[a]).score.spec_le(
                        (#[trigger] items@[b]).score,
                    ),
                forall|k: int|
                    0 <= k < items@.len() ==> (#[trigger] items@[k]).index < index
                        && items@[k].score.wf() && entry_matches(
                        items@[k],
                        q,
                        list@[items@[k].index as int],
                        loc,
                        d,
                        self.threshold,
                        self.is_case_sensitive,
                        self.tokenize,
                    ),
                forall|a: int, b: int|
                    0 <= a < b < items@.len() ==> (#[trigger] items@[a]).index != (
                    #[trigger] items@[b]).index,
                items@.len() == match_count(
                    q,
                    list@,
                    loc,
                    d,
                    self.threshold,
                    self.is_case_sensitive,
                    self.tokenize,
                    index as int,
                ),
            decreases n - index,
        {
            let item: &str = list[index];
            let pref: Option<&Pattern> = match &pattern {
                Some(p) => Some(p),
                None => None,
            };
            let res = self.search(pref, item);
            match res {
                Some(sr) => {
                    let x = SearchResult { index, score: sr.score, ranges: sr.ranges };
                    insert_by_score(&mut items, x);
                },
                None => {},
            }
            index = index + 1;
        }
        items
    }
}

/// Inserts `x` into the score-sorted `items` after every entry whose score
/// does not exceed `x`'s, keeping the order sorted and stable.
#[verifier::loop_isolation(false)]
fn insert_by_score(items: &mut Vec<SearchResult>, x: SearchResult)
    requires
        x.score.wf(),
        forall|k: int| 0 <= k < old(items)@.len() ==> (#[trigger] old(items)@[k]).score.wf(),
        forall|a: int, b: int|
            0 <= a < b < old(items)@.len() ==> (#[trigger] old(items)@[a]).score.spec_le(
                (#[trigger] old(items)@[b]).score,
            ),
    ensures
        final(items)@.len() == old(items)@.len() + 1,
        exists|pos: int|
            0 <= pos <= old(items)@.len() && final(items)@ == #[trigger] old(items)@.insert(pos, x),
        forall|a: int, b: int|
            0 <= a < b < final(items)@.len() ==> (#[trigger] final(items)@[a]).score.spec_le(
                (#[trigger] final(items)@[b]).score,
            ),
{
    let mut pos: usize = items.len();
    while pos > 0 && x.score.lt(&items[pos - 1].score)
        invariant
            0 <= pos <= items@.len(),
            forall|m: int| pos <= m < items@.len() ==> x.score.spec_lt((#[trigger] items@[m]).score),
        decreases pos,
    {
        pos = pos - 1;
    }
    let ghost before = items@;
    let ghost gpos = pos as int;
    items.insert(pos, x);
    proof {
        assert(items@ == before.insert(gpos, x));
        assert forall|k: int| 0 <= k < items@.len() implies #[trigger] items@[k] == (if k < gpos {
            before[k]
        } else if k == gpos {
            x
        } else {
            before[k - 1]
        }) by {
            assert(items@ == before.subrange(0, gpos).push(x) + before.subrange(
                gpos,
                before.len() as int,
            ));
        }
        assert forall|a: int, b: int| 0 <= a < b < items@.len() implies (
        #[trigger] items@[a]).score.spec_le((#[trigger] items@[b]).score) by {
            if a < gpos && b == gpos {
                assert(before[gpos - 1].score.spec_le(x.score));
                if a < gpos - 1 {
                    lemma_score_le_trans(before[a].score, before[gpos - 1].score, x.score);
                }
            } else if a == gpos && b > gpos {
                assert(x.score.spec_lt(before[b - 1].score));
            } else if a < gpos && b > gpos {
                assert(before[a].score.spec_le(x.score)) by {
                    assert(before[gpos - 1].score.spec_le(x.score));
                    if a < gpos - 1 {
                        lemma_score_le_trans(before[a].score, before[gpos - 1].score, x.score);
                    }
                }
                assert(x.score.spec_le(before[b - 1].score));
                lemma_score_le_trans(before[a].score, x.score, before[b - 1].score);
            }
        }
    }
}

/// The weight a field's score is multiplied with: `1` when the declared
/// weight is within the no-match tolerance of 1, else `1 - weight`
/// (a weight above 1 is clamped to an effective weight of 0).
pub open spec fn spec_effective_weight(w: Score) -> Score {
    if spec_near_one(w) {
        Score { num: 1, den: 1 }
    } else if w.num <= w.den {
        Score { num: (w.den - w.num) as u64, den: w.den }
    } else {
        Score { num: 0, den: w.den }
    }
}

/// A field's contribution to its record's score: the field's match score
/// times the effective weight, except that a perfect field match under an
/// effective weight of exactly 1 is reported as `1/1000` of that weight
/// rather than 0, to keep the sort order stable against true zeros.
pub open spec fn spec_weighted_score(ms: Score, w: Score) -> Score {
    let eff = spec_effective_weight(w);
    if ms.num == 0 && eff.num == eff.den {
        spec_mul(Score { num: 1, den: 1000 }, eff)
    } else {
        spec_mul(ms, eff)
    }
}

/// Applies the declared field weight to a field's match score, with the
/// perfect-match bump described at `spec_weighted_score`.
pub fn weighted_field_score(ms: Score, w: Score) -> (r: Score)
    requires
        ms.wf(),
        w.wf(),
    ensures
        r == spec_weighted_score(ms, w),
        r.wf(),
{
    let eff: Score = if near_one(&w) {
        Score { num: 1, den: 1 }
    } else if w.num <= w.den {
        Score { num: w.den - w.num, den: w.den }
    } else {
        Score { num: 0, den: w.den }
    };
    if ms.num == 0 && eff.num == eff.den {
        let bump = Score { num: 1, den: 1000 };
        bump.mul_score(&eff)
    } else {
        ms.mul_score(&eff)
    }
}

/// A declared field's lookup outcome that is a fatal configuration error:
/// the lookup found nothing, the value is empty or longer than
/// `MAX_TEXT_LEN`, or the declared weight has a zero denominator.
pub open spec fn spec_field_rejected(value: Option<&str>, weight: Score) -> bool {
    ||| value is None
    ||| (value matches Some(v) && (v.spec_bytes().len() == 0 || v.spec_bytes().len()
        > MAX_TEXT_LEN))
    ||| weight.den == 0
}

/// Validates one declared field of a record: accepts the looked-up value
/// exactly when the lookup succeeded, the value's byte length lies in
/// `1 ..= MAX_TEXT_LEN`, and the declared weight is well-formed.
pub fn validate_field<'a>(value: Option<&'a str>, weight: &Score) -> (r: Option<&'a str>)
    ensures
        r is Some <==> !spec_field_rejected(value, *weight),
        r matches Some(v) ==> value == Some(v) && 1 <= v.spec_bytes().len() <= MAX_TEXT_LEN
            && weight.wf(),
{
    match value {
        Some(v) => {
            let len = v.as_bytes().len();
            if len == 0 || len > MAX_TEXT_LEN || weight.den == 0 {
                None
            } else {
                Some(v)
            }
        },
        None => None,
    }
}

/// The running total of a record's field scores: accumulated in order with
/// the library's rounding addition, starting from zero.
pub open spec fn sum_field_scores(rs: Seq<FResult>) -> Score
    decreases rs.len(),
{
    if rs.len() == 0 {
        Score { num: 0, den: 1 }
    } else {
        spec_add(sum_field_scores(rs.drop_last()), rs.last().score)
    }
}

/// A record entry is internally consistent: it carries at least one field
/// result, and its score is the mean of its own field results' scores.
/// This holds of every entry `search_text_in_fuse_list` returns, whatever
/// the record's `Fuseable` implementation handed back.
pub open spec fn record_scored(e: FuseableSearchResult) -> bool {
    &&& e.results@.len() >= 1
    &&& e.score == spec_div_count(sum_field_scores(e.results@), e.results@.len() as int)
}

impl Fuse {
    /// Searches the declared fields of every record in `list` for `text`:
    /// each matching field contributes its weighted score, a record's
    /// score is the mean over its matching fields, records without any
    /// matching field are omitted, and the results are ranked by ascending
    /// score. A record whose declared field has no lookup value, an empty
    /// or oversized field value, or a malformed weight is a configuration
    /// error, returned as the offending field's name.
    #[verifier::loop_isolation(false)]
    pub fn search_text_in_fuse_list<T: Fuseable>(&self, text: &str, list: &[T]) -> (r: Result<
        Vec<FuseableSearchResult>,
        String,
    >)
        requires
            self.wf(),
            text.spec_bytes().len() <= MAX_PATTERN_LEN,
        ensures
            list@.len() == 0 ==> (r matches Ok(v) && v@.len() == 0),
            r matches Ok(v) ==> ({
                &&& forall|a: int, b: int|
                    0 <= a < b < v@.len() ==> (#[trigger] v@[a]).score.spec_le(
                        (#[trigger] v@[b]).score,
                    )
                &&& forall|k: int|
                    0 <= k < v@.len() ==> (#[trigger] v@[k]).index < list@.len()
                        && v@[k].score.wf()
                &&& forall|k: int| 0 <= k < v@.len() ==> record_scored(#[trigger] v@[k])
                &&& forall|a: int, b: int|
                    0 <= a < b < v@.len() ==> (#[trigger] v@[a]).index != (#[trigger] v@[b]).index
            }),
    {
        let pattern = self.create_pattern(text);
        let mut result: Vec<FuseableSearchResult> = Vec::new();
        let n = list.len();
        let mut index: usize = 0;
        while index < n
            invariant
                0 <= index <= n,
                pattern matches Some(p) ==> p.wf(),
                forall|a: int, b: int|
                    0 <= a < b < result@.len() ==> (#[trigger] result@[a]).score.spec_le(
                        (#[trigger] result@[b]).score,
                    ),
                forall|k: int|
                    0 <= k < result@.len() ==> (#[trigger] result@[k]).index < index
                        && result@[k].score.wf(),
                forall|a: int, b: int|
                    0 <= a < b < result@.len() ==> (#[trigger] result@[a]).index != (
                    #[trigger] result@[b]).index,
                forall|k: int| 0 <= k < result@.len() ==> record_scored(#[trigger] result@[k]),
                result@.len() <= index,
            decreases n - index,
        {
            let item = &list[index];
            let properties = item.properties();
            let mut scores_count: usize = 0;
            let mut total = Score { num: 0, den: 1 };
            let mut property_results: Vec<FResult> = Vec::new();
            let np = properties.len();
            let mut pi: usize = 0;
            while pi < np
                invariant
                    0 <= pi <= np,
                    np == properties@.len(),
                    pattern matches Some(p) ==> p.wf(),
                    total.wf(),
                    scores_count == property_results@.len(),
                    scores_count <= pi,
                    total == sum_field_scores(property_results@),
            decreases np - pi,
            {
                let property = &properties[pi];
                let looked_up = item.lookup(property.value.as_str());
                let value = match validate_field(looked_up, &property.weight) {
                    Some(v) => v,
                    None => {
                        return Err(property.value.clone());
                    },
                };
                let pref: Option<&Pattern> = match &pattern {
                    Some(p) => Some(p),
                    None => None,
                };
                match self.search(pref, value) {
                    Some(sr) => {
                        let ghost before = property_results@;
                        let score = weighted_field_score(sr.score, property.weight);
                        total = total.add_score(&score);
                        scores_count = scores_count + 1;
                        property_results.push(
                            FResult { value: property.value.clone(), score, ranges: sr.ranges },
                        );
                        proof {
                            assert(property_results@.drop_last() =~= before);
                        }
                    },
                    None => {},
                }
                pi = pi + 1;
            }
            if scores_count > 0 {
                let mean = total.div_count(scores_count);
                let x = FuseableSearchResult { index, score: mean, results: property_results };
                insert_fuseable_by_score(&mut result, x);
            }
            index = index + 1;
        }
        Ok(result)
    }
}

/// Inserts `x` into the score-sorted `items` after every entry whose score
/// does not exceed `x`'s, keeping the order sorted and stable.
#[verifier::loop_isolation(false)]
fn insert_fuseable_by_score(items: &mut Vec<FuseableSearchResult>, x: FuseableSearchResult)
    requires
        x.score.wf(),
        forall|k: int| 0 <= k < old(items)@.len() ==> (#[trigger] old(items)@[k]).score.wf(),
        forall|a: int, b: int|
            0 <= a < b < old(items)@.len() ==> (#[trigger] old(items)@[a]).score.spec_le(
                (#[trigger] old(items)@[b]).score,
            ),
    ensures
        final(items)@.len() == old(items)@.len() + 1,
        exists|pos: int|
            0 <= pos <= old(items)@.len() && final(items)@ == #[trigger] old(items)@.insert(pos, x),
        forall|a: int, b: int|
            0 <= a < b < final(items)@.len() ==> (#[trigger] final(items)@[a]).score.spec_le(
                (#[trigger] final(items)@[b]).score,
            ),
{
    let mut pos: usize = items.len();
    while pos > 0 && x.score.lt(&items[pos - 1].score)
        invariant
            0 <= pos <= items@.len(),
            forall|m: int| pos <= m < items@.len() ==> x.score.spec_lt((#[trigger] items@[m]).score),
        decreases pos,
    {
        pos = pos - 1;
    }
    let ghost before = items@;
    let ghost gpos = pos as int;
    items.insert(pos, x);
    proof {
        assert(items@ == before.insert(gpos, x));
        assert forall|k: int| 0 <= k < items@.len() implies #[trigger] items@[k] == (if k < gpos {
            before[k]
        } else if k == gpos {
            x
        } else {
            before[k - 1]
        }) by {
            assert(items@ == before.subrange(0, gpos).push(x) + before.subrange(
                gpos,
                before.len() as int,
            ));
        }
        assert forall|a: int, b: int| 0 <= a < b < items@.len() implies (
        #[trigger] items@[a]).score.spec_le((#[trigger] items@[b]).score) by {
            if a < gpos && b == gpos {
                assert(before[gpos - 1].score.spec_le(x.score));
                if a < gpos - 1 {
                    lemma_score_le_trans(before[a].score, before[gpos - 1].score, x.score);
                }
            } else if a == gpos && b > gpos {
                assert(x.score.spec_lt(before[b - 1].score));
            } else if a < gpos && b > gpos {
                assert(before[a].score.spec_le(x.score)) by {
                    assert(before[gpos - 1].score.spec_le(x.score));
                    if a < gpos - 1 {
                        lemma_score_le_trans(before[a].score, before[gpos - 1].score, x.score);
                    }
                }
                assert(x.score.spec_le(before[b - 1].score));
                lemma_score_le_trans(before[a].score, x.score, before[b - 1].score);
            }
        }
    }
}

/// Sorts search results ascending by score: the output is a permutation
/// of the input, ordered by `Score::spec_le`.
#[verifier::loop_isolation(false)]
pub fn sort_search_results(list: Vec<SearchResult>) -> (r: Vec<SearchResult>)
    requires
        forall|k: int| 0 <= k < list@.len() ==> (#[trigger] list@[k]).score.wf(),
    ensures
        r@.len() == list@.len(),
        forall|a: int, b: int|
            0 <= a < b < r@.len() ==> (#[trigger] r@[a]).score.spec_le((#[trigger] r@[b]).score),
        r@.to_multiset() == list@.to_multiset(),
{
    let ghost orig = list@;
    let mut out: Vec<SearchResult> = Vec::new();
    let mut k: usize = 0;
    let n = list.len();
    let mut input = list;
    proof {
        assert(out@ =~= orig.take(0));
        assert(input@ =~= orig.skip(0));
    }
    while k < n
        invariant
            0 <= k <= n,
            n == orig.len(),
            input@ == orig.skip(k as int),
            out@.len() == k,
            forall|m: int| 0 <= m < out@.len() ==> (#[trigger] out@[m]).score.wf(),
            forall|a: int, b: int|
                0 <= a < b < out@.len() ==> (#[trigger] out@[a]).score.spec_le(
                    (#[trigger] out@[b]).score,
                ),
            out@.to_multiset() == orig.take(k as int).to_multiset(),
        decreases n - k,
    {
        let ghost before = out@;
        let x = input.remove(0);
        proof {
            assert(x == orig[k as int]);
            assert(orig.skip(k as int).remove(0) =~= orig.skip(k + 1));
        }
        insert_by_score(&mut out, x);
        proof {
            broadcast use vstd::seq_lib::group_to_multiset_ensures;

            let pos = choose|pos: int|
                0 <= pos <= before.len() && out@ == #[trigger] before.insert(pos, x);
            vstd::seq_lib::to_multiset_insert(before, pos, x);
            assert(orig.take(k + 1) =~= orig.take(k as int).push(orig[k as int]));
        }
        k = k + 1;
    }
    proof {
        assert(orig.take(n as int) =~= orig);
    }
    out
}

/// Sorts weighted-record search results ascending by score: the output is
/// a permutation of the input, ordered by `Score::spec_le`.
#[verifier::loop_isolation(false)]
pub fn sort_fuseable_results(list: Vec<FuseableSearchResult>) -> (r: Vec<FuseableSearchResult>)
    requires
        forall|k: int| 0 <= k < list@.len() ==> (#[trigger] list@[k]).score.wf(),
    ensures
        r@.len() == list@.len(),
        forall|a: int, b: int|
            0 <= a < b < r@.len() ==> (#[trigger] r@[a]).score.spec_le((#[trigger] r@[b]).score),
        r@.to_multiset() == list@.to_multiset(),
{
    let ghost orig = list@;
    let mut out: Vec<FuseableSearchResult> = Vec::new();
    let mut k: usize = 0;
    let n = list.len();
    let mut input = list;
    proof {
        assert(out@ =~= orig.take(0));
        assert(input@ =~= orig.skip(0));
    }
    while k < n
        invariant
            0 <= k <= n,
            n == orig.len(),
            input@ == orig.skip(k as int),
            out@.len() == k,
            forall|m: int| 0 <= m < out@.len() ==> (#[trigger] out@[m]).score.wf(),
            forall|a: int, b: int|
                0 <= a < b < out@.len() ==> (#[trigger] out@[a]).score.spec_le(
                    (#[trigger] out@[b]).score,
                ),
            out@.to_multiset() == orig.take(k as int).to_multiset(),
        decreases n - k,
    {
        let ghost before = out@;
        let x = input.remove(0);
        proof {
            assert(x == orig[k as int]);
            assert(orig.skip(k as int).remove(0) =~= orig.skip(k + 1));
        }
        insert_fuseable_by_score(&mut out, x);
        proof {
            broadcast use vstd::seq_lib::group_to_multiset_ensures;

            let pos = choose|pos: int|
                0 <= pos <= before.len() && out@ == #[trigger] before.insert(pos, x);
            vstd::seq_lib::to_multiset_insert(before, pos, x);
            assert(orig.take(k + 1) =~= orig.take(k as int).push(orig[k as int]));
        }
        k = k + 1;
    }
    proof {
        assert(orig.take(n as int) =~= orig);
    }
    out
}

} // verus!
