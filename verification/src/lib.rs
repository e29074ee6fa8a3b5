//! A lightweight fuzzy-search library.
//!
//! Given a query and a target string the engine decides whether the query
//! approximately occurs in the target, grades the match with an exact
//! rational score in `[0, 1]` (`0` is a perfect match, `1` a perfect
//! mismatch), and reports the byte ranges of the target that took part in
//! the match. On top of the single-target matcher sit ranked searches over
//! collections of strings and over records with weighted searchable fields.

use vstd::prelude::*;
use vstd::string::StringSliceAdditionalSpecFns;

mod bitap;
mod laws;
mod score;
mod search;
mod utils;

pub use bitap::first_match;
pub use bitap::is_match_at;
pub use bitap::outer_loop;
pub use bitap::scan_loop;
pub use bitap::seed_loop;
pub use bitap::spec_bin_search;
pub use bitap::spec_search_util;
pub use laws::bounded_by;
pub use laws::lemma_case_fold_invariance;
pub use laws::lemma_exact_match_scores_zero;
pub use laws::lemma_lower_idempotent;
pub use laws::lemma_find_ranges_ordered;
pub use laws::lemma_iterable_entry_ranges_ordered;
pub use laws::lemma_no_shared_bytes_no_match;
pub use laws::lemma_search_deterministic;
pub use laws::lemma_search_ranges_ordered;
pub use laws::lemma_search_score_within;
pub use laws::lemma_search_util_score_within;
pub use laws::no_shared_bytes;
pub use laws::ranges_ordered;
pub use search::entry_matches;
pub use search::match_count;
pub use search::record_scored;
pub use search::spec_field_rejected;
pub use search::sum_field_scores;
pub use search::validate_field;
pub use search::sort_fuseable_results;
pub use search::sort_search_results;
pub use search::spec_effective_weight;
pub use search::spec_near_one;
pub use search::spec_search;
pub use search::spec_weighted_score;
pub use search::spec_words;
pub use search::is_ws;
pub use search::is_ws3;
pub use search::ws_len_at;
pub use search::tok_loop;
pub use search::weighted_field_score;
pub use score::lemma_add_exact;
pub use score::lemma_mul_exact;
pub use score::lemma_score_le_total;
pub use score::lemma_score_le_trans;
pub use score::lemma_score_monotonic;
pub use score::spec_add;
pub use score::spec_div_count;
pub use score::spec_mul;
pub use score::spec_norm;
pub use score::Score;
pub use score::ROUND_DEN;
pub use utils::CountableCloseRange;
pub use utils::calculate_pattern_alphabet;
pub use utils::calculate_score;
pub use utils::find_ranges;
pub use utils::spec_alphabet;
pub use utils::spec_find_ranges;
pub use utils::spec_score;
pub use utils::MAX_LOCATION;
pub use utils::MAX_PATTERN_LEN;
pub use utils::MAX_TEXT_LEN;

use std::collections::HashMap;
use std::ops::Range;

verus! {

/// Declares one searchable field of a record: the field's name and its
/// relative weight in `(0, 1]`.
pub struct FuseProperty {
    /// The name of the field with an associated weight in the search.
    pub value: String,
    /// The weight associated with the specified field.
    pub weight: Score,
}

impl FuseProperty {
    /// Creates a property with weight 1 from a field name.
    pub fn init(value: &str) -> (r: Self)
        ensures
            r.value@ == value@,
            r.weight == (Score { num: 1, den: 1 }),
    {
        Self { value: value.to_owned(), weight: Score { num: 1, den: 1 } }
    }

    /// Creates a property from a field name and a weight.
    pub fn init_with_weight(value: &str, weight: Score) -> (r: Self)
        ensures
            r.value@ == value@,
            r.weight == weight,
    {
        Self { value: value.to_owned(), weight }
    }
}

/// A compiled query: its normalized text, the text's length, the bit mask
/// of the final pattern position, and the alphabet mapping each byte of the
/// text to the mask of the positions where it occurs.
pub struct Pattern {
    text: Vec<u8>,
    len: usize,
    mask: u64,
    alphabet: HashMap<u8, u64>,
}

impl Pattern {
    /// The normalized pattern text, as a byte sequence.
    pub closed spec fn spec_text(&self) -> Seq<u8> {
        self.text@
    }

    /// A pattern is well-formed when its cached length and final-bit mask
    /// agree with its nonempty text and its alphabet is the text's.
    pub closed spec fn wf(&self) -> bool {
        &&& 1 <= self.text@.len() <= MAX_PATTERN_LEN
        &&& self.len == self.text@.len()
        &&& self.mask == 1u64 << (self.text@.len() - 1) as u64
        &&& forall|c: u8| #[trigger] self.alphabet@.contains_key(c) <==> spec_alphabet(
            self.text@,
            c,
        ) != 0
        &&& forall|c: u8|
            self.alphabet@.contains_key(c) ==> #[trigger] self.alphabet@[c] == spec_alphabet(
                self.text@,
                c,
            )
    }
}

/// Result of a search over a list of strings: the matched item's index in
/// the list, its score, and the matched byte ranges.
#[derive(Debug, PartialEq)]
pub struct SearchResult {
    /// Index of the matched item in the searched list.
    pub index: usize,
    /// Match score: `0` is a perfect match, `1` a perfect mismatch.
    pub score: Score,
    /// Byte ranges of the target that participated in the match.
    pub ranges: Vec<Range<usize>>,
}

/// Result of matching a pattern against a single string.
#[derive(Debug, PartialEq)]
pub struct ScoreResult {
    /// Match score: `0` is a perfect match, `1` a perfect mismatch.
    pub score: Score,
    /// Byte ranges of the target that participated in the match.
    pub ranges: Vec<Range<usize>>,
}

/// Result of matching one searchable field of a record.
#[derive(Debug, PartialEq)]
pub struct FResult {
    /// The field's name.
    pub value: String,
    /// The field's weighted match score.
    pub score: Score,
    /// Byte ranges of the field's value that participated in the match.
    pub ranges: Vec<Range<usize>>,
}

/// Result of searching a list of records with weighted fields.
#[derive(Debug, PartialEq)]
pub struct FuseableSearchResult {
    /// Index of the matched record in the searched list.
    pub index: usize,
    /// The record's score: the mean of its matched fields' scores.
    pub score: Score,
    /// The per-field results of the record.
    pub results: Vec<FResult>,
}

/// The search configuration: where a match is expected, how fast the score
/// degrades with distance from there, the score a match must stay under,
/// and the case-folding and tokenization policy.
pub struct Fuse {
    /// Expected position of a match in the target.
    pub location: i32,
    /// How quickly the score degrades with distance from `location`;
    /// zero makes any positional deviation a full mismatch.
    pub distance: i32,
    /// Initial maximum acceptable score; matches scoring above it count
    /// for nothing.
    pub threshold: Score,
    /// Advisory cap on pattern length.
    pub max_pattern_length: i32,
    /// Match upper and lower case separately.
    pub is_case_sensitive: bool,
    /// Split the query at whitespace and average the per-word scores.
    pub tokenize: bool,
}

impl Fuse {
    /// A configuration is well-formed when the location and distance are
    /// within the supported positional bounds and the threshold is a
    /// rational in `[0, 1]`.
    pub open spec fn wf(&self) -> bool {
        &&& 0 <= self.location <= MAX_LOCATION
        &&& 0 <= self.distance
        &&& self.threshold.wf()
        &&& self.threshold.num <= self.threshold.den
    }
}

impl std::default::Default for Fuse {
    /// The default configuration: location 0, distance 100, threshold 0.6,
    /// case-insensitive, not tokenized.
    fn default() -> (r: Self)
        ensures
            r.location == 0,
            r.distance == 100,
            r.threshold == (Score { num: 3, den: 5 }),
            r.max_pattern_length == 32,
            !r.is_case_sensitive,
            !r.tokenize,
            r.wf(),
    {
        Self {
            location: 0,
            distance: 100,
            threshold: Score { num: 3, den: 5 },
            max_pattern_length: 32,
            is_case_sensitive: false,
            tokenize: false,
        }
    }
}

/// The byte `b` with an upper-case ASCII letter folded to lower case.
///
/// Case folding is deliberately ASCII-only and is applied identically to
/// the query and the target: a length-preserving fold is what keeps the
/// returned ranges valid byte indices into the caller's original string.
/// Bytes beyond ASCII compare case-sensitively;
/// `lemma_case_fold_invariance` states the invariance this fold provides.
pub open spec fn spec_lower_byte(b: u8) -> u8 {
    if 65 <= b <= 90 {
        (b + 32) as u8
    } else {
        b
    }
}

/// The byte sequence `s` with ASCII letters folded to lower case.
pub open spec fn spec_lower(s: Seq<u8>) -> Seq<u8> {
    s.map_values(|b: u8| spec_lower_byte(b))
}

/// `s` normalized for matching: folded to lower case unless the
/// configuration is case-sensitive.
pub open spec fn spec_normalize(s: Seq<u8>, case_sensitive: bool) -> Seq<u8> {
    if case_sensitive {
        s
    } else {
        spec_lower(s)
    }
}

/// Folds the ASCII upper-case letters of `bytes` to lower case.
fn lower_bytes(bytes: &[u8]) -> (r: Vec<u8>)
    ensures
        r@ == spec_lower(bytes@),
{
    let n = bytes.len();
    let mut out: Vec<u8> = Vec::new();
    let mut i: usize = 0;
    while i < n
        invariant
            n == bytes@.len(),
            0 <= i <= n,
            out@ == spec_lower(bytes@).take(i as int),
        decreases n - i,
    {
        let b = bytes[i];
        let lb: u8 = if b >= 65 && b <= 90 {
            b + 32
        } else {
            b
        };
        out.push(lb);
        proof {
            assert(out@ =~= spec_lower(bytes@).take(i + 1));
        }
        i = i + 1;
    }
    proof {
        assert(out@ =~= spec_lower(bytes@));
    }
    out
}

/// `bytes` normalized per the configuration's case policy.
pub(crate) fn normalize_bytes(bytes: &[u8], case_sensitive: bool) -> (r: Vec<u8>)
    ensures
        r@ == spec_normalize(bytes@, case_sensitive),
{
    if case_sensitive {
        let mut out: Vec<u8> = Vec::new();
        let n = bytes.len();
        let mut i: usize = 0;
        while i < n
            invariant
                n == bytes@.len(),
                0 <= i <= n,
                out@ == bytes@.take(i as int),
            decreases n - i,
        {
            out.push(bytes[i]);
            proof {
                assert(out@ =~= bytes@.take(i + 1));
            }
            i = i + 1;
        }
        proof {
            assert(out@ =~= bytes@);
        }
        out
    } else {
        lower_bytes(bytes)
    }
}

/// Compiles already-normalized pattern text: caches its length, builds the
/// final-bit mask and the alphabet.
pub(crate) fn pattern_from_text(text: Vec<u8>) -> (r: Pattern)
    requires
        1 <= text@.len() <= MAX_PATTERN_LEN,
    ensures
        r.wf(),
        r.spec_text() == text@,
{
    let len = text.len();
    let alphabet = crate::utils::calculate_pattern_alphabet(text.as_slice());
    let mask: u64 = 1u64 << ((len - 1) as u64);
    Pattern { text, len, mask, alphabet }
}

impl Fuse {
    /// Compiles a query string into a pattern: normalizes its case, caches
    /// its length and final-bit mask and builds its alphabet. An empty
    /// query yields no pattern.
    pub fn create_pattern(&self, string: &str) -> (r: Option<Pattern>)
        requires
            string.spec_bytes().len() <= MAX_PATTERN_LEN,
        ensures
            r is Some <==> string.spec_bytes().len() > 0,
            r matches Some(p) ==> p.wf() && p.spec_text() == spec_normalize(
                string.spec_bytes(),
                self.is_case_sensitive,
            ),
    {
        let bytes = string.as_bytes();
        let text = normalize_bytes(bytes, self.is_case_sensitive);
        if text.len() == 0 {
            None
        } else {
            Some(pattern_from_text(text))
        }
    }
}

/// The capability a searchable record offers: the record's searchable
/// fields with their weights, and a lookup from a field's name to its
/// string value.
pub trait Fuseable {
    /// The record's searchable fields, each with its weight.
    fn properties(&self) -> Vec<FuseProperty>;

    /// The value of the named field, or nothing when the record has no
    /// such field.
    fn lookup(&self, key: &str) -> Option<&str>;
}

} // verus!
