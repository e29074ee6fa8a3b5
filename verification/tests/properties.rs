use fuse_rust::{Fuse, FuseProperty, Fuseable, Score};

fn val(s: &Score) -> f64 {
    s.num as f64 / s.den as f64
}

fn close(a: f64, b: f64) -> bool {
    (a - b).abs() < 1e-9
}

struct Book<'a> {
    title: &'a str,
    author: &'a str,
}

impl Fuseable for Book<'_> {
    fn properties(&self) -> Vec<FuseProperty> {
        vec![
            FuseProperty::init_with_weight("title", Score { num: 3, den: 10 }),
            FuseProperty::init_with_weight("author", Score { num: 7, den: 10 }),
        ]
    }
    fn lookup(&self, key: &str) -> Option<&str> {
        match key {
            "title" => Some(self.title),
            "author" => Some(self.author),
            _ => None,
        }
    }
}

struct BrokenRecord;

impl Fuseable for BrokenRecord {
    fn properties(&self) -> Vec<FuseProperty> {
        vec![FuseProperty::init("isbn")]
    }
    fn lookup(&self, _key: &str) -> Option<&str> {
        None
    }
}

#[test]
fn deterministic_search() {
    let fuse = Fuse::default();
    let pat = fuse.create_pattern("od mn war");
    let a = fuse.search(pat.as_ref(), "Old Man's War").unwrap();
    let b = fuse.search(pat.as_ref(), "Old Man's War").unwrap();
    assert_eq!(a, b);
}

#[test]
fn exact_match_scores_zero() {
    let fuse = Fuse::default();
    for s in ["a", "hello", "Old Man's War", "MiXeD CaSe"] {
        let pat = fuse.create_pattern(s);
        let r = fuse.search(pat.as_ref(), s).unwrap();
        assert_eq!(r.score.num, 0);
        assert_eq!(r.ranges.len(), 1);
        assert_eq!(r.ranges[0], 0..s.len());
    }
}

#[test]
fn no_shared_chars_yields_nothing() {
    let strict = Fuse { threshold: Score { num: 0, den: 1 }, ..Fuse::default() };
    assert!(strict.search_text_in_string("abc", "xyz").is_none());
    let fuse = Fuse::default();
    assert!(fuse.search_text_in_string("abc", "xyz").is_none());
}

#[test]
fn distance_penalty_is_monotonic() {
    // Fixed error count, growing distance from the expected location.
    let s0 = fuse_rust::calculate_score(4, 1, 0, 0, 100);
    let s5 = fuse_rust::calculate_score(4, 1, 5, 0, 100);
    let s9 = fuse_rust::calculate_score(4, 1, 9, 0, 100);
    assert!(close(val(&s0), 0.25));
    assert!(close(val(&s5), 0.3));
    assert!(close(val(&s9), 0.34));
    assert!(val(&s0) <= val(&s5) && val(&s5) <= val(&s9));
    // A distance of zero makes any deviation a full mismatch.
    let z = fuse_rust::calculate_score(4, 1, 5, 0, 0);
    assert_eq!((z.num, z.den), (1, 1));
    let z0 = fuse_rust::calculate_score(4, 1, 5, 5, 0);
    assert!(close(val(&z0), 0.25));
}

#[test]
fn ranges_are_ordered() {
    let fuse = Fuse::default();
    let r = fuse.search_text_in_string("od mn war", "Old Man's War").unwrap();
    for w in r.ranges.windows(2) {
        assert!(w[0].end <= w[1].start);
    }
    for range in &r.ranges {
        assert!(range.start < range.end);
    }
}

#[test]
fn multibyte_roundtrip() {
    let target = "\u{ae}f\u{222e}";
    let fuse = Fuse::default();
    let r = fuse.search_text_in_string("f", target).unwrap();
    let range = &r.ranges[0];
    assert_eq!(&target[range.start..range.end], "f");
}

#[test]
fn weighted_fields_rank_author_match_first() {
    let books = [
        Book { author: "John X", title: "Old Man's War fiction" },
        Book { author: "P.D. Mans", title: "Right Ho Jeeves" },
    ];
    let fuse = Fuse::default();
    let results = fuse.search_text_in_fuse_list("man", &books).unwrap();
    assert_eq!(results.len(), 2);
    assert_eq!(results[0].index, 1);
    assert_eq!(results[1].index, 0);
    assert!(close(val(&results[0].score), 0.015));
    assert!(close(val(&results[1].score), 0.028));
}

#[test]
fn simple_string_example() {
    let fuse = Fuse::default();
    let r = fuse.search_text_in_string("od mn war", "Old Man's War").unwrap();
    assert!(close(val(&r.score), 0.4444444444444444));
    assert_eq!(r.ranges, vec![0..1, 2..7, 9..13]);
}

#[test]
fn collection_ranking_example() {
    let books: [&str; 3] = ["The Silmarillion", "The Lock Artist", "The Lost Symbol"];
    let fuse = Fuse::default();
    let results = fuse.search_text_in_iterable("Te silm", &books[..]);
    assert_eq!(results.len(), 3);
    assert_eq!(results[0].index, 0);
    assert_eq!(results[1].index, 2);
    assert_eq!(results[2].index, 1);
    assert!(val(&results[0].score) <= val(&results[1].score));
    assert!(val(&results[1].score) <= val(&results[2].score));
}

#[test]
fn empty_pattern_yields_nothing() {
    let fuse = Fuse::default();
    assert!(fuse.create_pattern("").is_none());
    assert!(fuse.search(None, "anything").is_none());
    let results = fuse.search_text_in_iterable("", &["abc"][..]);
    assert!(results.is_empty());
    // With no pattern the items are never touched; empty items are fine.
    let untouched = fuse.search_text_in_iterable("", &["", "abc"][..]);
    assert!(untouched.is_empty());
}

#[test]
fn no_shared_chars_yields_nothing_tokenized() {
    let fuse = Fuse { tokenize: true, ..Fuse::default() };
    assert!(fuse.search_text_in_string("ab cd", "xyz").is_none());
}

#[test]
fn ascii_case_folding_is_consistent() {
    let fuse = Fuse::default();
    let lower = fuse.search_text_in_string("od mn war", "old man's war").unwrap();
    let upper = fuse.search_text_in_string("OD MN WAR", "OLD MAN'S WAR").unwrap();
    assert_eq!(lower, upper);
}

struct EmptyFieldRecord;

impl Fuseable for EmptyFieldRecord {
    fn properties(&self) -> Vec<FuseProperty> {
        vec![FuseProperty::init("note")]
    }
    fn lookup(&self, key: &str) -> Option<&str> {
        match key {
            "note" => Some(""),
            _ => None,
        }
    }
}

#[test]
fn empty_field_value_is_fatal() {
    let records = [EmptyFieldRecord];
    let fuse = Fuse::default();
    let err = fuse.search_text_in_fuse_list("x", &records).unwrap_err();
    assert_eq!(err, "note");
}

#[test]
fn find_ranges_extracts_runs() {
    let rs = fuse_rust::find_ranges(&[0, 1, 1, 0, 1]).unwrap();
    assert_eq!(rs, vec![1..3, 4..5]);
    let all = fuse_rust::find_ranges(&[1, 1, 1]).unwrap();
    assert_eq!(all, vec![0..3]);
    let none = fuse_rust::find_ranges(&[0, 0]).unwrap();
    assert!(none.is_empty());
}

#[test]
fn find_ranges_rejects_empty_mask() {
    let err = fuse_rust::find_ranges(&[]).unwrap_err();
    assert_eq!(err, "Input array is empty");
}

#[test]
fn missing_field_is_fatal() {
    let records = [BrokenRecord];
    let fuse = Fuse::default();
    let err = fuse.search_text_in_fuse_list("x", &records).unwrap_err();
    assert_eq!(err, "isbn");
}

#[test]
fn perfect_field_match_is_bumped() {
    let r = fuse_rust::weighted_field_score(
        Score { num: 0, den: 1 },
        Score { num: 1, den: 1 },
    );
    assert!(close(val(&r), 0.001));
}

#[test]
fn score_arithmetic_is_exact_when_small() {
    let a = Score { num: 1, den: 4 };
    let b = Score { num: 1, den: 4 };
    let sum = a.add_score(&b);
    assert!(close(val(&sum), 0.5));
    let w = Score { num: 3, den: 10 };
    let prod = a.mul_score(&w);
    assert!(close(val(&prod), 0.075));
    let third = a.div_count(5);
    assert!(close(val(&third), 0.05));
    assert!(a.le(&b) && b.le(&a));
    assert!(!Score { num: 1, den: 2 }.lt(&Score { num: 2, den: 4 }));
}

#[test]
fn tokenized_search_averages_words() {
    let fuse = Fuse { tokenize: true, ..Fuse::default() };
    let r1 = fuse.search_text_in_string("od man", "Old Man's War").unwrap();
    let r2 = fuse.search_text_in_string("od man", "Old Man's War").unwrap();
    assert_eq!(r1, r2);
    assert!(val(&r1.score) < 1.0);
    assert!(!r1.ranges.is_empty());
}

#[test]
fn sort_orders_by_score() {
    let fuse = Fuse::default();
    let mut collected = Vec::new();
    for (i, t) in ["The Lock Artist", "The Silmarillion", "The Lost Symbol"]
        .iter()
        .enumerate()
    {
        if let Some(r) = fuse.search_text_in_string("Te silm", t) {
            collected.push(fuse_rust::SearchResult { index: i, score: r.score, ranges: r.ranges });
        }
    }
    collected.reverse();
    let sorted = fuse_rust::sort_search_results(collected);
    assert_eq!(sorted.len(), 3);
    for w in sorted.windows(2) {
        assert!(val(&w[0].score) <= val(&w[1].score));
    }
}

#[test]
fn default_configuration() {
    let fuse = Fuse::default();
    assert_eq!(fuse.location, 0);
    assert_eq!(fuse.distance, 100);
    assert_eq!(fuse.threshold, Score { num: 3, den: 5 });
    assert_eq!(fuse.max_pattern_length, 32);
    assert!(!fuse.is_case_sensitive);
    assert!(!fuse.tokenize);
}

#[test]
fn largest_supported_pattern() {
    let query: String = std::iter::repeat('a').take(64).collect();
    let fuse = Fuse::default();
    let r = fuse.search_text_in_string(&query, &query).unwrap();
    assert_eq!(r.score.num, 0);
    assert_eq!(r.ranges, vec![0..64]);
}

#[test]
fn case_sensitivity_is_honored() {
    let insensitive = Fuse::default();
    let r = insensitive.search_text_in_string("Live", "live").unwrap();
    assert_eq!(r.score.num, 0);
    let sensitive = Fuse { is_case_sensitive: true, ..Fuse::default() };
    let s = sensitive.search_text_in_string("Live", "live");
    assert!(s.is_none() || s.unwrap().score.num > 0);
}

#[test]
fn distance_zero_gates_on_position() {
    let fuse = Fuse { distance: 0, ..Fuse::default() };
    let at_location = fuse.search_text_in_string("war", "war x").unwrap();
    assert_eq!(at_location.score.num, 0);
    assert_eq!(at_location.ranges[0], 0..3);
    assert!(fuse.search_text_in_string("war", "old war").is_none());
}

#[test]
fn out_of_threshold_candidate_is_not_reported() {
    // The only full-match candidate scores 0.61 > threshold 0.6: nothing
    // tightens the score, so there is no result.
    let fuse = Fuse::default();
    assert!(fuse.search_text_in_string("ab", "ccccccccccccb").is_none());
}

#[test]
fn literal_occurrence_score_is_kept() {
    // The literal occurrence scores 0.51; a later out-of-threshold
    // candidate (0.52) must not overwrite it.
    let target = format!("cccb{}ab", "c".repeat(47));
    let fuse = Fuse::default();
    let r = fuse.search_text_in_string("ab", &target).unwrap();
    assert!(close(val(&r.score), 0.51));
}

#[test]
fn tokenization_splits_at_unicode_whitespace() {
    // A no-break space separates words just as the ASCII space does.
    let fuse = Fuse { tokenize: true, ..Fuse::default() };
    let r = fuse.search_text_in_string("x\u{a0}y", "x").unwrap();
    assert!(close(val(&r.score), 2.0 / 3.0));
}
