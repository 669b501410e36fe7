use test_prioritization::jaccard::jaccard_index;
use test_prioritization::jaccard::jaccard_index_word;
use test_prioritization::jaccard::Strategy;
use test_prioritization::ratio::Ratio;

#[test]
fn test_jaccard_index_word_valid() {
    let r = jaccard_index("test", "test", Strategy::Word);
    assert!(r.eq_value(Ratio { num: 1, den: 1 }));
}

#[test]
fn test_jaccard_index_word_full_match() {
    let r = jaccard_index_word("test", "test");
    assert!(r.eq_value(Ratio { num: 1, den: 1 }));
}

#[test]
fn test_jaccard_index_word_half_match() {
    let r = jaccard_index_word("test", "test test2");
    assert!(r.eq_value(Ratio { num: 1, den: 2 }));
}

#[test]
fn test_jaccard_index_word_no_match() {
    let r = jaccard_index_word("test", "no_match");
    assert!(r.eq_value(Ratio { num: 0, den: 1 }));
}

#[test]
fn test_jaccard_both_empty_treated_identical() {
    let r = jaccard_index_word("", "");
    assert!(r.eq_value(Ratio { num: 1, den: 1 }));
    let r = jaccard_index_word("  \t\n", " ");
    assert!(r.eq_value(Ratio { num: 1, den: 1 }));
}

#[test]
fn test_jaccard_counts_distinct_tokens() {
    // repeated tokens count once; punctuation stays part of a token
    let r = jaccard_index_word("a a b", "b c");
    // sets {a, b} and {b, c}: one shared of three overall
    assert!(r.eq_value(Ratio { num: 1, den: 3 }));
    let r = jaccard_index_word("a.", "a");
    assert!(r.eq_value(Ratio { num: 0, den: 2 }));
}

#[test]
fn test_jaccard_case_sensitive() {
    let r = jaccard_index_word("Test", "test");
    assert!(r.eq_value(Ratio { num: 0, den: 2 }));
}

#[test]
fn test_ratio_comparisons() {
    let half = Ratio { num: 1, den: 2 };
    let same_half = Ratio { num: 50, den: 100 };
    let third = Ratio { num: 1, den: 3 };
    assert!(half.eq_value(same_half));
    assert!(third.lt(half));
    assert!(third.le(half));
    assert!(!half.lt(same_half));
    let d = half.one_minus();
    assert!(d.eq_value(Ratio { num: 1, den: 2 }));
}
