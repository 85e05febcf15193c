use diffame::string_distance::levenshtein_distance;

/// The similarity score as a floating-point number.
fn normalised_similarity(left: &str, right: &str) -> f64 {
    let score = diffame::string_distance::normalised_similarity(left, right);
    score.numerator as f64 / score.denominator as f64
}

#[test]
fn levenshtein_identical_strings() {
    assert_eq!(levenshtein_distance("hello", "hello"), 0);
}

#[test]
fn levenshtein_completely_different() {
    assert_eq!(levenshtein_distance("abc", "xyz"), 3);
}

#[test]
fn levenshtein_empty_strings() {
    assert_eq!(levenshtein_distance("", ""), 0);
    assert_eq!(levenshtein_distance("abc", ""), 3);
    assert_eq!(levenshtein_distance("", "abc"), 3);
}

#[test]
fn levenshtein_single_edit() {
    assert_eq!(levenshtein_distance("kitten", "sitten"), 1);
    assert_eq!(levenshtein_distance("abc", "abcd"), 1);
}

#[test]
fn similarity_identical() {
    assert!((normalised_similarity("hello", "hello") - 1.0).abs() < f64::EPSILON);
}

#[test]
fn similarity_empty_strings() {
    assert!((normalised_similarity("", "") - 1.0).abs() < f64::EPSILON);
}

#[test]
fn similarity_completely_different() {
    assert!((normalised_similarity("abc", "xyz")).abs() < f64::EPSILON);
}

#[test]
fn similarity_partial_match() {
    // "Barbaz" vs "Bar baz": distance 1, length 7 → similarity ≈ 0.857
    let score = normalised_similarity("Barbaz", "Bar baz");
    assert!(score > 0.8);
    assert!(score < 0.9);
}

#[test]
fn distance_is_the_same_both_ways() {
    assert_eq!(levenshtein_distance("kitten", "sitting"), 3);
    assert_eq!(levenshtein_distance("sitting", "kitten"), 3);
    assert_eq!(
        normalised_similarity("flaw", "lawn"),
        normalised_similarity("lawn", "flaw")
    );
}

#[test]
fn similarity_stays_between_zero_and_one() {
    for (left, right) in [("", "x"), ("abc", "abc"), ("abc", "xyz"), ("short", "much longer text")] {
        let score = diffame::string_distance::normalised_similarity(left, right);
        assert!(score.denominator > 0);
        assert!(score.numerator <= score.denominator);
    }
    assert_eq!(normalised_similarity("same", "same"), 1.0);
}
