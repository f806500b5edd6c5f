use didyoumean::edit_distance;

#[test]
fn literal_cases() {
    assert_eq!(edit_distance("sitting", "kitten"), 3);
    assert_eq!(edit_distance("geek", "gesek"), 1);
    assert_eq!(edit_distance("cat", "cut"), 1);
    assert_eq!(edit_distance("sunday", "saturday"), 3);
}

#[test]
fn adjacent_transposition_costs_one() {
    assert_eq!(edit_distance("tset", "test"), 1);
    assert_eq!(edit_distance("ab", "ba"), 1);
}

#[test]
fn distance_to_self_is_zero() {
    assert_eq!(edit_distance("", ""), 0);
    assert_eq!(edit_distance("a", "a"), 0);
    assert_eq!(edit_distance("kitten", "kitten"), 0);
    assert_eq!(edit_distance("saturday", "saturday"), 0);
}

#[test]
fn distance_to_empty_is_length() {
    assert_eq!(edit_distance("", "kitten"), 6);
    assert_eq!(edit_distance("kitten", ""), 6);
    assert_eq!(edit_distance("", "a"), 1);
    assert_eq!(edit_distance("a", ""), 1);
}

#[test]
fn distance_is_symmetric() {
    let pairs = [
        ("sitting", "kitten"),
        ("geek", "gesek"),
        ("sunday", "saturday"),
        ("tset", "test"),
        ("", "word"),
        ("abcdef", "fedcba"),
    ];
    for (a, b) in pairs {
        assert_eq!(edit_distance(a, b), edit_distance(b, a));
    }
}

#[test]
fn counts_code_points_not_bytes() {
    // A two-byte code point is still a single substitution.
    assert_eq!(edit_distance("caf\u{e9}", "cafe"), 1);
    assert_eq!(edit_distance("\u{fc}ber", "uber"), 1);
}
