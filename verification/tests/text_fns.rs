use botanist::lower_first;
use botanist::position;
use botanist::text::contains_ci;
use botanist::text::lower_string;

#[test]
fn lower_first_lowers_only_the_first_character() {
    assert_eq!(lower_first("Botanist"), "botanist");
    assert_eq!(lower_first("QueryRoot"), "queryRoot");
    assert_eq!(lower_first("already"), "already");
    assert_eq!(lower_first("X"), "x");
    assert_eq!(lower_first("9Lives"), "9Lives");
}

#[test]
fn position_is_one_based_and_finds_the_first_occurrence() {
    assert_eq!(position("hello world", "lo"), 4);
    assert_eq!(position("hello world", "o"), 5);
    assert_eq!(position("hello world", "zebra"), 0);
    assert_eq!(position("hello", ""), 1);
    assert_eq!(position("", "a"), 0);
    assert_eq!(position("aaa", "aa"), 1);
}

#[test]
fn contains_ci_folds_ascii_case_on_both_sides() {
    assert!(contains_ci("Frank", "AN"));
    assert!(contains_ci("HANNAH", "an"));
    assert!(!contains_ci("Bob", "an"));
    assert_eq!(lower_string("MiXeD 42!"), "mixed 42!");
}

#[test]
fn position_predicate_matches_the_free_function() {
    let p = botanist::Position { substring: String::from("an") };
    assert_eq!(p.of("Frank"), 3);
    assert_eq!(p.of("bob"), 0);
    assert_eq!(p.of("banana"), 2);
}
