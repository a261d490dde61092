use oracle::text::{chars_of, comes_before, holds_text, join, same, same_ignoring_case, to_upper};

#[test]
fn texts_are_compared() {
    assert!(same("é", "é"));
    assert!(!same("a", "ab"));
    assert!(!same("a", "A"));
    assert!(same_ignoring_case("sts:AssumeRole", "STS:assumerole"));
    assert!(!same_ignoring_case("é", "É"));
    assert!(!same_ignoring_case("a", "ab"));
    assert!(holds_text(&vec!["a".into(), "b".into()], "b"));
    assert!(!holds_text(&vec!["a".into()], "b"));
}

#[test]
fn texts_are_ordered_as_strings_are() {
    let words = ["", "*", "Z", "a", "ab", "b", "é", "\u{1f600}"];
    for x in words {
        for y in words {
            assert_eq!(comes_before(x, y), x < y, "{x} {y}");
        }
    }
}

#[test]
fn texts_are_built() {
    assert_eq!(to_upper("aZé-9"), "AZé-9");
    assert_eq!(join(&vec!["a".into(), "b".into(), "".into()], ", "), "a, b, ");
    assert_eq!(join(&vec![], ", "), "");
    assert_eq!(chars_of("aé"), vec!['a', 'é']);
}
