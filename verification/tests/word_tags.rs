use layered_nlp::{is_spaces, is_word};

#[test]
fn test_is_word() {
    assert!(is_word("don't"));
    assert!(is_word("A"));
    assert!(is_word("Story"));
    assert!(is_word("cameras'"));
    // not
    assert!(!is_word(""), "empty is not word");
    assert!(!is_word("\u{1F600}"));
    assert!(!is_word("\u{1F9B6}\u{1F3FD}"));
    assert!(!is_word("$"));
    assert!(!is_word("'"));
    assert!(!is_word("%'"));
    assert!(!is_word("$12"));
    assert!(!is_word("'tis"));
}

#[test]
fn test_is_spaces() {
    assert!(is_spaces(" "));
    assert!(is_spaces("  \u{00A0}"), "spaces with non-break space");
    assert!(is_spaces(" \t"));
    assert!(is_spaces("\t\t"));
    // not
    assert!(!is_word(""), "empty is not spaces");
    assert!(!is_spaces("don't"));
    assert!(!is_spaces("A"));
    assert!(!is_spaces("Story"));
    assert!(!is_spaces("cameras'"));
    assert!(!is_spaces("\u{1F600}"));
    assert!(!is_spaces("\u{1F9B6}\u{1F3FD}"));
    assert!(!is_spaces("$"));
    assert!(!is_spaces("'"));
    assert!(!is_spaces("%'"));
    assert!(!is_spaces("$12"));
    assert!(!is_spaces("'tis"));
}
