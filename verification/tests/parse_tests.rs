use dazeus_karma::karma::{KarmaAmount, KarmaChange, KarmaStyle};
use dazeus_karma::parse::{is_implicit_char, is_notice_char, is_silent_char};

fn parse_line(input: &str) -> Vec<KarmaChange> {
    dazeus_karma::parse::line(input)
}

#[test]
fn two_implicit_changes() {
    let changes = parse_line("foo++ bar--");
    assert_eq!(changes.len(), 2);
    assert_eq!(changes[0].term, "foo");
    assert_eq!(changes[0].votes, KarmaAmount { up: 1, down: 0 });
    assert_eq!(changes[0].style, KarmaStyle::Implicit);
    assert_eq!(changes[1].term, "bar");
    assert_eq!(changes[1].votes, KarmaAmount { up: 0, down: 1 });
    assert_eq!(changes[1].style, KarmaStyle::Implicit);
}

#[test]
fn explicit_notice_and_silent_changes() {
    let changes = parse_line("[foo]++ (bar)--");
    assert_eq!(changes.len(), 2);
    assert_eq!(changes[0].term, "foo");
    assert_eq!(changes[0].votes, KarmaAmount { up: 1, down: 0 });
    assert_eq!(changes[0].style, KarmaStyle::Notify);
    assert_eq!(changes[1].term, "bar");
    assert_eq!(changes[1].votes, KarmaAmount { up: 0, down: 1 });
    assert_eq!(changes[1].style, KarmaStyle::Silent);
}

#[test]
fn word_boundary_failure_yields_no_change() {
    let changes = parse_line("foo++bar");
    assert_eq!(changes.len(), 0);
}

#[test]
fn empty_line_yields_no_change() {
    let changes = parse_line("");
    assert_eq!(changes.len(), 0);
}

#[test]
fn plain_text_yields_no_change() {
    let changes = parse_line("just some ordinary chatter");
    assert_eq!(changes.len(), 0);
}

#[test]
fn boundary_accepts_punctuation() {
    let changes = parse_line("foo++, and more");
    assert_eq!(changes.len(), 1);
    assert_eq!(changes[0].term, "foo");
    let changes = parse_line("bar--.");
    assert_eq!(changes.len(), 1);
    assert_eq!(changes[0].term, "bar");
    let changes = parse_line("(baz)++:");
    assert_eq!(changes.len(), 1);
    assert_eq!(changes[0].term, "baz");
}

#[test]
fn end_of_input_is_a_boundary() {
    let changes = parse_line("foo++");
    assert_eq!(changes.len(), 1);
    assert_eq!(changes[0].term, "foo");
    assert_eq!(changes[0].votes, KarmaAmount { up: 1, down: 0 });
}

#[test]
fn hyphenated_terms_are_captured() {
    let changes = parse_line("foo-bar++ ");
    assert_eq!(changes.len(), 1);
    assert_eq!(changes[0].term, "foo-bar");
}

#[test]
fn leading_dash_is_kept_in_the_run() {
    let changes = parse_line("-foo++ ");
    assert_eq!(changes.len(), 1);
    assert_eq!(changes[0].term, "-foo");
}

#[test]
fn bracketed_term_may_hold_spaces() {
    let changes = parse_line("[the whole phrase]++ ");
    assert_eq!(changes.len(), 1);
    assert_eq!(changes[0].term, "the whole phrase");
    assert_eq!(changes[0].style, KarmaStyle::Notify);
}

#[test]
fn empty_bracketed_term_still_counts() {
    let changes = parse_line("[]++ ");
    assert_eq!(changes.len(), 1);
    assert_eq!(changes[0].term, "");
}

#[test]
fn unclosed_bracket_falls_through() {
    let changes = parse_line("[foo++ ");
    assert_eq!(changes.len(), 1);
    assert_eq!(changes[0].term, "foo");
    assert_eq!(changes[0].style, KarmaStyle::Implicit);
}

#[test]
fn case_is_kept_verbatim_by_the_parser() {
    let changes = parse_line("FooBar++ ");
    assert_eq!(changes.len(), 1);
    assert_eq!(changes[0].term, "FooBar");
}

#[test]
fn unicode_alphanumerics_make_terms() {
    let changes = parse_line("caf\u{e9}++ ");
    assert_eq!(changes.len(), 1);
    assert_eq!(changes[0].term, "caf\u{e9}");
    let changes = parse_line("!++ ");
    assert_eq!(changes.len(), 0);
}

#[test]
fn unicode_whitespace_is_a_boundary() {
    let changes = parse_line("foo++\u{a0}rest");
    assert_eq!(changes.len(), 1);
    assert_eq!(changes[0].term, "foo");
}

#[test]
fn char_class_helpers() {
    assert!(is_implicit_char('a'));
    assert!(is_implicit_char('7'));
    assert!(is_implicit_char('_'));
    assert!(!is_implicit_char('-'));
    assert!(!is_implicit_char(' '));
    assert!(is_notice_char('['));
    assert!(is_notice_char(']'));
    assert!(!is_notice_char('('));
    assert!(is_silent_char('('));
    assert!(is_silent_char(')'));
    assert!(!is_silent_char('['));
}

#[test]
fn mixed_line_collects_in_order() {
    let changes = parse_line("a++ noise (b)-- [c]++ tail");
    assert_eq!(changes.len(), 3);
    assert_eq!(changes[0].term, "a");
    assert_eq!(changes[1].term, "b");
    assert_eq!(changes[1].style, KarmaStyle::Silent);
    assert_eq!(changes[2].term, "c");
    assert_eq!(changes[2].style, KarmaStyle::Notify);
}
