use arborium::wire::{
    is_version_compatible, Edit, Injection, ParseError, ParseResult, Span, WIRE_VERSION,
};

fn span(start: u32, end: u32, capture: &str) -> Span {
    Span { start, end, capture: capture.to_string() }
}

#[test]
fn version_check_accepts_only_the_current_version() {
    assert_eq!(WIRE_VERSION, 1);
    assert!(is_version_compatible(WIRE_VERSION));
    assert!(is_version_compatible(1));
    assert!(!is_version_compatible(0));
    assert!(!is_version_compatible(2));
    assert!(!is_version_compatible(u32::MAX));
}

#[test]
fn empty_result_has_nothing() {
    let result = ParseResult::empty();
    assert!(result.spans.is_empty());
    assert!(result.injections.is_empty());
}

#[test]
fn parse_error_carries_its_message() {
    let error = ParseError::new("unexpected byte");
    assert_eq!(error.message, "unexpected byte");
    assert_eq!(error.report(), "parse error: unexpected byte");
    assert_eq!(error.clone(), error);
    assert_ne!(error, ParseError::new("another"));
}

#[test]
fn spans_compare_field_by_field() {
    assert_eq!(span(1, 2, "keyword"), span(1, 2, "keyword"));
    assert_ne!(span(1, 2, "keyword"), span(1, 3, "keyword"));
    assert_ne!(span(1, 2, "keyword"), span(0, 2, "keyword"));
    assert_ne!(span(1, 2, "keyword"), span(1, 2, "string"));
    assert_eq!(span(1, 2, "keyword").clone(), span(1, 2, "keyword"));
}

#[test]
fn injections_compare_field_by_field() {
    let a = Injection { start: 3, end: 9, language: "css".to_string(), include_children: false };
    assert_eq!(a.clone(), a);
    assert_ne!(Injection { include_children: true, ..a.clone() }, a);
    assert_ne!(Injection { language: "javascript".to_string(), ..a.clone() }, a);
    assert_ne!(Injection { start: 4, ..a.clone() }, a);
    assert_ne!(Injection { end: 8, ..a.clone() }, a);
}

#[test]
fn results_compare_item_by_item() {
    let a = ParseResult {
        spans: vec![span(0, 1, "a"), span(1, 2, "b")],
        injections: vec![Injection {
            start: 0,
            end: 2,
            language: "x".to_string(),
            include_children: true,
        }],
    };
    assert_eq!(a.clone(), a);
    let mut shorter = a.clone();
    shorter.spans.pop();
    assert_ne!(shorter, a);
    let mut other = a.clone();
    other.spans[1].capture = "c".to_string();
    assert_ne!(other, a);
    let mut bare = a.clone();
    bare.injections.clear();
    assert_ne!(bare, a);
}

#[test]
fn edits_are_plain_values() {
    let edit = Edit {
        start_byte: 1,
        old_end_byte: 2,
        new_end_byte: 3,
        start_row: 4,
        start_col: 5,
        old_end_row: 6,
        old_end_col: 7,
        new_end_row: 8,
        new_end_col: 9,
    };
    let copy = edit;
    assert_eq!(copy, edit);
    assert_ne!(Edit { new_end_col: 0, ..edit }, edit);
}
