use arborium::grammar::{ByteRange, Capture};
use arborium::layers::Layering;
use arborium::locals::{has_same_text, is_resolved, is_visible};
use arborium::query::{
    collect_candidates, goes_before, is_winner, layer_candidates, paint_order_of, Candidate,
};

fn candidate(start: usize, end: usize, pattern: u32, name: &str) -> Candidate {
    Candidate { start, end, local: false, match_len: end - start, pattern, capture: name.to_string() }
}

fn range(start: usize, end: usize) -> ByteRange {
    ByteRange { start, end }
}

fn seen(layering: &Layering) -> Vec<(usize, usize, Vec<String>)> {
    layering.segments().iter().map(|s| (s.start, s.end, s.layers.clone())).collect()
}

fn names(list: &[&str]) -> Vec<String> {
    list.iter().map(|n| n.to_string()).collect()
}

#[test]
fn no_candidate_leaves_the_text_plain() {
    assert_eq!(seen(&layer_candidates(&vec![], 4)), vec![(0, 4, vec![])]);
    assert!(seen(&layer_candidates(&vec![], 0)).is_empty());
}

#[test]
fn nested_candidates_stack_from_the_outside_in() {
    // reported inside out
    let candidates = vec![
        candidate(3, 5, 0, "escape"),
        candidate(1, 8, 1, "string"),
        candidate(0, 10, 2, "call"),
    ];
    assert_eq!(
        seen(&layer_candidates(&candidates, 10)),
        vec![
            (0, 1, names(&["call"])),
            (1, 3, names(&["call", "string"])),
            (3, 5, names(&["call", "string", "escape"])),
            (5, 8, names(&["call", "string"])),
            (8, 10, names(&["call"])),
        ]
    );
}

#[test]
fn candidates_from_the_same_start_put_the_longer_outside() {
    let candidates = vec![candidate(0, 2, 0, "inner"), candidate(0, 5, 0, "outer")];
    assert_eq!(
        seen(&layer_candidates(&candidates, 5)),
        vec![(0, 2, names(&["outer", "inner"])), (2, 5, names(&["outer"]))]
    );
    assert_eq!(paint_order_of(&candidates, 5), vec![1, 0]);
}

#[test]
fn later_pattern_wins_on_the_same_range() {
    let candidates = vec![candidate(2, 4, 5, "variable"), candidate(2, 4, 7, "function")];
    assert_eq!(
        seen(&layer_candidates(&candidates, 6)),
        vec![(0, 2, vec![]), (2, 4, names(&["function"])), (4, 6, vec![])]
    );
    let swapped = vec![candidate(2, 4, 7, "function"), candidate(2, 4, 5, "variable")];
    assert_eq!(
        seen(&layer_candidates(&swapped, 6)),
        vec![(0, 2, vec![]), (2, 4, names(&["function"])), (4, 6, vec![])]
    );
}

#[test]
fn longer_match_wins_over_later_pattern() {
    let mut specific = candidate(2, 4, 1, "function");
    specific.match_len = 9;
    let candidates = vec![specific, candidate(2, 4, 7, "variable")];
    assert_eq!(
        seen(&layer_candidates(&candidates, 4)),
        vec![(0, 2, vec![]), (2, 4, names(&["function"]))]
    );
    assert!(is_winner(&candidates, 4, 0));
    assert!(!is_winner(&candidates, 4, 1));
}

#[test]
fn later_report_wins_among_equals() {
    let candidates = vec![candidate(0, 2, 3, "first"), candidate(0, 2, 3, "second")];
    assert_eq!(seen(&layer_candidates(&candidates, 2)), vec![(0, 2, names(&["second"]))]);
}

#[test]
fn local_variable_wins_over_any_pattern() {
    let mut local = candidate(0, 2, 0, "variable.local");
    local.local = true;
    local.match_len = 0;
    let mut rival = candidate(0, 2, 99, "function");
    rival.match_len = 50;
    assert_eq!(
        seen(&layer_candidates(&vec![local, rival], 2)),
        vec![(0, 2, names(&["variable.local"]))]
    );
}

#[test]
fn unusable_candidates_are_ignored() {
    let candidates = vec![
        candidate(3, 3, 0, "empty"),
        candidate(2, 9, 0, "beyond"),
        candidate(1, 2, 0, "kept"),
        Candidate {
            start: 5,
            end: 2,
            local: false,
            match_len: 0,
            pattern: 0,
            capture: "backwards".to_string(),
        },
    ];
    assert_eq!(
        seen(&layer_candidates(&candidates, 4)),
        vec![(0, 1, vec![]), (1, 2, names(&["kept"])), (2, 4, vec![])]
    );
    assert!(!is_winner(&candidates, 4, 0));
    assert!(!is_winner(&candidates, 4, 1));
    assert!(is_winner(&candidates, 4, 2));
    assert!(!is_winner(&candidates, 4, 3));
    // an unusable candidate does not displace a usable one of its range
    let shadow = vec![candidate(0, 9, 0, "kept"), candidate(0, 9, 5, "other")];
    assert!(is_winner(&shadow, 9, 1));
    assert!(!is_winner(&shadow, 9, 0));
    assert!(!is_winner(&shadow, 8, 1));
}

#[test]
fn crossing_candidates_are_cut_at_every_boundary() {
    let candidates = vec![candidate(3, 8, 0, "b"), candidate(0, 5, 0, "a")];
    assert_eq!(
        seen(&layer_candidates(&candidates, 8)),
        vec![(0, 3, names(&["a"])), (3, 5, names(&["a", "b"])), (5, 8, names(&["b"]))]
    );
}

#[test]
fn laying_order_goes_by_start_then_reach_then_place() {
    let candidates = vec![
        candidate(2, 4, 0, "c"),
        candidate(0, 4, 0, "b"),
        candidate(0, 6, 0, "a"),
        candidate(2, 4, 0, "d"),
    ];
    assert!(goes_before(&candidates, 2, 1));
    assert!(!goes_before(&candidates, 1, 2));
    assert!(goes_before(&candidates, 1, 0));
    assert!(goes_before(&candidates, 0, 3));
    assert!(!goes_before(&candidates, 3, 0));
    assert!(goes_before(&candidates, 0, 0));
    // places beyond the list come last, in their own order
    assert!(goes_before(&candidates, 3, 4));
    assert!(!goes_before(&candidates, 4, 3));
    assert!(goes_before(&candidates, 4, 9));
    assert!(!is_winner(&candidates, 6, 4));
    // candidate 0 is displaced by candidate 3
    assert_eq!(paint_order_of(&candidates, 6), vec![2, 1, 3]);
}

#[test]
fn ranges_hold_the_same_text() {
    let text = b"abc abd abc";
    assert!(has_same_text(text, &range(0, 3), &range(8, 11)));
    assert!(!has_same_text(text, &range(0, 3), &range(4, 7)));
    assert!(!has_same_text(text, &range(0, 3), &range(0, 2)));
    assert!(has_same_text(text, &range(0, 2), &range(4, 6)));
    // ranges out of the text hold nothing
    assert!(!has_same_text(text, &range(9, 12), &range(9, 12)));
    assert!(!has_same_text(text, &range(2, 2), &range(2, 2)));
}

#[test]
fn definition_is_seen_from_inside_its_scopes() {
    let scopes = vec![range(0, 20), range(5, 15)];
    // the definition lies in both scopes
    assert!(is_visible(&scopes, &range(6, 7), &range(10, 11)));
    assert!(!is_visible(&scopes, &range(6, 7), &range(16, 17)));
    assert!(!is_visible(&scopes, &range(6, 7), &range(30, 31)));
    // the definition lies in the outer scope only
    assert!(is_visible(&scopes, &range(1, 2), &range(10, 11)));
    assert!(is_visible(&scopes, &range(1, 2), &range(16, 17)));
    // no scope at all
    assert!(is_visible(&vec![], &range(1, 2), &range(16, 17)));
}

#[test]
fn reference_resolves_to_a_definition_of_its_name() {
    let text = b"let ab; { let cd; ab cd } cd xy";
    let scopes = vec![range(8, 25)];
    let definitions = vec![range(4, 6), range(14, 16)];
    assert!(is_resolved(text, &scopes, &definitions, &range(18, 20)));
    assert!(is_resolved(text, &scopes, &definitions, &range(21, 23)));
    // out of the scope of its definition
    assert!(!is_resolved(text, &scopes, &definitions, &range(26, 28)));
    // no definition of that name
    assert!(!is_resolved(text, &scopes, &definitions, &range(29, 31)));
    // not a range of the text
    assert!(!is_resolved(text, &scopes, &definitions, &range(29, 40)));
    assert!(!is_resolved(text, &scopes, &definitions, &range(5, 5)));
    // definitions out of the text are passed over
    assert!(!is_resolved(text, &scopes, &vec![range(29, 40)], &range(29, 31)));
}

#[test]
fn candidates_are_the_captures_and_the_resolved_references() {
    let text = b"let ab; ab xy";
    let captures = vec![Capture {
        start: 0,
        end: 3,
        pattern: 4,
        match_len: 7,
        capture: "keyword".to_string(),
    }];
    let candidates = collect_candidates(
        text,
        &captures,
        &vec![],
        &vec![range(4, 6)],
        &vec![range(8, 10), range(11, 13)],
        &"variable.local".to_string(),
    );
    let seen: Vec<_> = candidates
        .iter()
        .map(|c| (c.start, c.end, c.local, c.match_len, c.pattern, c.capture.as_str()))
        .collect();
    assert_eq!(
        seen,
        vec![(0, 3, false, 7, 4, "keyword"), (8, 10, true, 0, 0, "variable.local")]
    );
}

#[test]
fn capture_names_pass_through_as_they_are() {
    let candidates = vec![candidate(0, 3, 0, "@Un.Known-name!"), candidate(3, 4, 0, "")];
    assert_eq!(
        seen(&layer_candidates(&candidates, 4)),
        vec![(0, 3, names(&["@Un.Known-name!"])), (3, 4, names(&[""]))]
    );
}
