use arborium::events::{render, shared_depth, HighlightEvent};
use arborium::layers::{clone_names, stack_names, Layering, Segment};
use arborium::spans::flat_spans;

fn names(list: &[&str]) -> Vec<String> {
    list.iter().map(|n| n.to_string()).collect()
}

fn segment(start: usize, end: usize, layers: &[&str]) -> Segment {
    Segment { start, end, layers: names(layers) }
}

fn layering(segments: Vec<Segment>) -> Layering {
    Layering::from_segments(segments).expect("the segments tile a text")
}

fn seen(layering: &Layering) -> Vec<(usize, usize, Vec<String>)> {
    layering.segments().iter().map(|s| (s.start, s.end, s.layers.clone())).collect()
}

fn start(name: &str) -> HighlightEvent {
    HighlightEvent::HighlightStart { capture: name.to_string() }
}

fn same_events(a: &[HighlightEvent], b: &[HighlightEvent]) -> bool {
    format!("{:?}", a) == format!("{:?}", b)
}

#[test]
fn plain_text_is_one_bare_segment() {
    assert_eq!(seen(&Layering::plain(5)), vec![(0, 5, vec![])]);
    assert_eq!(Layering::plain(5).len(), 5);
    assert!(seen(&Layering::plain(0)).is_empty());
    assert_eq!(Layering::plain(0).len(), 0);
}

#[test]
fn uniform_text_is_one_segment_under_the_stack() {
    assert_eq!(seen(&Layering::uniform(3, names(&["a", "b"]))), vec![(0, 3, names(&["a", "b"]))]);
    assert!(seen(&Layering::uniform(0, names(&["a"]))).is_empty());
}

#[test]
fn segments_must_tile() {
    assert!(Layering::from_segments(vec![]).is_some());
    assert!(Layering::from_segments(vec![segment(0, 2, &[]), segment(2, 5, &["a"])]).is_some());
    // does not start at 0
    assert!(Layering::from_segments(vec![segment(1, 2, &[])]).is_none());
    // gap
    assert!(Layering::from_segments(vec![segment(0, 2, &[]), segment(3, 5, &[])]).is_none());
    // overlap
    assert!(Layering::from_segments(vec![segment(0, 3, &[]), segment(2, 5, &[])]).is_none());
    // empty segment
    assert!(Layering::from_segments(vec![segment(0, 0, &[])]).is_none());
    assert!(Layering::from_segments(vec![segment(0, 2, &[]), segment(2, 2, &[])]).is_none());
    // backwards
    assert!(Layering::from_segments(vec![segment(0, 2, &[]), segment(2, 1, &[])]).is_none());
}

#[test]
fn names_are_copied_and_stacked() {
    assert_eq!(clone_names(&names(&["a", "b"])), names(&["a", "b"]));
    assert_eq!(stack_names(&names(&["a"]), &names(&["b", "c"])), names(&["a", "b", "c"]));
    assert_eq!(stack_names(&names(&[]), &names(&[])), names(&[]));
}

#[test]
fn splice_replaces_the_parent_where_children_are_not_included() {
    let parent = layering(vec![segment(0, 4, &["p"]), segment(4, 10, &["p", "q"])]);
    let child = layering(vec![segment(0, 1, &[]), segment(1, 3, &["c"])]);
    let merged = parent.splice(3, 6, false, &child).unwrap();
    assert_eq!(
        seen(&merged),
        vec![
            (0, 3, names(&["p"])),
            (3, 4, names(&[])),
            (4, 6, names(&["c"])),
            (6, 10, names(&["p", "q"])),
        ]
    );
}

#[test]
fn splice_nests_the_child_where_children_are_included() {
    let parent = layering(vec![segment(0, 4, &["p"]), segment(4, 10, &["p", "q"])]);
    let child = layering(vec![segment(0, 1, &[]), segment(1, 3, &["c"])]);
    let merged = parent.splice(3, 6, true, &child).unwrap();
    assert_eq!(
        seen(&merged),
        vec![
            (0, 3, names(&["p"])),
            (3, 4, names(&["p"])),
            (4, 6, names(&["p", "q", "c"])),
            (6, 10, names(&["p", "q"])),
        ]
    );
}

#[test]
fn splice_over_the_whole_text() {
    let parent = layering(vec![segment(0, 4, &["p"])]);
    let child = layering(vec![segment(0, 2, &["a"]), segment(2, 4, &["b"])]);
    assert_eq!(
        seen(&parent.splice(0, 4, false, &child).unwrap()),
        vec![(0, 2, names(&["a"])), (2, 4, names(&["b"]))]
    );
    assert_eq!(
        seen(&parent.splice(0, 4, true, &child).unwrap()),
        vec![(0, 2, names(&["p", "a"])), (2, 4, names(&["p", "b"]))]
    );
}

#[test]
fn splice_of_an_empty_range_changes_nothing() {
    let parent = layering(vec![segment(0, 4, &["p"])]);
    let merged = parent.splice(2, 2, false, &Layering::plain(0)).unwrap();
    assert_eq!(seen(&merged), vec![(0, 4, names(&["p"]))]);
}

#[test]
fn splice_needs_ranges_that_fit() {
    let parent = layering(vec![segment(0, 4, &["p"])]);
    assert!(parent.splice(3, 2, false, &Layering::plain(0)).is_none());
    assert!(parent.splice(2, 5, false, &Layering::plain(3)).is_none());
    assert!(parent.splice(1, 3, false, &Layering::plain(3)).is_none());
    assert!(parent.splice(1, 3, false, &Layering::plain(1)).is_none());
    assert!(parent.splice(1, 3, false, &Layering::plain(2)).is_some());
}

#[test]
fn stacks_share_their_common_start() {
    assert_eq!(shared_depth(&names(&["a", "b", "c"]), &names(&["a", "b", "d"])), 2);
    assert_eq!(shared_depth(&names(&["a", "b"]), &names(&["a", "b", "c"])), 2);
    assert_eq!(shared_depth(&names(&["a"]), &names(&["b"])), 0);
    assert_eq!(shared_depth(&names(&[]), &names(&["b"])), 0);
    assert_eq!(shared_depth(&names(&["a", "b"]), &names(&["a", "b"])), 2);
}

#[test]
fn events_open_and_close_only_what_differs() {
    let layering = layering(vec![
        segment(0, 2, &[]),
        segment(2, 4, &["a"]),
        segment(4, 6, &["a", "b"]),
        segment(6, 8, &["a", "c"]),
        segment(8, 9, &["d"]),
    ]);
    let events = render(&layering);
    let expected = vec![
        HighlightEvent::Source { start: 0, end: 2 },
        start("a"),
        HighlightEvent::Source { start: 2, end: 4 },
        start("b"),
        HighlightEvent::Source { start: 4, end: 6 },
        HighlightEvent::HighlightEnd,
        start("c"),
        HighlightEvent::Source { start: 6, end: 8 },
        HighlightEvent::HighlightEnd,
        HighlightEvent::HighlightEnd,
        start("d"),
        HighlightEvent::Source { start: 8, end: 9 },
        HighlightEvent::HighlightEnd,
    ];
    assert!(same_events(&events, &expected), "{:?}", events);
}

#[test]
fn events_of_an_empty_text_are_none() {
    assert!(render(&Layering::plain(0)).is_empty());
    let events = render(&Layering::plain(3));
    assert!(same_events(&events, &[HighlightEvent::Source { start: 0, end: 3 }]));
}

#[test]
fn flat_spans_show_the_innermost_name_in_maximal_stretches() {
    let layering = layering(vec![
        segment(0, 2, &[]),
        segment(2, 4, &["a"]),
        segment(4, 6, &["b", "a"]),
        segment(6, 8, &["a", "c"]),
        segment(8, 9, &[]),
        segment(9, 10, &["c"]),
        segment(10, 12, &["c"]),
    ]);
    let spans: Vec<_> =
        flat_spans(&layering).iter().map(|s| (s.start, s.end, s.capture.clone())).collect();
    assert_eq!(
        spans,
        vec![
            (2, 6, "a".to_string()),
            (6, 8, "c".to_string()),
            (9, 12, "c".to_string()),
        ]
    );
}

#[test]
fn flat_spans_of_plain_text_are_none() {
    assert!(flat_spans(&Layering::plain(7)).is_empty());
    assert!(flat_spans(&Layering::plain(0)).is_empty());
}
