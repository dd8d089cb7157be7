//! Highlighting of texts with embedded languages, end to end: small grammars
//! for markup, stylesheets and scripts stand in for compiled ones, and the
//! engine resolves and recomposes what they report.

use arborium::engine::HighlightConfig;
use arborium::events::HighlightEvent;
use arborium::grammar::{ByteRange, Capture, Embedding, Grammar, Scan};
use arborium::highlighter::{HighlightError, Highlighter};
use arborium::wire::{ParseError, WIRE_VERSION};

/// The grammars that the tests load.
#[derive(Debug, Clone, Copy, PartialEq)]
enum Toy {
    /// Tags, with the content of `style` and `script` handed on.
    Markup,
    /// Markup that also hands the content of `template` on as markup.
    Component,
    /// Markup that also hands `{...}` on as script.
    Braced,
    /// Declarations of a stylesheet.
    Style,
    /// Keywords, strings, numbers and local variables of a script.
    Script,
    /// Hands its whole text on to its own language.
    Mirror,
    /// Hands everything but its first byte on to its own language.
    Peel,
    /// Cannot scan anything.
    Broken,
}

fn capture(start: usize, end: usize, pattern: u32, name: &str) -> Capture {
    Capture { start, end, pattern, match_len: end - start, capture: name.to_string() }
}

fn embedding(start: usize, end: usize, language: &str) -> Embedding {
    Embedding { start, end, language: language.to_string(), include_children: false }
}

fn is_word(b: u8) -> bool {
    b.is_ascii_alphanumeric() || b == b'_' || b == b'-' || b == b'$'
}

fn find(bytes: &[u8], from: usize, what: &[u8]) -> Option<usize> {
    if what.is_empty() || bytes.len() < what.len() {
        return None;
    }
    let mut at = from;
    while at + what.len() <= bytes.len() {
        if &bytes[at..at + what.len()] == what {
            return Some(at);
        }
        at += 1;
    }
    None
}

fn scan_markup(text: &str, kind: Toy) -> Scan {
    let bytes = text.as_bytes();
    let mut scan = Scan::empty();
    let mut at = 0;
    while at < bytes.len() {
        if bytes[at] == b'{' && kind == Toy::Braced {
            let mut depth = 0usize;
            let mut end = at;
            while end < bytes.len() {
                if bytes[end] == b'{' {
                    depth += 1;
                } else if bytes[end] == b'}' {
                    depth -= 1;
                    if depth == 0 {
                        break;
                    }
                }
                end += 1;
            }
            if end < bytes.len() && at + 1 < end {
                scan.embeddings.push(embedding(at + 1, end, "javascript"));
            }
            at = end + 1;
            continue;
        }
        if bytes[at] != b'<' {
            at += 1;
            continue;
        }
        let close = match find(bytes, at, b">") {
            Some(close) => close,
            None => break,
        };
        let mut name_start = at + 1;
        if name_start < close && (bytes[name_start] == b'/' || bytes[name_start] == b'!') {
            name_start += 1;
        }
        let closing = bytes[at + 1] == b'/';
        let mut name_end = name_start;
        while name_end < close && is_word(bytes[name_end]) {
            name_end += 1;
        }
        if name_end > name_start {
            scan.captures.push(capture(name_start, name_end, 0, "tag"));
        }
        let mut cursor = name_end;
        while cursor < close {
            if is_word(bytes[cursor]) || bytes[cursor] == b':' {
                let start = cursor;
                while cursor < close && (is_word(bytes[cursor]) || bytes[cursor] == b':') {
                    cursor += 1;
                }
                scan.captures.push(capture(start, cursor, 1, "attribute"));
            } else if bytes[cursor] == b'"' {
                let start = cursor;
                cursor += 1;
                while cursor < close && bytes[cursor] != b'"' {
                    cursor += 1;
                }
                cursor = (cursor + 1).min(close);
                scan.captures.push(capture(start, cursor, 2, "string"));
            } else {
                cursor += 1;
            }
        }
        let name = &text[name_start..name_end];
        let tag = &text[at..close + 1];
        if !closing && (name == "style" || name == "script" || (name == "template" && kind == Toy::Component)) {
            let ending = format!("</{}", name);
            if let Some(end) = find(bytes, close + 1, ending.as_bytes()) {
                let language = if name == "style" {
                    "css"
                } else if name == "template" {
                    "html"
                } else if tag.contains("lang=\"ts\"") {
                    "typescript"
                } else {
                    "javascript"
                };
                scan.embeddings.push(embedding(close + 1, end, language));
                at = end;
                continue;
            }
        }
        at = close + 1;
    }
    scan
}

fn scan_style(text: &str) -> Scan {
    let bytes = text.as_bytes();
    let mut scan = Scan::empty();
    let mut depth = 0usize;
    let mut at = 0;
    while at < bytes.len() {
        let b = bytes[at];
        if b == b'{' {
            depth += 1;
            at += 1;
        } else if b == b'}' {
            depth = depth.saturating_sub(1);
            at += 1;
        } else if is_word(b) || b == b'#' || b == b'.' {
            let start = at;
            while at < bytes.len() && (is_word(bytes[at]) || bytes[at] == b'#' || bytes[at] == b'.') {
                at += 1;
            }
            if depth == 0 {
                scan.captures.push(capture(start, at, 0, "tag"));
            } else if at < bytes.len() && bytes[at] == b':' {
                scan.captures.push(capture(start, at, 1, "property"));
            } else if bytes[start].is_ascii_digit() || bytes[start] == b'#' {
                scan.captures.push(capture(start, at, 2, "number"));
            }
        } else {
            at += 1;
        }
    }
    scan
}

const KEYWORDS: [&str; 12] = [
    "let", "const", "var", "export", "default", "function", "return", "import", "from",
    "interface", "if", "else",
];

fn scan_script(text: &str) -> Scan {
    let bytes = text.as_bytes();
    let mut scan = Scan::empty();
    let mut opened: Vec<usize> = Vec::new();
    let mut declares = false;
    let mut at = 0;
    while at < bytes.len() {
        let b = bytes[at];
        if b == b'"' || b == b'\'' {
            let start = at;
            at += 1;
            while at < bytes.len() && bytes[at] != b {
                at += 1;
            }
            at = (at + 1).min(bytes.len());
            scan.captures.push(capture(start, at, 2, "string"));
            declares = false;
        } else if b.is_ascii_digit() {
            let start = at;
            while at < bytes.len() && bytes[at].is_ascii_alphanumeric() {
                at += 1;
            }
            scan.captures.push(capture(start, at, 3, "number"));
            declares = false;
        } else if b.is_ascii_alphabetic() || b == b'_' || b == b'$' {
            let start = at;
            while at < bytes.len() && (bytes[at].is_ascii_alphanumeric() || bytes[at] == b'_' || bytes[at] == b'$') {
                at += 1;
            }
            let word = &text[start..at];
            if KEYWORDS.contains(&word) {
                scan.captures.push(capture(start, at, 0, "keyword"));
                declares = word == "let" || word == "const" || word == "var";
            } else {
                scan.captures.push(capture(start, at, 1, "variable"));
                if declares {
                    scan.definitions.push(ByteRange { start, end: at });
                } else {
                    scan.references.push(ByteRange { start, end: at });
                }
                declares = false;
            }
        } else if b == b'{' {
            opened.push(at);
            at += 1;
        } else if b == b'}' {
            if let Some(start) = opened.pop() {
                scan.scopes.push(ByteRange { start, end: at + 1 });
            }
            at += 1;
        } else {
            at += 1;
        }
    }
    scan
}

impl Grammar for Toy {
    fn scan(
        &self,
        text: &str,
        _highlights: &str,
        _injections: &str,
        _locals: &str,
    ) -> Result<Scan, ParseError> {
        match self {
            Toy::Markup | Toy::Component | Toy::Braced => Ok(scan_markup(text, *self)),
            Toy::Style => Ok(scan_style(text)),
            Toy::Script => Ok(scan_script(text)),
            Toy::Mirror => {
                let mut scan = Scan::empty();
                scan.captures.push(capture(0, text.len(), 0, "mirror"));
                scan.embeddings.push(embedding(0, text.len(), "mirror"));
                Ok(scan)
            },
            Toy::Peel => {
                let mut scan = Scan::empty();
                if !text.is_empty() {
                    scan.captures.push(capture(0, 1, 0, "peel"));
                    scan.embeddings.push(embedding(1, text.len(), "peel"));
                }
                Ok(scan)
            },
            Toy::Broken => Err(ParseError::new("cannot tokenize")),
        }
    }
}

fn config(language: &str, grammar: Toy) -> HighlightConfig<Toy> {
    HighlightConfig::new(language, grammar, "(highlights)", "(injections)", "(locals)")
}

fn host() -> Highlighter<Toy> {
    let mut host = Highlighter::new();
    for (language, grammar) in [
        ("html", Toy::Markup),
        ("svelte", Toy::Braced),
        ("vue", Toy::Component),
        ("css", Toy::Style),
        ("javascript", Toy::Script),
        ("typescript", Toy::Script),
        ("mirror", Toy::Mirror),
        ("peel", Toy::Peel),
        ("broken", Toy::Broken),
    ] {
        host.load(config(language, grammar), WIRE_VERSION).unwrap();
    }
    host
}

/// A recorded highlight event for testing
#[derive(Debug, Clone, PartialEq)]
enum Event {
    /// Source text was emitted
    Source { text: String },
    /// Highlight started with this name
    Start { name: String },
    /// Highlight ended
    End,
}

fn normalize_lang(language: &str) -> &str {
    match language {
        "js" | "jsx" => "javascript",
        "ts" => "typescript",
        _ => language,
    }
}

/// Record all highlight events for a given language and source
fn record_events(language: &str, source: &str) -> Vec<Event> {
    let mut highlighter = host();
    let normalized = normalize_lang(language);
    let highlights = highlighter.highlight_events(normalized, source).expect("Failed to highlight");
    let mut events = Vec::new();
    for event in highlights {
        match event {
            HighlightEvent::Source { start, end } => {
                events.push(Event::Source { text: source[start..end].to_string() });
            },
            HighlightEvent::HighlightStart { capture } => {
                events.push(Event::Start { name: capture });
            },
            HighlightEvent::HighlightEnd => {
                events.push(Event::End);
            },
        }
    }
    events
}

/// Check that specific highlight names appear in the events
fn assert_has_highlights(events: &[Event], expected_names: &[&str], context: &str) {
    let found_names: std::collections::HashSet<_> = events
        .iter()
        .filter_map(|e| match e {
            Event::Start { name } => Some(name.as_str()),
            _ => None,
        })
        .collect();

    for expected in expected_names {
        assert!(
            found_names.contains(expected),
            "{}: Expected highlight '{}' not found. Found: {:?}",
            context,
            expected,
            found_names
        );
    }
}

/// Check that a specific text appears with a specific highlight
fn assert_text_highlighted(events: &[Event], text: &str, highlight: &str, context: &str) {
    let mut current_highlights: Vec<&str> = Vec::new();
    let mut found = false;

    for event in events {
        match event {
            Event::Start { name } => {
                current_highlights.push(name);
            },
            Event::End => {
                current_highlights.pop();
            },
            Event::Source { text: src } => {
                if src.contains(text) && current_highlights.iter().any(|h| *h == highlight) {
                    found = true;
                    break;
                }
            },
        }
    }

    assert!(
        found,
        "{}: Text '{}' should be highlighted as '{}'. Events: {:?}",
        context, text, highlight, events
    );
}

// ========================================================================
// HTML Tests
// ========================================================================

#[test]
fn test_html_isolated_style() {
    let source = "<style>\n    h1 { color: red; }\n</style>\n";
    let events = record_events("html", source);

    // Should have CSS property highlighting
    assert_has_highlights(&events, &["property"], "HTML style injection");
}

#[test]
fn test_html_isolated_script() {
    let source = "<script>\n    let x = 1;\n    const y = \"hello\";\n</script>\n";
    let events = record_events("html", source);

    // Should have JS keyword highlighting
    assert_has_highlights(&events, &["keyword"], "HTML script injection");
    assert_text_highlighted(&events, "let", "keyword", "HTML script injection");
}

#[test]
fn test_html_mixed_content() {
    let source = "<!DOCTYPE html>\n<html>\n<head>\n    <style>\n        body { margin: 0; }\n    </style>\n</head>\n<body>\n    <h1>Hello</h1>\n    <script>\n        console.log(\"world\");\n    </script>\n</body>\n</html>\n";
    let events = record_events("html", source);

    // Should have both CSS and JS highlighting
    assert_has_highlights(&events, &["tag", "property", "string"], "HTML mixed content");
}

// ========================================================================
// Svelte Tests
// ========================================================================

#[test]
fn test_svelte_isolated_script() {
    let source = "<script>\n    let name = \"world\";\n    export let count = 0;\n</script>\n";
    let events = record_events("svelte", source);

    // Should have JS keyword highlighting
    assert_has_highlights(&events, &["keyword"], "Svelte script injection");
    assert_text_highlighted(&events, "let", "keyword", "Svelte script injection");
}

#[test]
fn test_svelte_isolated_style() {
    let source = "<style>\n    h1 {\n        color: red;\n        font-size: 2em;\n    }\n</style>\n";
    let events = record_events("svelte", source);

    // Should have CSS property highlighting
    assert_has_highlights(&events, &["property"], "Svelte style injection");
}

#[test]
fn test_svelte_template_expressions() {
    let source = "<h1>Hello {name}!</h1>\n<p>Count: {count + 1}</p>\n";
    let events = record_events("svelte", source);

    // Template expressions should be highlighted
    // The {name} and {count + 1} should have some highlighting
    assert!(!events.is_empty(), "Svelte template should produce events");
}

#[test]
fn test_svelte_full_component() {
    let source = "<script>\n    export let name = \"world\";\n    let count = 0;\n\n    function increment() {\n        count += 1;\n    }\n</script>\n\n<main>\n    <h1>Hello {name}!</h1>\n    <button on:click={increment}>\n        Clicked {count} times\n    </button>\n</main>\n\n<style>\n    main {\n        text-align: center;\n        padding: 1em;\n    }\n\n    h1 {\n        color: #ff3e00;\n    }\n\n    button {\n        background: #ff3e00;\n        color: white;\n    }\n</style>\n";
    let events = record_events("svelte", source);

    // Should have JS keywords
    assert_has_highlights(&events, &["keyword"], "Svelte full component - JS");
    assert_text_highlighted(&events, "export", "keyword", "Svelte full component");
    assert_text_highlighted(&events, "function", "keyword", "Svelte full component");

    // Should have CSS properties
    assert_has_highlights(&events, &["property"], "Svelte full component - CSS");
}

#[test]
fn test_svelte_typescript() {
    let source = "<script lang=\"ts\">\n    interface User {\n        name: string;\n        age: number;\n    }\n\n    let user: User = { name: \"Alice\", age: 30 };\n</script>\n";
    let events = record_events("svelte", source);

    // Should have TypeScript highlighting
    assert_has_highlights(&events, &["keyword"], "Svelte TypeScript");
}

// ========================================================================
// Vue Tests
// ========================================================================

#[test]
fn test_vue_isolated_script() {
    let source = "<script>\nexport default {\n    data() {\n        return { name: \"world\" };\n    }\n}\n</script>\n";
    let events = record_events("vue", source);

    // Should have JS keyword highlighting
    assert_has_highlights(&events, &["keyword"], "Vue script injection");
    assert_text_highlighted(&events, "export", "keyword", "Vue script injection");
}

#[test]
fn test_vue_isolated_style() {
    let source = "<style>\n.hello {\n    color: blue;\n    font-weight: bold;\n}\n</style>\n";
    let events = record_events("vue", source);

    // Should have CSS property highlighting
    assert_has_highlights(&events, &["property"], "Vue style injection");
}

#[test]
fn test_vue_scoped_style() {
    let source = "<style scoped>\n.hello {\n    color: red;\n}\n</style>\n";
    let events = record_events("vue", source);

    // Should have CSS property highlighting even with scoped attribute
    assert_has_highlights(&events, &["property"], "Vue scoped style injection");
}

#[test]
fn test_vue_full_sfc() {
    let source = "<template>\n    <div class=\"hello\">\n        <h1>{{ msg }}</h1>\n    </div>\n</template>\n\n<script>\nexport default {\n    name: 'HelloWorld',\n    props: {\n        msg: String\n    }\n}\n</script>\n\n<style scoped>\n.hello {\n    text-align: center;\n}\nh1 {\n    font-weight: normal;\n}\n</style>\n";
    let events = record_events("vue", source);

    // Should have JS keywords
    assert_has_highlights(&events, &["keyword"], "Vue SFC - JS");

    // Should have CSS properties
    assert_has_highlights(&events, &["property"], "Vue SFC - CSS");
}

#[test]
fn test_vue_typescript() {
    let source = "<script lang=\"ts\">\nimport { defineComponent } from 'vue';\n\ninterface Props {\n    msg: string;\n}\n\nexport default defineComponent({\n    props: {\n        msg: String\n    }\n});\n</script>\n";
    let events = record_events("vue", source);

    // Should have TypeScript highlighting
    assert_has_highlights(&events, &["keyword"], "Vue TypeScript");
}

// ========================================================================
// Edge Cases and Regression Tests
// ========================================================================

#[test]
fn test_empty_style_tag() {
    let source = "<style></style>";
    let events = record_events("html", source);
    // Should not crash
    assert!(!events.is_empty());
}

#[test]
fn test_empty_script_tag() {
    let source = "<script></script>";
    let events = record_events("html", source);
    // Should not crash
    assert!(!events.is_empty());
}

#[test]
fn test_svelte_only_template() {
    let source = "<div>\n    <h1>Hello World</h1>\n    <p>No script or style tags here</p>\n</div>\n";
    let events = record_events("svelte", source);
    // Should not crash and should have some content
    assert!(!events.is_empty());
}

#[test]
fn test_svelte_nested_braces() {
    let source = "<script>\n    let obj = { a: { b: { c: 1 } } };\n</script>\n";
    let events = record_events("svelte", source);
    assert_has_highlights(&events, &["keyword"], "Svelte nested braces");
}

#[test]
fn test_html_inline_event_handler() {
    let source = r#"<button onclick="alert('hello')">Click</button>"#;
    let events = record_events("html", source);
    // Should handle inline handlers
    assert!(!events.is_empty());
}

// ========================================================================
// The resolver
// ========================================================================

fn sources(events: &[HighlightEvent]) -> Vec<(usize, usize)> {
    events
        .iter()
        .filter_map(|e| match e {
            HighlightEvent::Source { start, end } => Some((*start, *end)),
            _ => None,
        })
        .collect()
}

fn assert_covers(events: &[HighlightEvent], len: usize) {
    let mut at = 0;
    let mut depth = 0usize;
    for event in events {
        match event {
            HighlightEvent::Source { start, end } => {
                assert_eq!(*start, at);
                assert!(start < end);
                at = *end;
            },
            HighlightEvent::HighlightStart { .. } => depth += 1,
            HighlightEvent::HighlightEnd => {
                assert!(depth > 0);
                depth -= 1;
            },
        }
    }
    assert_eq!(at, len);
    assert_eq!(depth, 0);
}

#[test]
fn style_block_is_injected_as_css() {
    let source = "<style>h1 { color: red; }</style>";
    let result = host().parse("html", source).unwrap();
    assert_eq!(result.injections.len(), 1);
    assert_eq!(result.injections[0].language, "css");
    assert_eq!((result.injections[0].start, result.injections[0].end), (7, 25));
    assert!(!result.injections[0].include_children);
    let property: Vec<_> = result.spans.iter().filter(|s| s.capture == "property").collect();
    assert_eq!(property.len(), 1);
    assert_eq!((property[0].start, property[0].end), (12, 17));
    assert_eq!(&source[12..17], "color");
}

#[test]
fn script_block_is_injected_as_javascript() {
    let source = "<script>let x = 1;</script>";
    let result = host().parse("html", source).unwrap();
    assert_eq!(result.injections.len(), 1);
    assert_eq!(result.injections[0].language, "javascript");
    assert_eq!((result.injections[0].start, result.injections[0].end), (8, 18));
    let keyword: Vec<_> = result.spans.iter().filter(|s| s.capture == "keyword").collect();
    assert_eq!(keyword.len(), 1);
    assert_eq!((keyword[0].start, keyword[0].end), (8, 11));
    assert_eq!(&source[8..11], "let");
}

#[test]
fn component_has_three_injections_and_no_gap() {
    let source = "<template><p>hi</p></template>\n<script>let a = 1;</script>\n<style>p { color: red; }</style>\n";
    let mut host = host();
    let result = host.parse("vue", source).unwrap();
    let languages: Vec<_> = result.injections.iter().map(|i| i.language.as_str()).collect();
    assert_eq!(languages, vec!["html", "javascript", "css"]);
    for pair in result.injections.windows(2) {
        assert!(pair[0].end <= pair[1].start);
    }
    for pair in result.spans.windows(2) {
        assert!(pair[0].end <= pair[1].start);
    }
    for span in &result.spans {
        assert!(span.start < span.end);
        assert!(span.end as usize <= source.len());
    }
    let events = host.highlight_events("vue", source).unwrap();
    assert_covers(&events, source.len());
    let names: Vec<_> = result.spans.iter().map(|s| s.capture.as_str()).collect();
    assert!(names.contains(&"tag"));
    assert!(names.contains(&"keyword"));
    assert!(names.contains(&"property"));
}

#[test]
fn event_stream_covers_the_whole_text() {
    for (language, source) in [
        ("html", "<p>text</p><style>a { b: c; }</style> tail"),
        ("svelte", "<h1>Hello {name}!</h1>"),
        ("javascript", "let a = 1; { a }"),
        ("css", "a { b: c }"),
    ] {
        let events = host().highlight_events(language, source).unwrap();
        assert_covers(&events, source.len());
    }
}

#[test]
fn empty_text_gives_no_events() {
    let events = host().highlight_events("html", "").unwrap();
    assert!(events.is_empty());
    let result = host().parse("html", "").unwrap();
    assert_eq!(result, arborium::wire::ParseResult::empty());
}

#[test]
fn self_injection_terminates() {
    let mut host = host();
    let highlighted = host.highlight("mirror", "abcdef").unwrap();
    let segments = highlighted.layering.segments();
    assert_eq!(segments.len(), 1);
    assert_eq!((segments[0].start, segments[0].end), (0, 6));
    // The language is not entered again on its own range: the range is plain.
    assert!(segments[0].layers.is_empty());
    assert_eq!(highlighted.embeddings.len(), 1);
}

#[test]
fn self_injection_on_a_smaller_range_nests_to_the_end() {
    let mut host = host();
    let highlighted = host.highlight("peel", "abcd").unwrap();
    let segments = highlighted.layering.segments();
    let seen: Vec<_> =
        segments.iter().map(|s| (s.start, s.end, s.layers.clone())).collect();
    assert_eq!(
        seen,
        vec![
            (0, 1, vec!["peel".to_string()]),
            (1, 2, vec!["peel".to_string()]),
            (2, 3, vec!["peel".to_string()]),
            (3, 4, vec!["peel".to_string()]),
        ]
    );
}

#[test]
fn unknown_language_is_reported() {
    let mut host = host();
    assert!(matches!(host.highlight("cobol", "x"), Err(HighlightError::UnsupportedLanguage)));
    assert!(matches!(host.parse("cobol", "x"), Err(HighlightError::UnsupportedLanguage)));
    assert!(matches!(
        host.highlight_events("cobol", "x"),
        Err(HighlightError::UnsupportedLanguage)
    ));
}

#[test]
fn scan_failure_of_the_text_is_reported() {
    let mut host = host();
    match host.highlight("broken", "x") {
        Err(HighlightError::Scan(e)) => assert_eq!(e.message, "cannot tokenize"),
        other => panic!("unexpected outcome: {:?}", other),
    }
}

#[test]
fn plugin_of_another_version_is_refused() {
    let mut host: Highlighter<Toy> = Highlighter::new();
    assert!(matches!(
        host.load(config("html", Toy::Markup), WIRE_VERSION + 1),
        Err(HighlightError::VersionMismatch)
    ));
    assert_eq!(host.len(), 0);
    assert!(host.load(config("html", Toy::Markup), WIRE_VERSION).is_ok());
    assert_eq!(host.len(), 1);
    assert_eq!(host.lookup("html"), Some(0));
    assert_eq!(host.lookup("css"), None);
}

#[test]
fn missing_languages_are_those_declared_and_not_loaded() {
    let mut host: Highlighter<Toy> = Highlighter::new();
    assert!(host.missing_languages().is_empty());
    let mut html = config("html", Toy::Markup);
    html.injection_languages = vec!["css".to_string(), "javascript".to_string()];
    let mut vue = config("vue", Toy::Component);
    vue.injection_languages =
        vec!["javascript".to_string(), "html".to_string(), "typescript".to_string()];
    host.load(html, WIRE_VERSION).unwrap();
    host.load(vue, WIRE_VERSION).unwrap();
    assert_eq!(host.missing_languages(), vec!["css", "javascript", "typescript"]);
    host.load(config("javascript", Toy::Script), WIRE_VERSION).unwrap();
    assert_eq!(host.missing_languages(), vec!["css", "typescript"]);
    host.load(config("css", Toy::Style), WIRE_VERSION).unwrap();
    host.load(config("typescript", Toy::Script), WIRE_VERSION).unwrap();
    assert!(host.missing_languages().is_empty());
}

#[test]
fn first_loaded_plugin_serves_a_language() {
    let mut host: Highlighter<Toy> = Highlighter::new();
    host.load(config("x", Toy::Script), WIRE_VERSION).unwrap();
    host.load(config("x", Toy::Broken), WIRE_VERSION).unwrap();
    assert_eq!(host.len(), 2);
    assert_eq!(host.lookup("x"), Some(0));
    assert!(host.highlight("x", "let a").is_ok());
}

#[test]
fn scan_failure_of_an_embedded_text_leaves_the_range_plain() {
    let mut host: Highlighter<Toy> = Highlighter::new();
    host.load(config("html", Toy::Markup), WIRE_VERSION).unwrap();
    host.load(config("css", Toy::Broken), WIRE_VERSION).unwrap();
    let source = "<style>h1 { color: red; }</style>";
    let result = host.parse("html", source).unwrap();
    assert!(result.spans.iter().all(|s| s.end <= 7 || s.start >= 25));
    assert_eq!(result.injections.len(), 1);
}

#[test]
fn embedded_range_that_cuts_a_character_stays_plain() {
    #[derive(Debug)]
    struct Cutting;
    impl Grammar for Cutting {
        fn scan(&self, text: &str, _: &str, _: &str, _: &str) -> Result<Scan, ParseError> {
            let mut scan = Scan::empty();
            if text.len() > 2 {
                scan.embeddings.push(embedding(1, text.len(), "cutting"));
                scan.captures.push(capture(0, text.len(), 0, "outer"));
            }
            Ok(scan)
        }
    }
    let mut host: Highlighter<Cutting> = Highlighter::new();
    host.load(
        HighlightConfig::new("cutting", Cutting, "(h)", "(i)", ""),
        WIRE_VERSION,
    )
    .unwrap();
    let highlighted = host.highlight("cutting", "€uro").unwrap();
    let seen: Vec<_> =
        highlighted.layering.segments().iter().map(|s| (s.start, s.end, s.layers.len())).collect();
    // the range from byte 1 on starts inside the first character
    assert_eq!(seen, vec![(0, 1, 1), (1, 6, 0)]);
}

#[test]
fn unavailable_injection_language_leaves_the_range_plain() {
    let mut host: Highlighter<Toy> = Highlighter::new();
    host.load(config("html", Toy::Markup), WIRE_VERSION).unwrap();
    let source = "<style>h1 { color: red; }</style>";
    let events = host.highlight_events("html", source).unwrap();
    assert_covers(&events, source.len());
    assert!(sources(&events).contains(&(7, 25)));
    let result = host.parse("html", source).unwrap();
    assert!(result.spans.iter().all(|s| s.capture != "property"));
    assert!(result.spans.iter().all(|s| s.end <= 7 || s.start >= 25));
}

#[test]
fn local_variable_is_recaptured() {
    let source = "let a = 1; a + b";
    let result = host().parse("javascript", source).unwrap();
    let seen: Vec<_> =
        result.spans.iter().map(|s| (s.start, s.end, s.capture.as_str())).collect();
    assert_eq!(
        seen,
        vec![
            (0, 3, "keyword"),
            (4, 5, "variable"),
            (8, 9, "number"),
            (11, 12, "variable.local"),
            (15, 16, "variable"),
        ]
    );
}

#[test]
fn definition_in_an_inner_scope_is_not_seen_outside() {
    let source = "{ let a = 1; a } a";
    let result = host().parse("javascript", source).unwrap();
    let seen: Vec<_> =
        result.spans.iter().map(|s| (s.start, s.end, s.capture.as_str())).collect();
    assert_eq!(
        seen,
        vec![
            (2, 5, "keyword"),
            (6, 7, "variable"),
            (10, 11, "number"),
            (13, 14, "variable.local"),
            (17, 18, "variable"),
        ]
    );
}

#[test]
fn merged_spans_are_sorted_apart_and_within_the_utf16_length() {
    let source = "<p title=\"žluťoučký 🐎\">漢字</p><style>h1 { color: red; }</style><script>let s = \"🐎\"; let t = s;</script>";
    let mut host = host();
    let result = host.parse("html", source).unwrap();
    let length = source.encode_utf16().count() as u32;
    assert!(!result.spans.is_empty());
    for span in &result.spans {
        assert!(span.start < span.end);
        assert!(span.end <= length);
    }
    for pair in result.spans.windows(2) {
        assert!(pair[0].end <= pair[1].start);
        assert!(pair[0].end < pair[1].start || pair[0].capture != pair[1].capture);
    }
    let units: Vec<u16> = source.encode_utf16().collect();
    let shown = |start: u32, end: u32| String::from_utf16(&units[start as usize..end as usize]).unwrap();
    let keywords: Vec<_> = result
        .spans
        .iter()
        .filter(|s| s.capture == "keyword")
        .map(|s| shown(s.start, s.end))
        .collect();
    assert_eq!(keywords, vec!["let", "let"]);
    let locals: Vec<_> = result
        .spans
        .iter()
        .filter(|s| s.capture == "variable.local")
        .map(|s| shown(s.start, s.end))
        .collect();
    assert_eq!(locals, vec!["s"]);
    let languages: Vec<_> = result
        .injections
        .iter()
        .map(|i| (i.language.as_str(), shown(i.start, i.end)))
        .collect();
    assert_eq!(
        languages,
        vec![
            ("css", "h1 { color: red; }".to_string()),
            ("javascript", "let s = \"🐎\"; let t = s;".to_string()),
        ]
    );
    // again, with nothing changed
    assert_eq!(host.parse("html", source).unwrap(), result);
}
