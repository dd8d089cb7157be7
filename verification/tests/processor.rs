use arborium::names::is_known;
use arborium::processor::{
    is_page, is_patched, is_stylesheet_name, patch_css, plan_copy, CopyAction,
    ProcessError, ProcessOptions, Processor, ProcessorStats, TransformResult,
};

fn options(input: &str, output: Option<&str>) -> ProcessOptions {
    ProcessOptions {
        input_dir: input.to_string(),
        output_dir: output.map(|o| o.to_string()),
        verbose: false,
    }
}

fn page(highlighted: usize, skipped: usize, unsupported: &[&str]) -> TransformResult {
    TransformResult {
        blocks_highlighted: highlighted,
        blocks_skipped: skipped,
        unsupported_languages: unsupported.iter().map(|l| l.to_string()).collect(),
    }
}

#[test]
fn works_in_place_without_an_output_directory() {
    let processor = Processor::new(options("target/doc", None));
    assert_eq!(processor.output_dir(), "target/doc");
    assert!(!processor.copies_first());
    assert!(!processor.verbose());
}

#[test]
fn copies_to_another_output_directory_first() {
    let processor = Processor::new(options("target/doc", Some("out")));
    assert_eq!(processor.output_dir(), "out");
    assert!(processor.copies_first());
}

#[test]
fn does_not_copy_onto_itself() {
    let processor = Processor::new(options("target/doc", Some("target/doc")));
    assert_eq!(processor.output_dir(), "target/doc");
    assert!(!processor.copies_first());
}

#[test]
fn verbose_is_as_set() {
    let mut set = options("in", None);
    set.verbose = true;
    assert!(Processor::new(set).verbose());
}

#[test]
fn stylesheet_is_found_by_its_name() {
    assert!(is_stylesheet_name("rustdoc-b0742ba02757f159.css"));
    assert!(is_stylesheet_name("rustdoc-.css"));
    assert!(!is_stylesheet_name("rustdoc.css"));
    assert!(!is_stylesheet_name("rustdoc-b0742ba02757f159.css.map"));
    assert!(!is_stylesheet_name("normalize-76eba96aa4d2e634.css"));
    assert!(!is_stylesheet_name("rustdoc-"));
    assert!(!is_stylesheet_name(".css"));
    assert!(!is_stylesheet_name(""));
}

#[test]
fn stylesheet_is_patched_once() {
    let theme = "\n/* arborium syntax highlighting */\na-k { color: red }\n";
    let plain = "body { margin: 0 }".to_string();
    assert!(!is_patched(&plain));
    let patched = patch_css(plain.clone(), theme).unwrap();
    assert_eq!(patched, format!("{}{}", plain, theme));
    assert!(is_patched(&patched));
    assert_eq!(patch_css(patched, theme), None);
}

#[test]
fn pages_are_found_by_their_extension() {
    assert!(is_page("index.html"));
    assert!(is_page("doc/krate/struct.Foo.html"));
    assert!(is_page("a/..html"));
    assert!(!is_page("index.htm"));
    assert!(!is_page("index.html.bak"));
    assert!(!is_page("doc/.html"));
    assert!(!is_page(".html"));
    assert!(!is_page("html"));
    assert!(!is_page(""));
    assert!(!is_page("style.css"));
}

#[test]
fn entries_are_copied_by_their_kind() {
    assert_eq!(plan_copy(true, false), CopyAction::Link);
    assert_eq!(plan_copy(true, true), CopyAction::Link);
    assert_eq!(plan_copy(false, true), CopyAction::Descend);
    assert_eq!(plan_copy(false, false), CopyAction::Copy);
}

#[test]
fn page_is_written_only_where_something_changed() {
    assert!(!page(0, 3, &[]).changed());
    assert!(page(1, 0, &[]).changed());
}

#[test]
fn statistics_start_empty() {
    let stats = ProcessorStats::default();
    assert_eq!(stats.files_processed, 0);
    assert_eq!(stats.blocks_highlighted, 0);
    assert_eq!(stats.blocks_skipped, 0);
    assert_eq!(stats.css_file_modified, None);
    assert!(stats.unsupported_languages.is_empty());
}

#[test]
fn statistics_add_up_and_name_each_language_once() {
    let mut stats = ProcessorStats::default();
    stats.css_file_modified = Some("static.files/rustdoc-1.css".to_string());
    stats.absorb(&page(2, 1, &["nix", "cobol"]));
    stats.absorb(&page(0, 4, &["cobol", "apl", "nix", "apl"]));
    stats.absorb(&page(5, 0, &[]));
    assert_eq!(stats.files_processed, 3);
    assert_eq!(stats.blocks_highlighted, 7);
    assert_eq!(stats.blocks_skipped, 5);
    assert_eq!(stats.unsupported_languages, vec!["nix", "cobol", "apl"]);
    assert_eq!(stats.css_file_modified.as_deref(), Some("static.files/rustdoc-1.css"));
}

#[test]
fn known_names() {
    let have = vec!["a".to_string(), "b".to_string()];
    assert!(is_known(&have, &"a".to_string()));
    assert!(is_known(&have, &"b".to_string()));
    assert!(!is_known(&have, &"c".to_string()));
    assert!(!is_known(&Vec::new(), &"a".to_string()));
}

#[test]
fn errors_say_what_failed() {
    assert_eq!(ProcessError::Io("disk full".to_string()).message(), "IO error: disk full");
    assert_eq!(
        ProcessError::Transform("unclosed tag".to_string()).message(),
        "Transform error: unclosed tag"
    );
}
