//! The decisions of the tool that highlights the code blocks of generated
//! documentation.
//!
//! The tool walks a directory of generated pages, patches the theme stylesheet
//! and rewrites each page. What it reads and writes is not this library's
//! business; which files it takes, what it appends, when it writes and how it
//! keeps count is.

use crate::names::{is_known, known};
use crate::text::{contains, ends_with, has_prefix, has_suffix, has_within, starts_with};
use vstd::prelude::*;
use vstd::string::{StringExecFns, StringSliceAdditionalSpecFns};
use vstd::utf8::encode_utf8;

verus! {

/// How the tool is to run.
#[derive(Debug, Clone)]
pub struct ProcessOptions {
    /// The directory that holds the generated pages.
    pub input_dir: String,
    /// The directory to write to. `None` rewrites the pages in place.
    pub output_dir: Option<String>,
    /// Whether to report each page as it is taken up.
    pub verbose: bool,
}

/// What a run of the tool came to.
#[derive(Debug)]
pub struct ProcessorStats {
    /// The number of pages processed.
    pub files_processed: usize,
    /// The number of code blocks highlighted.
    pub blocks_highlighted: usize,
    /// The number of code blocks left as they were.
    pub blocks_skipped: usize,
    /// The stylesheet that was patched, if one was found.
    pub css_file_modified: Option<String>,
    /// The languages met for which no grammar is loaded, each once, in the
    /// order in which they were first met.
    pub unsupported_languages: Vec<String>,
}

/// What rewriting one page came to.
#[derive(Debug)]
pub struct TransformResult {
    /// The number of code blocks highlighted in the page.
    pub blocks_highlighted: usize,
    /// The number of code blocks left as they were.
    pub blocks_skipped: usize,
    /// The languages met in the page for which no grammar is loaded.
    pub unsupported_languages: Vec<String>,
}

/// Why the tool failed.
#[derive(Debug)]
pub enum ProcessError {
    /// Reading or writing failed. Holds the description of the failure.
    Io(String),
    /// Rewriting a page failed. Holds the description of the failure.
    Transform(String),
}

/// What to do with one entry of a directory that is being copied.
#[derive(Debug, Clone, Copy, PartialEq, Eq, Structural)]
pub enum CopyAction {
    /// The entry is a symbolic link: make a link to the same target.
    Link,
    /// The entry is a directory: copy what is in it.
    Descend,
    /// The entry is a file: copy it.
    Copy,
}

/// The tool, set up for one run.
pub struct Processor {
    options: ProcessOptions,
}

/// The names `have` with those of `more` that are new, each added once, in
/// the order of `more`.
pub open spec fn gathered(have: Seq<String>, more: Seq<String>) -> Seq<String>
    decreases more.len(),
{
    if more.len() == 0 {
        have
    } else {
        let before = gathered(have, more.drop_last());
        if known(before, more.last()@) {
            before
        } else {
            before.push(more.last())
        }
    }
}

/// The start of the name of the theme stylesheet.
pub open spec fn stylesheet_prefix() -> Seq<u8> {
    "rustdoc-".spec_bytes()
}

/// The end of the name of the theme stylesheet.
pub open spec fn stylesheet_suffix() -> Seq<u8> {
    ".css".spec_bytes()
}

/// The mark that a patched stylesheet carries.
pub open spec fn patch_mark() -> Seq<u8> {
    "/* arborium syntax highlighting".spec_bytes()
}

/// The end of the name of a page.
pub open spec fn page_suffix() -> Seq<u8> {
    ".html".spec_bytes()
}

/// The path names a page: it ends in `.html`, and the file name is more than
/// that ending.
pub open spec fn names_page(path: Seq<u8>) -> bool {
    &&& ends_with(path, page_suffix())
    &&& path.len() > page_suffix().len()
    &&& path[path.len() - page_suffix().len() - 1] != 0x2f
}

/// Whether `name` is the file name of the theme stylesheet.
pub fn is_stylesheet_name(name: &str) -> (matches: bool)
    ensures
        matches == (starts_with(name.spec_bytes(), stylesheet_prefix()) && ends_with(
            name.spec_bytes(),
            stylesheet_suffix(),
        )),
{
    has_prefix(name.as_bytes(), "rustdoc-".as_bytes()) && has_suffix(
        name.as_bytes(),
        ".css".as_bytes(),
    )
}

/// Whether the stylesheet `css` has been patched before.
pub fn is_patched(css: &str) -> (patched: bool)
    ensures
        patched == contains(css.spec_bytes(), patch_mark()),
{
    has_within(css.as_bytes(), "/* arborium syntax highlighting".as_bytes())
}

/// The stylesheet to write in place of `css`: `css` with `theme` appended.
/// `None` where `css` has been patched before and is to be left alone.
pub fn patch_css(css: String, theme: &str) -> (patched: Option<String>)
    ensures
        patched is None <==> contains(encode_utf8(css@), patch_mark()),
        patched matches Some(p) ==> p@ == css@ + theme@,
{
    if is_patched(css.as_str()) {
        None
    } else {
        Some(css.concat(theme))
    }
}

/// Whether `path` names a page that the tool is to process.
pub fn is_page(path: &str) -> (page: bool)
    ensures
        page == names_page(path.spec_bytes()),
{
    let bytes = path.as_bytes();
    let ending = ".html".as_bytes();
    if !has_suffix(bytes, ending) {
        return false;
    }
    if bytes.len() <= ending.len() {
        return false;
    }
    bytes[bytes.len() - ending.len() - 1] != 0x2f
}

/// What to do with an entry of a directory that is being copied. A link to a
/// directory is a link.
pub fn plan_copy(is_symlink: bool, is_dir: bool) -> (action: CopyAction)
    ensures
        action == if is_symlink {
            CopyAction::Link
        } else if is_dir {
            CopyAction::Descend
        } else {
            CopyAction::Copy
        },
{
    if is_symlink {
        CopyAction::Link
    } else if is_dir {
        CopyAction::Descend
    } else {
        CopyAction::Copy
    }
}

impl TransformResult {
    /// Whether the page is to be written back: only where a block was highlighted.
    pub fn changed(&self) -> (changed: bool)
        ensures
            changed == (self.blocks_highlighted > 0),
    {
        self.blocks_highlighted > 0
    }
}

impl Default for ProcessorStats {
    fn default() -> (stats: Self)
        ensures
            stats.files_processed == 0,
            stats.blocks_highlighted == 0,
            stats.blocks_skipped == 0,
            stats.css_file_modified is None,
            stats.unsupported_languages@ == Seq::<String>::empty(),
    {
        ProcessorStats {
            files_processed: 0,
            blocks_highlighted: 0,
            blocks_skipped: 0,
            css_file_modified: None,
            unsupported_languages: Vec::new(),
        }
    }
}

impl ProcessorStats {
    /// Counts one processed page in.
    pub fn absorb(&mut self, result: &TransformResult)
        requires
            old(self).files_processed < usize::MAX,
            old(self).blocks_highlighted + result.blocks_highlighted <= usize::MAX,
            old(self).blocks_skipped + result.blocks_skipped <= usize::MAX,
        ensures
            final(self).files_processed == old(self).files_processed + 1,
            final(self).blocks_highlighted == old(self).blocks_highlighted
                + result.blocks_highlighted,
            final(self).blocks_skipped == old(self).blocks_skipped + result.blocks_skipped,
            final(self).css_file_modified == old(self).css_file_modified,
            final(self).unsupported_languages@ == gathered(
                old(self).unsupported_languages@,
                result.unsupported_languages@,
            ),
    {
        self.files_processed += 1;
        self.blocks_highlighted += result.blocks_highlighted;
        self.blocks_skipped += result.blocks_skipped;
        let ghost have = self.unsupported_languages@;
        let more = &result.unsupported_languages;
        let mut i: usize = 0;
        proof {
            assert(more@.take(0) =~= Seq::<String>::empty());
        }
        while i < more.len()
            invariant
                i <= more.len(),
                self.files_processed == old(self).files_processed + 1,
                self.blocks_highlighted == old(self).blocks_highlighted + result.blocks_highlighted,
                self.blocks_skipped == old(self).blocks_skipped + result.blocks_skipped,
                self.css_file_modified == old(self).css_file_modified,
                self.unsupported_languages@ == gathered(have, more@.take(i as int)),
            decreases more.len() - i,
        {
            proof {
                assert(more@.take(i + 1).drop_last() =~= more@.take(i as int));
                assert(more@.take(i + 1).last() == more@[i as int]);
            }
            if !is_known(&self.unsupported_languages, &more[i]) {
                self.unsupported_languages.push(more[i].clone());
            }
            i += 1;
        }
        proof {
            assert(more@.take(more.len() as int) =~= more@);
        }
    }
}

impl ProcessError {
    /// The failure in words.
    pub fn message(&self) -> (text: String)
        ensures
            text@ == match *self {
                ProcessError::Io(e) => "IO error: "@ + e@,
                ProcessError::Transform(e) => "Transform error: "@ + e@,
            },
    {
        match self {
            ProcessError::Io(e) => String::from_str("IO error: ").concat(e.as_str()),
            ProcessError::Transform(e) => String::from_str("Transform error: ").concat(e.as_str()),
        }
    }
}

impl Processor {
    /// The tool, set up with `options`.
    pub fn new(options: ProcessOptions) -> (processor: Self)
        ensures
            processor.options() == options,
    {
        Self { options }
    }

    /// The options that the tool was set up with.
    pub closed spec fn options(&self) -> ProcessOptions {
        self.options
    }

    /// The directory that the tool works in: the output directory where one
    /// is set, else the input directory.
    pub fn output_dir(&self) -> (dir: &String)
        ensures
            *dir == match self.options().output_dir {
                Some(out) => out,
                None => self.options().input_dir,
            },
    {
        match &self.options.output_dir {
            Some(out) => out,
            None => &self.options.input_dir,
        }
    }

    /// Whether the input directory is to be copied to the output directory
    /// before anything else: where an output directory is set and is another
    /// than the input directory.
    pub fn copies_first(&self) -> (copies: bool)
        ensures
            copies == match self.options().output_dir {
                Some(out) => out@ != self.options().input_dir@,
                None => false,
            },
    {
        match &self.options.output_dir {
            Some(out) => !(*out == self.options.input_dir),
            None => false,
        }
    }

    /// Whether each page is to be reported as it is taken up.
    pub fn verbose(&self) -> (verbose: bool)
        ensures
            verbose == self.options().verbose,
    {
        self.options.verbose
    }
}

} // verus!
