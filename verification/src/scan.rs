//! A scan: which files are read, and what is gathered from them.
use regex::Regex;
use vstd::prelude::*;

use crate::extract::extract;
#[allow(unused_imports)]
use crate::extract::items_of;
use crate::grammar::{HEADING_PATTERN, TASK_PATTERN};
use crate::item::{copy_bytes, Item};
#[allow(unused_imports)]
use crate::item::{item_views, ItemView};
use crate::order::sort_items;
#[allow(unused_imports)]
use crate::order::stably_sorted;
use crate::path::{display_path, is_markdown};
#[allow(unused_imports)]
use crate::path::{markdown_path, shown_path};
use crate::pattern::compile_patterns;
#[allow(unused_imports)]
use crate::pattern::regex_pattern;

verus! {

/// What a walk over the directories came to.
pub struct Entry {
    pub path: Vec<u8>,
    pub is_file: bool,
}

/// A file that was read: its path as the walk gave it, and its text.
pub ghost struct ReadFile {
    pub raw: Seq<u8>,
    pub content: Seq<char>,
}

/// The items of one file, under the path that is shown.
pub open spec fn items_of_file(file: ReadFile) -> Seq<ItemView> {
    items_of(shown_path(file.raw), file.content)
}

/// The items of files, file after file.
pub open spec fn items_of_files(files: Seq<ReadFile>) -> Seq<ItemView>
    decreases files.len(),
{
    if files.len() == 0 {
        Seq::empty()
    } else {
        items_of_files(files.drop_last()) + items_of_file(files.last())
    }
}

/// What the walk came to: a path, and whether a file is there.
pub ghost struct EntryView {
    pub path: Seq<u8>,
    pub is_file: bool,
}

impl View for Entry {
    type V = EntryView;

    open spec fn view(&self) -> EntryView {
        EntryView { path: self.path@, is_file: self.is_file }
    }
}

/// What the walk came to, if it could be had.
pub open spec fn entry_view(entry: Option<&Entry>) -> Option<EntryView> {
    match entry {
        Some(e) => Some(e@),
        None => None,
    }
}

/// The file to read for an entry: the entry's own, if it is a file whose name is that of a
/// Markdown file. For an entry that could not be had there is none.
pub open spec fn wanted(entry: Option<EntryView>) -> Option<Seq<u8>> {
    match entry {
        Some(e) => if e.is_file && markdown_path(e.path) {
            Some(e.path)
        } else {
            None
        },
        None => None,
    }
}

/// The files read after one more: one whose text could not be had does not count.
pub open spec fn taking_in(
    files: Seq<ReadFile>,
    raw: Seq<u8>,
    content: Option<Seq<char>>,
) -> Seq<ReadFile> {
    match content {
        Some(text) => files.push(ReadFile { raw, content: text }),
        None => files,
    }
}

/// What a text holds, if there is one.
pub open spec fn text_view(content: Option<&str>) -> Option<Seq<char>> {
    match content {
        Some(text) => Some(text@),
        None => None,
    }
}

/// One step of a walk: what it came to, and the text of the file there, if it could be read.
pub ghost struct Visit {
    pub entry: Option<EntryView>,
    pub content: Option<Seq<char>>,
}

/// The files read after one step more: the text of the file that is wanted is taken in.
pub open spec fn visiting(files: Seq<ReadFile>, visit: Visit) -> Seq<ReadFile> {
    match wanted(visit.entry) {
        Some(raw) => taking_in(files, raw, visit.content),
        None => files,
    }
}

/// The files that a walk reads.
pub open spec fn files_of_walk(walk: Seq<Visit>) -> Seq<ReadFile>
    decreases walk.len(),
{
    if walk.len() == 0 {
        Seq::empty()
    } else {
        visiting(files_of_walk(walk.drop_last()), walk.last())
    }
}

/// Which file to read for an entry of the walk, if any.
pub fn file_to_read(entry: Option<&Entry>) -> (path: Option<Vec<u8>>)
    ensures
        wanted(entry_view(entry)) == match path {
            Some(p) => Some(p@),
            None => None,
        },
{
    match entry {
        Some(e) => if e.is_file && is_markdown(e.path.as_slice()) {
            Some(copy_bytes(e.path.as_slice()))
        } else {
            None
        },
        None => None,
    }
}

/// A scan under way: the two patterns, and the items found so far.
pub struct Scanner {
    heading_re: Regex,
    task_re: Regex,
    items: Vec<Item>,
    files: Ghost<Seq<ReadFile>>,
}

impl Scanner {
    /// The files that were read, in the order in which they came.
    pub closed spec fn files(&self) -> Seq<ReadFile> {
        self.files@
    }

    pub closed spec fn wf(&self) -> bool {
        &&& regex_pattern(self.heading_re) == HEADING_PATTERN@
        &&& regex_pattern(self.task_re) == TASK_PATTERN@
        &&& item_views(self.items@) == items_of_files(self.files@)
    }

    /// A scan that has read nothing yet.
    pub fn new() -> (res: Result<Scanner, String>)
        ensures
            res matches Ok(scanner) && scanner.wf() && scanner.files() == Seq::<ReadFile>::empty(),
    {
        match compile_patterns() {
            Ok((heading_re, task_re)) => Ok(Scanner::with_patterns(heading_re, task_re)),
            Err(e) => Err(e),
        }
    }

    /// A scan with patterns that are compiled already.
    pub fn with_patterns(heading_re: Regex, task_re: Regex) -> (scanner: Scanner)
        requires
            regex_pattern(heading_re) == HEADING_PATTERN@,
            regex_pattern(task_re) == TASK_PATTERN@,
        ensures
            scanner.wf(),
            scanner.files() == Seq::<ReadFile>::empty(),
    {
        let scanner = Scanner { heading_re, task_re, items: Vec::new(), files: Ghost(Seq::empty()) };
        assert(item_views(scanner.items@) == Seq::<ItemView>::empty());
        scanner
    }

    /// Takes in the text of a file. One whose text could not be read (`None`) is passed over.
    pub fn add_file(&mut self, raw: &[u8], content: Option<&str>)
        requires
            old(self).wf(),
        ensures
            final(self).wf(),
            final(self).files() == taking_in(old(self).files(), raw@, text_view(content)),
    {
        if let Some(text) = content {
            let shown = display_path(raw);
            let mut found = extract(shown.as_slice(), text, &self.heading_re, &self.task_re);
            let ghost file = ReadFile { raw: raw@, content: text@ };
            let ghost before = item_views(self.items@);
            let ghost added = item_views(found@);
            let ghost files = self.files@;
            self.items.append(&mut found);
            self.files = Ghost(files.push(file));
            proof {
                assert(item_views(self.items@) == before + added);
                assert(files.push(file).drop_last() == files);
            }
        }
    }

    /// Goes one step of the walk: takes in the text of the entry's file, if that file is wanted
    /// and its text could be read.
    pub fn visit(&mut self, entry: Option<&Entry>, content: Option<&str>)
        requires
            old(self).wf(),
        ensures
            final(self).wf(),
            final(self).files() == visiting(
                old(self).files(),
                (Visit { entry: entry_view(entry), content: text_view(content) }),
            ),
    {
        if let Some(raw) = file_to_read(entry) {
            self.add_file(raw.as_slice(), content);
        }
    }

    /// The items of all files, in order of path and line.
    pub fn finish(self) -> (items: Vec<Item>)
        requires
            self.wf(),
        ensures
            stably_sorted(items_of_files(self.files()), item_views(items@)),
    {
        sort_items(self.items)
    }
}

} // verus!
