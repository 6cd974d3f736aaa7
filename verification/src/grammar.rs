//! The two kinds of line that count: headings and tasks.
use vstd::prelude::*;

use crate::text::{run, strip_end};

verus! {

/// A line `# title`: one to six hashes, blanks, the title, and optionally closing hashes.
/// The groups are the hashes and the title.
pub const HEADING_PATTERN: &'static str = r"^(#{1,6})[ \t]+(.*?)[ \t]*#*[ \t]*$";

/// A line `- [x] body`. The groups are the indentation, the mark and the body.
pub const TASK_PATTERN: &'static str = r"^([ \t]*)[-*+][ \t]+\[([ xX])\][ \t]+(.*)$";

/// The groups of a match, the whole match first; a group that took no part is `None`.
pub type Groups = Seq<Option<Seq<char>>>;

/// A space or a tab.
pub open spec fn blank(c: char) -> bool {
    c == ' ' || c == '\t'
}

/// How many blanks `s` starts with.
pub open spec fn blank_run(s: Seq<char>) -> nat {
    run(s, |c: char| blank(c))
}

/// How many hashes `s` starts with.
pub open spec fn hash_run(s: Seq<char>) -> nat {
    run(s, |c: char| c == '#')
}

pub open spec fn without_end_blanks(s: Seq<char>) -> Seq<char> {
    strip_end(s, |c: char| blank(c))
}

pub open spec fn without_end_hashes(s: Seq<char>) -> Seq<char> {
    strip_end(s, |c: char| c == '#')
}

/// A title without the longest end of the form: blanks, hashes, blanks.
pub open spec fn without_closing(s: Seq<char>) -> Seq<char> {
    without_end_blanks(without_end_hashes(without_end_blanks(s)))
}

/// What `HEADING_PATTERN` finds in `line`.
pub open spec fn heading_groups(line: Seq<char>) -> Option<Groups> {
    let level = hash_run(line) as int;
    let rest = line.skip(level);
    let gap = blank_run(rest) as int;
    if 1 <= level <= 6 && gap >= 1 && !line.contains('\n') {
        Some(seq![Some(line), Some(line.take(level)), Some(without_closing(rest.skip(gap)))])
    } else {
        None
    }
}

/// What `TASK_PATTERN` finds in `line`.
pub open spec fn task_groups(line: Seq<char>) -> Option<Groups> {
    let indent = blank_run(line) as int;
    let bullet = line.skip(indent);
    let gap = blank_run(bullet.skip(1)) as int;
    let bracket = bullet.skip(1 + gap);
    let space = blank_run(bracket.skip(3)) as int;
    if {
        &&& bullet.len() > 0
        &&& bullet[0] == '-' || bullet[0] == '*' || bullet[0] == '+'
        &&& gap >= 1
        &&& bracket.len() > 3
        &&& bracket[0] == '['
        &&& bracket[1] == ' ' || bracket[1] == 'x' || bracket[1] == 'X'
        &&& bracket[2] == ']'
        &&& space >= 1
        &&& !line.contains('\n')
    } {
        Some(
            seq![
                Some(line),
                Some(line.take(indent)),
                Some(bracket.subrange(1, 2)),
                Some(bracket.skip(3 + space)),
            ],
        )
    } else {
        None
    }
}

} // verus!
