//! The items of one file.
use regex::Regex;
#[allow(unused_imports)]
use vstd::arithmetic::div_mod::{
    lemma_fundamental_div_mod, lemma_fundamental_div_mod_converse, lemma_small_mod,
};
use vstd::prelude::*;
use vstd::string::is_ascii_spec_bytes;

use crate::grammar::{HEADING_PATTERN, TASK_PATTERN};
use crate::item::{copy_bytes, Item, ItemKind};
#[allow(unused_imports)]
use crate::grammar::{hash_run, heading_groups, task_groups};
#[allow(unused_imports)]
use crate::item::{item_views, ItemView, KindView};
use crate::pattern::captures;
#[allow(unused_imports)]
use crate::pattern::{groups_view, regex_pattern};
use crate::text::{chars_of, lines, trim, trim_end};
#[allow(unused_imports)]
use crate::text::{lemma_run_bound, lines_of, string_views, trimmed, trimmed_end};

verus! {

/// How wide a text is on the screen: a tab counts as four spaces.
pub open spec fn visual_width(s: Seq<char>) -> nat
    decreases s.len(),
{
    if s.len() == 0 {
        0
    } else {
        visual_width(s.drop_last()) + if s.last() == '\t' {
            4nat
        } else {
            1nat
        }
    }
}

/// What a `usize` keeps of a count: up to its greatest value the count itself, and beyond it
/// what remains when counting starts again from 0.
pub open spec fn in_usize(n: nat) -> nat {
    if n <= usize::MAX {
        n
    } else {
        n % (usize::MAX + 1) as nat
    }
}

/// The heading with this level and this title.
pub open spec fn heading_of(path: Seq<u8>, line: nat, level: nat, title: Seq<char>) -> ItemView {
    ItemView { path, line, kind: KindView::Heading(level, trimmed(title)) }
}

/// The task with this indentation, this mark and this text.
pub open spec fn task_of(
    path: Seq<u8>,
    line: nat,
    indent: Seq<char>,
    mark: Seq<char>,
    body: Seq<char>,
) -> ItemView {
    ItemView {
        path,
        line,
        kind: KindView::Task {
            done: mark == seq!['x'] || mark == seq!['X'],
            indent: in_usize(visual_width(indent)),
            body: trimmed_end(body),
        },
    }
}

/// The item that a line holds, if it holds one.
pub open spec fn item_of(path: Seq<u8>, line: nat, text: Seq<char>) -> Option<ItemView> {
    match heading_groups(text) {
        Some(groups) => Some(heading_of(path, line, groups[1]->0.len(), groups[2]->0)),
        None => match task_groups(text) {
            Some(groups) => Some(
                task_of(path, line, groups[1]->0, groups[2]->0, groups[3]->0),
            ),
            None => None,
        },
    }
}

/// The items that the lines hold, in the order of the lines, which are counted from 1.
pub open spec fn items_of_lines(path: Seq<u8>, texts: Seq<Seq<char>>) -> Seq<ItemView>
    decreases texts.len(),
{
    if texts.len() == 0 {
        Seq::empty()
    } else {
        let before = items_of_lines(path, texts.drop_last());
        match item_of(path, texts.len(), texts.last()) {
            Some(item) => before.push(item),
            None => before,
        }
    }
}

/// The items of a file with this path and this content.
pub open spec fn items_of(path: Seq<u8>, content: Seq<char>) -> Seq<ItemView> {
    items_of_lines(path, lines_of(content))
}

/// How wide a text is on the screen, with a tab counted as four spaces. The sum wraps round
/// where a `usize` cannot hold it.
pub fn visual_indent(s: &str) -> (width: usize)
    ensures
        width == in_usize(visual_width(s@)),
{
    let chars = chars_of(s);
    let mut width: usize = 0;
    let mut i: usize = 0;
    while i < chars.len()
        invariant
            i <= chars@.len(),
            chars@ == s@,
            width == in_usize(visual_width(s@.take(i as int))),
        decreases chars.len() - i,
    {
        let more: usize = if chars[i] == '\t' {
            4
        } else {
            1
        };
        proof {
            assert(s@.take(i + 1).drop_last() == s@.take(i as int));
            lemma_in_usize_step(visual_width(s@.take(i as int)), more as nat);
        }
        width = width.wrapping_add(more);
        i += 1;
    }
    assert(s@.take(s@.len() as int) == s@);
    width
}

/// Counting on from what a `usize` keeps of a count.
proof fn lemma_in_usize_step(n: nat, more: nat)
    requires
        more <= usize::MAX,
    ensures
        in_usize(n) <= usize::MAX,
        in_usize(n + more) == if in_usize(n) + more <= usize::MAX {
            in_usize(n) + more as int
        } else {
            in_usize(n) + more - usize::MAX - 1
        },
{
    let d = usize::MAX + 1;
    let q = n as int / d;
    let r = n as int % d;
    lemma_fundamental_div_mod(n as int, d);
    assert(d * q == q * d) by (nonlinear_arith);
    assert((q + 1) * d == q * d + d) by (nonlinear_arith);
    if n <= usize::MAX {
        lemma_small_mod(n, d as nat);
    }
    if r + more < d {
        lemma_fundamental_div_mod_converse((n + more) as int, d, q, r + more);
    } else {
        lemma_fundamental_div_mod_converse((n + more) as int, d, q + 1, r + more - d);
    }
    if n + more <= usize::MAX {
        lemma_small_mod(n + more, d as nat);
    }
}

/// The heading with these hashes and this title.
pub fn heading_item(path: &[u8], line: usize, hashes: &str, title: &str) -> (item: Item)
    ensures
        item@.path == path@,
        item.line == line,
        item.kind matches ItemKind::Heading(level, text) && level == hashes.len() as u8 && text@
            == trimmed(title@),
{
    Item {
        path: copy_bytes(path),
        line,
        kind: ItemKind::Heading(hashes.len() as u8, trim(title)),
    }
}

/// The task with this indentation, this mark between its brackets and this text.
pub fn task_item(path: &[u8], line: usize, indent: &str, mark: &str, body: &str) -> (item: Item)
    ensures
        item@ == task_of(path@, line as nat, indent@, mark@, body@),
{
    let width = visual_indent(indent);
    let chars = chars_of(mark);
    let done = chars.len() == 1 && (chars[0] == 'x' || chars[0] == 'X');
    proof {
        assert(done == (mark@ == seq!['x'] || mark@ == seq!['X'])) by {
            if chars@.len() == 1 {
                assert(mark@ == seq![mark@[0]]);
            }
            assert(seq!['x'][0] == 'x');
            assert(seq!['X'][0] == 'X');
        }
    }
    Item {
        path: copy_bytes(path),
        line,
        kind: ItemKind::Task { done, indent: width, body: trim_end(body) },
    }
}

/// The items of a file: the headings and tasks of its lines, in order.
pub fn extract(path: &[u8], content: &str, heading_re: &Regex, task_re: &Regex) -> (out: Vec<Item>)
    requires
        regex_pattern(*heading_re) == HEADING_PATTERN@,
        regex_pattern(*task_re) == TASK_PATTERN@,
    ensures
        item_views(out@) == items_of(path@, content@),
{
    let texts = lines(content);
    let ghost views = lines_of(content@);
    let mut out: Vec<Item> = Vec::new();
    let mut i: usize = 0;
    assert(item_views(out@) == items_of_lines(path@, views.take(0)));
    while i < texts.len()
        invariant
            i <= texts@.len(),
            views == string_views(texts@),
            views == lines_of(content@),
            regex_pattern(*heading_re) == HEADING_PATTERN@,
            regex_pattern(*task_re) == TASK_PATTERN@,
            item_views(out@) == items_of_lines(path@, views.take(i as int)),
        decreases texts.len() - i,
    {
        let line: usize = i + 1;
        let ghost text = views[i as int];
        let ghost before = out@;
        proof {
            assert(views.take(i + 1).drop_last() == views.take(i as int));
            assert(views.take(i + 1).last() == text);
        }
        let found = line_item(path, line, texts[i].as_str(), heading_re, task_re);
        if let Some(item) = found {
            out.push(item);
            assert(item_views(out@) == item_views(before).push(item@));
        }
        i += 1;
    }
    assert(views.take(views.len() as int) == views);
    out
}

/// The item that one line holds, if it holds one.
pub fn line_item(
    path: &[u8],
    line: usize,
    text: &str,
    heading_re: &Regex,
    task_re: &Regex,
) -> (found: Option<Item>)
    requires
        regex_pattern(*heading_re) == HEADING_PATTERN@,
        regex_pattern(*task_re) == TASK_PATTERN@,
    ensures
        match found {
            Some(item) => item_of(path@, line as nat, text@) == Some(item@),
            None => item_of(path@, line as nat, text@) is None,
        },
{
    if let Some(groups) = captures(heading_re, text) {
        let ghost view = groups_view(groups@);
        proof {
            assert(view.len() == 3);
            assert(view[1] == heading_groups(text@)->0[1]);
            assert(view[2] == heading_groups(text@)->0[2]);
        }
        let hashes = group(&groups, 1);
        proof {
            lemma_hashes_are_ascii(text@);
            is_ascii_spec_bytes(hashes);
        }
        Some(heading_item(path, line, hashes, group(&groups, 2)))
    } else if let Some(groups) = captures(task_re, text) {
        let ghost view = groups_view(groups@);
        proof {
            assert(view.len() == 4);
            assert(view[1] == task_groups(text@)->0[1]);
            assert(view[2] == task_groups(text@)->0[2]);
            assert(view[3] == task_groups(text@)->0[3]);
        }
        Some(task_item(path, line, group(&groups, 1), group(&groups, 2), group(&groups, 3)))
    } else {
        None
    }
}

/// The text of a group that took part in the match.
fn group(groups: &Vec<Option<String>>, i: usize) -> (s: &str)
    requires
        i < groups@.len(),
        groups@[i as int] is Some,
    ensures
        s@ == groups@[i as int]->0@,
{
    match &groups[i] {
        Some(g) => g.as_str(),
        None => "",
    }
}

proof fn lemma_hashes_are_ascii(text: Seq<char>)
    requires
        heading_groups(text) is Some,
    ensures
        vstd::utf8::is_ascii_chars(text.take(hash_run(text) as int)),
        1 <= hash_run(text) <= 6,
        hash_run(text) <= text.len(),
{
    lemma_run_bound(text, |c: char| c == '#');
}

} // verus!
