//! What holds of the items of every file.
#[allow(unused_imports)]
use regex::Regex;
use vstd::prelude::*;

#[allow(unused_imports)]
use crate::extract::{
    extract, heading_of, in_usize, item_of, items_of, items_of_lines, task_of, visual_width,
};
#[allow(unused_imports)]
use crate::grammar::{
    blank, blank_run, hash_run, heading_groups, task_groups, HEADING_PATTERN, TASK_PATTERN,
};
#[allow(unused_imports)]
use crate::grammar_laws::{
    all_blank, all_hashes, closes, closes_at, law_what_a_heading_is_made_of,
    law_what_a_task_is_made_of, task_line,
};
#[allow(unused_imports)]
use crate::item::{item_views, Item, ItemView, KindView};
#[allow(unused_imports)]
use crate::pattern::regex_pattern;
#[allow(unused_imports)]
use crate::text::{
    lemma_run_bound, lemma_run_is, lemma_strip_end, lines_of, run, trimmed, trimmed_end,
    trimmed_start, white_space, without_cr,
};

verus! {

/// Every item stands at a line of its file, and the line holds that item.
proof fn lemma_items_come_from_lines(path: Seq<u8>, texts: Seq<Seq<char>>, i: int)
    requires
        0 <= i < items_of_lines(path, texts).len(),
    ensures
        1 <= items_of_lines(path, texts)[i].line <= texts.len(),
        item_of(
            path,
            items_of_lines(path, texts)[i].line,
            texts[items_of_lines(path, texts)[i].line - 1],
        ) == Some(items_of_lines(path, texts)[i]),
    decreases texts.len(),
{
    let before = items_of_lines(path, texts.drop_last());
    if i < before.len() {
        lemma_items_come_from_lines(path, texts.drop_last(), i);
        assert(texts.drop_last()[before[i].line - 1] == texts[before[i].line - 1]);
    }
}

/// A line that holds an item gives that item.
proof fn lemma_lines_give_items(path: Seq<u8>, texts: Seq<Seq<char>>, n: int) -> (i: int)
    requires
        1 <= n <= texts.len(),
        item_of(path, n as nat, texts[n - 1]) is Some,
    ensures
        0 <= i < items_of_lines(path, texts).len(),
        item_of(path, n as nat, texts[n - 1]) == Some(items_of_lines(path, texts)[i]),
    decreases texts.len(),
{
    if n < texts.len() {
        assert(texts.drop_last()[n - 1] == texts[n - 1]);
        lemma_lines_give_items(path, texts.drop_last(), n)
    } else {
        assert(texts.last() == texts[n - 1]);
        items_of_lines(path, texts).len() - 1
    }
}

/// An item of a file carries the file's path and the number of one of its lines, and is the
/// item that this line holds.
pub proof fn law_items_stand_at_their_lines(path: Seq<u8>, content: Seq<char>, i: int)
    requires
        0 <= i < items_of(path, content).len(),
    ensures
        ({
            let item = items_of(path, content)[i];
            &&& item.path == path
            &&& 1 <= item.line <= lines_of(content).len()
            &&& item_of(path, item.line, lines_of(content)[item.line - 1]) == Some(item)
        }),
{
    lemma_items_come_from_lines(path, lines_of(content), i);
}

/// No heading and no task is left out: a line that one of the two patterns finds gives an item
/// with its number, a heading or a task, however far it is indented.
pub proof fn law_no_item_is_left_out(path: Seq<u8>, content: Seq<char>, n: int)
    requires
        1 <= n <= lines_of(content).len(),
        heading_groups(lines_of(content)[n - 1]) is Some || task_groups(
            lines_of(content)[n - 1],
        ) is Some,
    ensures
        exists|i: int|
            {
                &&& 0 <= i < items_of(path, content).len()
                &&& (#[trigger] items_of(path, content)[i]).line == n
                &&& items_of(path, content)[i].path == path
                &&& heading_groups(lines_of(content)[n - 1]) is Some ==> items_of(
                    path,
                    content,
                )[i].kind is Heading
                &&& task_groups(lines_of(content)[n - 1]) is Some ==> items_of(
                    path,
                    content,
                )[i].kind is Task
                &&& item_of(path, n as nat, lines_of(content)[n - 1]) == Some(
                    items_of(path, content)[i],
                )
            },
{
    law_headings_are_no_tasks(lines_of(content)[n - 1]);
    let i = lemma_lines_give_items(path, lines_of(content), n);
    assert(item_of(path, n as nat, lines_of(content)[n - 1]) == Some(items_of(path, content)[i]));
}

proof fn lemma_lines_increase(path: Seq<u8>, texts: Seq<Seq<char>>, i: int, j: int)
    requires
        0 <= i < j < items_of_lines(path, texts).len(),
    ensures
        items_of_lines(path, texts)[i].line < items_of_lines(path, texts)[j].line,
    decreases texts.len(),
{
    let before = items_of_lines(path, texts.drop_last());
    if j < before.len() {
        lemma_lines_increase(path, texts.drop_last(), i, j);
    } else {
        lemma_items_come_from_lines(path, texts.drop_last(), i);
    }
}

/// The items of a file stand in the order of their lines, and no line gives two.
pub proof fn law_lines_increase(path: Seq<u8>, content: Seq<char>, i: int, j: int)
    requires
        0 <= i < j < items_of(path, content).len(),
    ensures
        items_of(path, content)[i].line < items_of(path, content)[j].line,
{
    lemma_lines_increase(path, lines_of(content), i, j);
}

/// The level of a heading is 1 to 6, and the number of hashes that its line starts with.
pub proof fn law_heading_levels(path: Seq<u8>, content: Seq<char>, i: int)
    requires
        0 <= i < items_of(path, content).len(),
    ensures
        ({
            let item = items_of(path, content)[i];
            item.kind matches KindView::Heading(level, _) ==> 1 <= level <= 6 && level == hash_run(
                lines_of(content)[item.line - 1],
            )
        }),
{
    lemma_items_come_from_lines(path, lines_of(content), i);
    let item = items_of(path, content)[i];
    let text = lines_of(content)[item.line - 1];
    if heading_groups(text) is Some {
        lemma_run_bound(text, |c: char| c == '#');
        assert(heading_groups(text)->0[1] == Some(text.take(hash_run(text) as int)));
    }
}

/// A line is never a heading and a task at once, so it does not matter which is looked for
/// first.
pub proof fn law_headings_are_no_tasks(line: Seq<char>)
    ensures
        !(heading_groups(line) is Some && task_groups(line) is Some),
{
    lemma_run_bound(line, |c: char| c == '#');
    lemma_run_bound(line, |c: char| blank(c));
    if heading_groups(line) is Some {
        assert(line[0] == '#');
        if blank_run(line) > 0 {
            assert(blank(line[0]));
        }
        assert(line.skip(0) == line);
    }
}

/// The title of a heading neither starts nor ends with white space.
pub proof fn law_titles_are_trimmed(path: Seq<u8>, content: Seq<char>, i: int)
    requires
        0 <= i < items_of(path, content).len(),
    ensures
        items_of(path, content)[i].kind matches KindView::Heading(_, title) ==> title.len() > 0
            ==> !white_space(title[0]) && !white_space(title.last()),
{
    lemma_items_come_from_lines(path, lines_of(content), i);
    let item = items_of(path, content)[i];
    let text = lines_of(content)[item.line - 1];
    if heading_groups(text) is Some {
        lemma_trimmed(heading_groups(text)->0[2]->0);
    }
}

proof fn lemma_trimmed(s: Seq<char>)
    ensures
        trimmed(s).len() > 0 ==> !white_space(trimmed(s)[0]) && !white_space(trimmed(s).last()),
{
    let p = |c: char| white_space(c);
    lemma_run_bound(s, p);
    let start = trimmed_start(s);
    lemma_strip_end(start, p);
    if trimmed(s).len() > 0 {
        assert(trimmed(s)[0] == start[0]);
        assert(start[0] == s[run(s, p) as int]);
    }
}

/// The text of a task does not start with a blank and does not end with white space.
pub proof fn law_bodies_are_trimmed(path: Seq<u8>, content: Seq<char>, i: int)
    requires
        0 <= i < items_of(path, content).len(),
    ensures
        items_of(path, content)[i].kind matches KindView::Task { done: _, indent: _, body }
            ==> body.len() > 0 ==> !blank(body[0]) && !white_space(body.last()),
{
    lemma_items_come_from_lines(path, lines_of(content), i);
    let item = items_of(path, content)[i];
    let text = lines_of(content)[item.line - 1];
    if heading_groups(text) is None && task_groups(text) is Some {
        let bullet = text.skip(blank_run(text) as int);
        let bracket = bullet.skip(1 + blank_run(bullet.skip(1)) as int);
        let after = bracket.skip(3);
        let n = blank_run(after) as int;
        lemma_run_bound(after, |c: char| blank(c));
        let body = bracket.skip(3 + n);
        assert(body == after.skip(n));
        assert(task_groups(text)->0[3] == Some(body));
        lemma_strip_end(body, |c: char| white_space(c));
        let kept = trimmed_end(body);
        if kept.len() > 0 {
            assert(kept[0] == body[0]);
            assert(body[0] == after[n]);
        }
    }
}

proof fn lemma_width_concat(a: Seq<char>, b: Seq<char>)
    ensures
        visual_width(a + b) == visual_width(a) + visual_width(b),
    decreases b.len(),
{
    if b.len() == 0 {
        assert(a + b == a);
    } else {
        lemma_width_concat(a, b.drop_last());
        assert((a + b).drop_last() == a + b.drop_last());
        assert((a + b).last() == b.last());
    }
}

/// A tab is as wide as four spaces, wherever it stands.
pub proof fn law_tab_is_four_spaces(before: Seq<char>, after: Seq<char>)
    ensures
        visual_width(before + seq!['\t'] + after) == visual_width(
            before + seq![' ', ' ', ' ', ' '] + after,
        ),
{
    let tab = seq!['\t'];
    let spaces = seq![' ', ' ', ' ', ' '];
    lemma_width_concat(before + tab, after);
    lemma_width_concat(before, tab);
    lemma_width_concat(before + spaces, after);
    lemma_width_concat(before, spaces);
    reveal_with_fuel(visual_width, 5);
    assert(tab.drop_last() == Seq::<char>::empty());
    assert(visual_width(tab) == 4);
    assert(spaces.drop_last().drop_last().drop_last().drop_last() == Seq::<char>::empty());
    assert(visual_width(spaces) == 4);
}

proof fn lemma_width_bound(s: Seq<char>)
    ensures
        visual_width(s) <= 4 * s.len(),
    decreases s.len(),
{
    if s.len() > 0 {
        lemma_width_bound(s.drop_last());
    }
}

proof fn lemma_lines_are_short(s: Seq<char>, i: int)
    requires
        0 <= i < lines_of(s).len(),
    ensures
        lines_of(s)[i].len() <= s.len(),
    decreases s.len(),
{
    let p = |c: char| c != '\n';
    let n = run(s, p) as int;
    lemma_run_bound(s, p);
    if s.len() > 0 && n < s.len() && i > 0 {
        lemma_lines_are_short(s.skip(n + 1), i - 1);
        assert(lines_of(s)[i] == lines_of(s.skip(n + 1))[i - 1]);
    }
}

/// In a text of at most a quarter of what a `usize` can count, the indentation of a task is
/// the width of the blanks that its line starts with.
pub proof fn law_indents_are_exact(path: Seq<u8>, content: Seq<char>, i: int)
    requires
        4 * content.len() <= usize::MAX,
        0 <= i < items_of(path, content).len(),
    ensures
        ({
            let item = items_of(path, content)[i];
            let line = lines_of(content)[item.line - 1];
            item.kind matches KindView::Task { done: _, indent, body: _ } ==> indent
                == visual_width(line.take(blank_run(line) as int))
        }),
{
    lemma_items_come_from_lines(path, lines_of(content), i);
    let item = items_of(path, content)[i];
    let line = lines_of(content)[item.line - 1];
    lemma_lines_are_short(content, item.line - 1);
    if heading_groups(line) is None && task_groups(line) is Some {
        let n = blank_run(line) as int;
        lemma_run_bound(line, |c: char| blank(c));
        assert(task_groups(line)->0[1] == Some(line.take(n)));
        lemma_width_bound(line.take(n));
    }
}

/// A line ending at the end of a file does not matter. A newline after a carriage return
/// is another matter: it makes a line ending of it.
pub proof fn law_last_line_ending_is_optional(path: Seq<u8>, content: Seq<char>)
    ensures
        content.len() == 0 || content.last() != '\r' ==> items_of(path, content.push('\n'))
            == items_of(path, content),
        items_of(path, content.push('\r').push('\n')) == items_of(path, content),
{
    lemma_last_line_ending(content);
    lemma_empty_line_holds_nothing(path, lines_of(content));
}

proof fn lemma_empty_line_holds_nothing(path: Seq<u8>, texts: Seq<Seq<char>>)
    ensures
        items_of_lines(path, texts.push(Seq::empty())) == items_of_lines(path, texts),
{
    let empty = Seq::<char>::empty();
    lemma_run_bound(empty, |c: char| c == '#');
    lemma_run_bound(empty, |c: char| blank(c));
    assert(empty.skip(0) == empty);
    assert(heading_groups(empty) is None);
    assert(task_groups(empty) is None);
    assert(texts.push(empty).drop_last() == texts);
}

proof fn lemma_last_line_ending(s: Seq<char>)
    ensures
        s.len() == 0 || s.last() == '\n' ==> {
            &&& lines_of(s.push('\n')) == lines_of(s).push(Seq::empty())
            &&& lines_of(s.push('\r').push('\n')) == lines_of(s).push(Seq::empty())
        },
        s.len() > 0 && s.last() != '\n' ==> {
            &&& s.last() != '\r' ==> lines_of(s.push('\n')) == lines_of(s)
            &&& lines_of(s.push('\r').push('\n')) == lines_of(s)
        },
    decreases s.len(),
{
    let p = |c: char| c != '\n';
    let n = run(s, p) as int;
    let unix = s.push('\n');
    let dos = s.push('\r').push('\n');
    lemma_run_bound(s, p);
    assert(lines_of(Seq::<char>::empty()) == Seq::<Seq<char>>::empty());
    if n < s.len() {
        lemma_run_is(unix, p, n);
        lemma_run_is(dos, p, n);
        let rest = s.skip(n + 1);
        lemma_last_line_ending(rest);
        if rest.len() > 0 {
            assert(rest.last() == s.last());
        } else {
            assert(s.last() == s[n]);
        }
        assert(unix.take(n) == s.take(n));
        assert(dos.take(n) == s.take(n));
        assert(unix.skip(n + 1) == rest.push('\n'));
        assert(dos.skip(n + 1) == rest.push('\r').push('\n'));
        let first = seq![without_cr(s.take(n))];
        assert(first + lines_of(rest).push(Seq::empty()) == (first + lines_of(rest)).push(
            Seq::empty(),
        ));
    } else {
        let len = s.len() as int;
        lemma_run_is(unix, p, len);
        lemma_run_is(dos, p, len + 1);
        assert(unix.take(len) == s);
        assert(dos.take(len + 1) == s.push('\r'));
        assert(s.push('\r').drop_last() == s);
        assert(unix.skip(len + 1) == Seq::<char>::empty());
        assert(dos.skip(len + 2) == Seq::<char>::empty());
        assert(seq![s] + Seq::<Seq<char>>::empty() == seq![s]);
        assert(lines_of(dos) == seq![s]);
        if s.len() > 0 {
            assert(s.last() == s[len - 1]);
            if s.last() != '\r' {
                assert(without_cr(s) == s);
                assert(lines_of(unix) == seq![s]);
            }
        } else {
            assert(s == Seq::<char>::empty());
            assert(without_cr(s) == s);
            assert(lines_of(unix) == seq![s]);
            assert(lines_of(s).push(Seq::empty()) == seq![s]);
        }
    }
}

/// How many newlines a text has.
pub open spec fn newlines(s: Seq<char>) -> nat
    decreases s.len(),
{
    if s.len() == 0 {
        0
    } else {
        newlines(s.drop_last()) + if s.last() == '\n' {
            1nat
        } else {
            0nat
        }
    }
}

/// Items with `n` added to the line of each.
pub open spec fn further_down(items: Seq<ItemView>, n: nat) -> Seq<ItemView> {
    Seq::new(
        items.len(),
        |i: int| ItemView { path: items[i].path, line: items[i].line + n, kind: items[i].kind },
    )
}

proof fn lemma_newlines_concat(a: Seq<char>, b: Seq<char>)
    ensures
        newlines(a + b) == newlines(a) + newlines(b),
    decreases b.len(),
{
    if b.len() == 0 {
        assert(a + b == a);
    } else {
        lemma_newlines_concat(a, b.drop_last());
        assert((a + b).drop_last() == a + b.drop_last());
        assert((a + b).last() == b.last());
    }
}

proof fn lemma_no_newlines(s: Seq<char>)
    requires
        forall|i: int| 0 <= i < s.len() ==> s[i] != '\n',
    ensures
        newlines(s) == 0,
    decreases s.len(),
{
    if s.len() > 0 {
        lemma_no_newlines(s.drop_last());
    }
}

/// The lines of a text that ends with a newline, and of another after it.
proof fn lemma_lines_concat(a: Seq<char>, b: Seq<char>)
    requires
        a.len() == 0 || a.last() == '\n',
    ensures
        lines_of(a + b) == lines_of(a) + lines_of(b),
        lines_of(a).len() == newlines(a),
    decreases a.len(),
{
    if a.len() == 0 {
        assert(a + b == b);
        assert(lines_of(a) == Seq::<Seq<char>>::empty());
        assert(lines_of(a) + lines_of(b) == lines_of(b));
    } else {
        let p = |c: char| c != '\n';
        let n = run(a, p) as int;
        lemma_run_bound(a, p);
        if n >= a.len() {
            assert(p(a[a.len() - 1]));
        }
        lemma_run_is(a + b, p, n);
        let rest = a.skip(n + 1);
        if rest.len() > 0 {
            assert(rest.last() == a.last());
        }
        lemma_lines_concat(rest, b);
        assert((a + b).take(n) == a.take(n));
        assert((a + b).skip(n + 1) == rest + b);
        let first = seq![without_cr(a.take(n))];
        assert(first + (lines_of(rest) + lines_of(b)) == (first + lines_of(rest)) + lines_of(b));
        lemma_newlines_concat(a.take(n + 1), rest);
        assert(a.take(n + 1) + rest == a);
        assert(a.take(n + 1).drop_last() == a.take(n));
        lemma_no_newlines(a.take(n));
    }
}

proof fn lemma_items_of_lines_concat(path: Seq<u8>, a: Seq<Seq<char>>, b: Seq<Seq<char>>)
    ensures
        items_of_lines(path, a + b) == items_of_lines(path, a) + further_down(
            items_of_lines(path, b),
            a.len(),
        ),
    decreases b.len(),
{
    let first = items_of_lines(path, a);
    let second = items_of_lines(path, b);
    if b.len() == 0 {
        assert(a + b == a);
        assert(first + further_down(second, a.len()) == first);
    } else {
        lemma_items_of_lines_concat(path, a, b.drop_last());
        assert((a + b).drop_last() == a + b.drop_last());
        assert((a + b).last() == b.last());
        let before = items_of_lines(path, b.drop_last());
        if let Some(item) = item_of(path, b.len(), b.last()) {
            let moved = ItemView { path: item.path, line: item.line + a.len(), kind: item.kind };
            assert(item_of(path, (a + b).len(), b.last()) == Some(moved));
            assert(further_down(before.push(item), a.len()) == further_down(before, a.len()).push(
                moved,
            ));
            assert(first + further_down(before, a.len()).push(moved) == (first + further_down(
                before,
                a.len(),
            )).push(moved));
        } else {
            assert(item_of(path, (a + b).len(), b.last()) is None);
        }
    }
}

/// The items of two texts put together, the first of them empty or ended by a newline, are
/// those of the first and then those of the second, with the lines counted on.
pub proof fn law_texts_put_together(path: Seq<u8>, a: Seq<char>, b: Seq<char>)
    requires
        a.len() == 0 || a.last() == '\n',
    ensures
        items_of(path, a + b) == items_of(path, a) + further_down(items_of(path, b), newlines(a)),
{
    lemma_lines_concat(a, b);
    lemma_items_of_lines_concat(path, lines_of(a), lines_of(b));
}

/// A line that no pattern finds gives nothing.
pub proof fn law_other_lines_give_nothing(path: Seq<u8>, n: nat, line: Seq<char>)
    requires
        heading_groups(line) is None,
        task_groups(line) is None,
    ensures
        item_of(path, n, line) is None,
{
}

/// A line that is a heading gives a heading: the level is the number of hashes, and the title
/// what the pattern finds, without white space at its ends.
pub proof fn law_a_heading_line_gives_a_heading(
    path: Seq<u8>,
    n: nat,
    line: Seq<char>,
    level: int,
    gap: Seq<char>,
    rest: Seq<char>,
)
    requires
        1 <= level <= 6,
        level <= line.len(),
        all_hashes(line.take(level)),
        gap.len() > 0,
        all_blank(gap),
        rest.len() > 0 ==> rest[0] != ' ' && rest[0] != '\t',
        line.skip(level) == gap + rest,
        !line.contains('\n'),
    ensures
        exists|title: Seq<char>|
            item_of(path, n, line) == Some(
                ItemView {
                    path,
                    line: n,
                    kind: KindView::Heading(level as nat, #[trigger] trimmed(title)),
                },
            ) && title.len() <= rest.len() && title == rest.take(title.len() as int) && closes(
                rest.skip(title.len() as int),
            ) && forall|m: int| 0 <= m < title.len() ==> !closes(#[trigger] rest.skip(m)),
{
    law_what_a_heading_is_made_of(line, level, gap, rest);
    let title = heading_groups(line)->0[2]->0;
    assert(line.take(level).len() == level);
    assert(heading_groups(line)->0[1] == Some(line.take(level)));
    assert(item_of(path, n, line) == Some(
        ItemView { path, line: n, kind: KindView::Heading(level as nat, trimmed(title)) },
    ));
}

/// A title between blanks is the title of the heading, with closing hashes or without.
pub proof fn law_a_plain_title_is_kept(
    path: Seq<u8>,
    n: nat,
    hashes: Seq<char>,
    gap: Seq<char>,
    title: Seq<char>,
    closing: Seq<char>,
)
    requires
        1 <= hashes.len() <= 6,
        all_hashes(hashes),
        gap.len() > 0,
        all_blank(gap),
        title.len() > 0,
        !white_space(title[0]),
        !white_space(title.last()),
        title.last() != '#',
        closes(closing),
        !title.contains('\n'),
    ensures
        item_of(path, n, hashes + gap + title + closing) == Some(
            ItemView { path, line: n, kind: KindView::Heading(hashes.len(), title) },
        ),
{
    let line = hashes + gap + title + closing;
    let level = hashes.len() as int;
    let rest = title + closing;
    assert(line.take(level) == hashes);
    assert(line.skip(level) == gap + rest);
    let (ci, cj) = choose|i: int, j: int| #[trigger] closes_at(closing, i, j);
    assert(closes_at(closing, ci, cj));
    assert(!line.contains('\n')) by {
        if line.contains('\n') {
            let k = choose|k: int| 0 <= k < line.len() && line[k] == '\n';
            if k < level {
                assert(hashes[k] == '\n');
            } else if k < level + gap.len() {
                assert(gap[k - level] == '\n');
            } else if k < level + gap.len() + title.len() {
                assert(title[k - level - gap.len()] == '\n');
            } else {
                let c = k - level - gap.len() - title.len();
                assert(closing[c] == '\n');
                assert(c < ci || ci <= c < cj || cj <= c);
            }
        }
    }
    assert(rest[0] == title[0]);
    law_what_a_heading_is_made_of(line, level, gap, rest);
    let found = heading_groups(line)->0[2]->0;
    let t = title.len() as int;
    assert(rest.skip(t) == closing);
    if found.len() > t {
        assert(!closes(rest.skip(t)));
    }
    if found.len() < t {
        let u = rest.skip(found.len() as int);
        let (i, j) = choose|i: int, j: int| #[trigger] closes_at(u, i, j);
        let k = t - 1 - found.len();
        assert(u[k] == title.last());
        assert(k < i || i <= k < j || j <= k);
    }
    assert(found == title);
    lemma_trimmed_is(title);
    assert(heading_groups(line)->0[1] == Some(line.take(level)));
}

proof fn lemma_trimmed_is(s: Seq<char>)
    requires
        s.len() > 0,
        !white_space(s[0]),
        !white_space(s.last()),
    ensures
        trimmed(s) == s,
{
    let p = |c: char| white_space(c);
    lemma_run_is(s, p, 0);
    assert(s.skip(0) == s);
}

/// A tab is four wide, and everything else one.
pub proof fn law_width_counts_tabs(s: Seq<char>)
    ensures
        visual_width(s) == s.len() + 3 * s.filter(|c: char| c == '\t').len(),
    decreases s.len(),
{
    reveal(Seq::filter);
    if s.len() > 0 {
        law_width_counts_tabs(s.drop_last());
    }
}

/// A `usize` keeps a count as it is, as long as it can, and else what remains of it.
pub proof fn law_counts_are_kept(n: nat)
    ensures
        n <= usize::MAX ==> in_usize(n) == n,
        in_usize(n) <= usize::MAX,
        exists|q: int| n == #[trigger] (q * (usize::MAX + 1)) + in_usize(n),
{
    let d = usize::MAX + 1;
    vstd::arithmetic::div_mod::lemma_fundamental_div_mod(n as int, d);
    let q = n as int / d;
    assert(d * q == q * d) by (nonlinear_arith);
    assert(0 * d == 0);
    if n <= usize::MAX {
        assert(n == 0int * (usize::MAX + 1) + in_usize(n));
    } else {
        assert(n == q * (usize::MAX + 1) + in_usize(n));
    }
}

/// A line that is a task gives a task, whatever its indentation, its bullet and its body: it is
/// done if its mark is `x` or `X`, it is indented as wide as its blanks are, and its text is its
/// body without the white space at the end.
pub proof fn law_a_task_line_gives_a_task(
    path: Seq<u8>,
    n: nat,
    indent: Seq<char>,
    bullet: char,
    gap: Seq<char>,
    mark: char,
    space: Seq<char>,
    body: Seq<char>,
)
    requires
        all_blank(indent),
        bullet == '-' || bullet == '*' || bullet == '+',
        gap.len() > 0,
        all_blank(gap),
        mark == ' ' || mark == 'x' || mark == 'X',
        space.len() > 0,
        all_blank(space),
        body.len() > 0 ==> body[0] != ' ' && body[0] != '\t',
        !body.contains('\n'),
    ensures
        item_of(path, n, task_line(indent, bullet, gap, mark, space, body)) == Some(
            ItemView {
                path,
                line: n,
                kind: KindView::Task {
                    done: mark != ' ',
                    indent: in_usize(indent.len() + 3 * indent.filter(|c: char| c == '\t').len()),
                    body: trimmed_end(body),
                },
            },
        ),
{
    let line = task_line(indent, bullet, gap, mark, space, body);
    law_what_a_task_is_made_of(indent, bullet, gap, mark, space, body);
    law_headings_are_no_tasks(line);
    law_width_counts_tabs(indent);
    assert(seq![mark][0] == mark && seq!['x'][0] == 'x' && seq!['X'][0] == 'X');
}

/// A heading has its level and its title, trimmed. A task is done if its mark is `x` or `X`, and
/// by no other mark; it has the width of its indentation and its body, trimmed at the end.
pub proof fn law_items_are_made_of_their_groups(
    path: Seq<u8>,
    n: nat,
    level: nat,
    indent: Seq<char>,
    mark: Seq<char>,
    text: Seq<char>,
)
    ensures
        heading_of(path, n, level, text) == (ItemView {
            path,
            line: n,
            kind: KindView::Heading(level, trimmed(text)),
        }),
        task_of(path, n, indent, mark, text) == (ItemView {
            path,
            line: n,
            kind: KindView::Task {
                done: mark.len() == 1 && (mark[0] == 'x' || mark[0] == 'X'),
                indent: in_usize(indent.len() + 3 * indent.filter(|c: char| c == '\t').len()),
                body: trimmed_end(text),
            },
        }),
{
    law_width_counts_tabs(indent);
    assert(seq!['x'].len() == 1 && seq!['x'][0] == 'x');
    assert(seq!['X'].len() == 1 && seq!['X'][0] == 'X');
    if mark.len() == 1 {
        assert(mark == seq![mark[0]]);
    }
}

/// Every task line of a text gives its task, at its line and with its path, in what is read out of
/// the text.
pub proof fn law_every_task_is_read_out(
    path: &[u8],
    content: &str,
    heading_re: Regex,
    task_re: Regex,
    out: Vec<Item>,
    n: int,
    indent: Seq<char>,
    bullet: char,
    gap: Seq<char>,
    mark: char,
    space: Seq<char>,
    body: Seq<char>,
)
    requires
        call_ensures(extract, (path, content, &heading_re, &task_re), out),
        regex_pattern(heading_re) == HEADING_PATTERN@,
        regex_pattern(task_re) == TASK_PATTERN@,
        1 <= n <= lines_of(content@).len(),
        lines_of(content@)[n - 1] == task_line(indent, bullet, gap, mark, space, body),
        all_blank(indent),
        bullet == '-' || bullet == '*' || bullet == '+',
        gap.len() > 0,
        all_blank(gap),
        mark == ' ' || mark == 'x' || mark == 'X',
        space.len() > 0,
        all_blank(space),
        body.len() > 0 ==> body[0] != ' ' && body[0] != '\t',
        !body.contains('\n'),
    ensures
        exists|i: int|
            0 <= i < out@.len() && #[trigger] out@[i]@ == (ItemView {
                path: path@,
                line: n as nat,
                kind: KindView::Task {
                    done: mark != ' ',
                    indent: in_usize(indent.len() + 3 * indent.filter(|c: char| c == '\t').len()),
                    body: trimmed_end(body),
                },
            }),
{
    law_what_a_task_is_made_of(indent, bullet, gap, mark, space, body);
    law_a_task_line_gives_a_task(path@, n as nat, indent, bullet, gap, mark, space, body);
    law_no_item_is_left_out(path@, content@, n);
    let items = items_of(path@, content@);
    let i = choose|i: int|
        0 <= i < items.len() && item_of(path@, n as nat, lines_of(content@)[n - 1]) == Some(
            #[trigger] items[i],
        );
    assert(item_views(out@)[i] == out@[i]@);
}

/// Every heading line of a text gives its heading, at its line and with its path, in what is read
/// out of the text.
pub proof fn law_every_heading_is_read_out(
    path: &[u8],
    content: &str,
    heading_re: Regex,
    task_re: Regex,
    out: Vec<Item>,
    n: int,
    hashes: Seq<char>,
    gap: Seq<char>,
    title: Seq<char>,
    closing: Seq<char>,
)
    requires
        call_ensures(extract, (path, content, &heading_re, &task_re), out),
        regex_pattern(heading_re) == HEADING_PATTERN@,
        regex_pattern(task_re) == TASK_PATTERN@,
        1 <= n <= lines_of(content@).len(),
        lines_of(content@)[n - 1] == hashes + gap + title + closing,
        1 <= hashes.len() <= 6,
        all_hashes(hashes),
        gap.len() > 0,
        all_blank(gap),
        title.len() > 0,
        !white_space(title[0]),
        !white_space(title.last()),
        title.last() != '#',
        closes(closing),
        !title.contains('\n'),
    ensures
        exists|i: int|
            0 <= i < out@.len() && #[trigger] out@[i]@ == (ItemView {
                path: path@,
                line: n as nat,
                kind: KindView::Heading(hashes.len(), title),
            }),
{
    law_a_plain_title_is_kept(path@, n as nat, hashes, gap, title, closing);
    let line = lines_of(content@)[n - 1];
    let items = items_of(path@, content@);
    let i = lemma_lines_give_items(path@, lines_of(content@), n);
    assert(item_of(path@, n as nat, line) == Some(items[i]));
    assert(item_views(out@)[i] == out@[i]@);
}

} // verus!
