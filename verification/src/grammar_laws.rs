//! Which lines are headings and tasks, and what they are made of.
use vstd::prelude::*;

#[allow(unused_imports)]
use crate::grammar::{
    blank, blank_run, hash_run, heading_groups, task_groups, without_closing, without_end_blanks,
    without_end_hashes,
};
#[allow(unused_imports)]
use crate::text::{
    lemma_run_bound, lemma_run_is, lemma_strip_end, lemma_strip_end_is, run, strip_end,
};

verus! {

/// Whether a text is of spaces and tabs alone.
pub open spec fn all_blank(s: Seq<char>) -> bool {
    forall|i: int| 0 <= i < s.len() ==> (#[trigger] s[i] == ' ' || s[i] == '\t')
}

/// Whether a text is of hashes alone.
pub open spec fn all_hashes(s: Seq<char>) -> bool {
    forall|i: int| 0 <= i < s.len() ==> #[trigger] s[i] == '#'
}

/// Whether a line starts with `level` hashes and a blank after them.
pub open spec fn starts_heading(line: Seq<char>, level: int) -> bool {
    &&& 0 <= level < line.len()
    &&& all_hashes(line.take(level))
    &&& line[level] == ' ' || line[level] == '\t'
}

/// A line is a heading exactly if it starts with one to six hashes and a blank after them.
pub proof fn law_what_a_heading_line_is(line: Seq<char>)
    requires
        !line.contains('\n'),
    ensures
        heading_groups(line) is Some <==> exists|level: int|
            1 <= level <= 6 && #[trigger] starts_heading(line, level),
{
    let h = |c: char| c == '#';
    let b = |c: char| blank(c);
    let n = hash_run(line) as int;
    lemma_run_bound(line, h);
    lemma_run_bound(line.skip(n), b);
    if heading_groups(line) is Some {
        assert(blank(line.skip(n)[0]));
        assert(line.skip(n)[0] == line[n]);
        assert forall|i: int| 0 <= i < n implies #[trigger] line.take(n)[i] == '#' by {
            assert(h(line[i]));
        }
        assert(starts_heading(line, n));
    }
    if exists|level: int| 1 <= level <= 6 && #[trigger] starts_heading(line, level) {
        let level = choose|level: int| 1 <= level <= 6 && #[trigger] starts_heading(line, level);
        assert forall|i: int| 0 <= i < level implies h(#[trigger] line[i]) by {
            assert(line.take(level)[i] == '#');
        }
        lemma_run_is(line, h, level);
        let rest = line.skip(level);
        assert(b(rest[0]));
        if run(rest, b) == 0 {
            assert(!b(rest[run(rest, b) as int]));
        }
    }
}

/// Whether a text closes a title: blanks, hashes and blanks, each of them or none.
pub open spec fn closes(s: Seq<char>) -> bool {
    exists|i: int, j: int| #[trigger] closes_at(s, i, j)
}

/// Whether a text is of blanks up to `i`, of hashes up to `j` and then of blanks.
pub open spec fn closes_at(s: Seq<char>, i: int, j: int) -> bool {
    &&& 0 <= i <= j <= s.len()
    &&& forall|k: int| 0 <= k < i ==> (#[trigger] s[k] == ' ' || s[k] == '\t')
    &&& forall|k: int| i <= k < j ==> #[trigger] s[k] == '#'
    &&& forall|k: int| j <= k < s.len() ==> (#[trigger] s[k] == ' ' || s[k] == '\t')
}

proof fn lemma_closing(s: Seq<char>)
    ensures
        without_closing(s).len() <= s.len(),
        without_closing(s) == s.take(without_closing(s).len() as int),
        closes(s.skip(without_closing(s).len() as int)),
        forall|m: int| 0 <= m < without_closing(s).len() ==> !closes(#[trigger] s.skip(m)),
{
    let b = |c: char| blank(c);
    let h = |c: char| c == '#';
    let x = without_end_blanks(s);
    let y = without_end_hashes(x);
    let z = without_closing(s);
    lemma_strip_end(s, b);
    lemma_strip_end(x, h);
    lemma_strip_end(y, b);
    let n = z.len() as int;
    assert(z == s.take(n));
    let t = s.skip(n);
    assert forall|k: int| 0 <= k < y.len() - n implies (#[trigger] t[k] == ' ' || t[k]
        == '\t') by {
        assert(b(y[n + k]));
        assert(y[n + k] == s[n + k]);
    }
    assert forall|k: int| y.len() - n <= k < x.len() - n implies #[trigger] t[k] == '#' by {
        assert(h(x[n + k]));
        assert(x[n + k] == s[n + k]);
    }
    assert forall|k: int| x.len() - n <= k < t.len() implies (#[trigger] t[k] == ' ' || t[k]
        == '\t') by {
        assert(b(s[n + k]));
    }
    assert(closes_at(t, y.len() - n, x.len() - n));
    assert forall|m: int| 0 <= m < n implies !closes(#[trigger] s.skip(m)) by {
        let u = s.skip(m);
        if closes(u) {
            let (i, j) = choose|i: int, j: int| #[trigger] closes_at(u, i, j);
            assert(!b(z.last()));
            assert(z.last() == s[n - 1]);
            assert(s[n - 1] == u[n - 1 - m]);
            // What ends the title is no blank, so it is one of the hashes.
            assert(i <= n - 1 - m < j);
            assert forall|k: int| n - 1 <= k < m + j implies #[trigger] s[k] == '#' by {
                assert(u[k - m] == '#');
            }
            assert forall|k: int| m + j <= k < s.len() implies b(#[trigger] s[k]) by {
                assert(u[k - m] == s[k]);
            }
            assert(s[m + j - 1] == '#');
            lemma_strip_end_is(s, b, m + j);
            assert(x == s.take(m + j));
            // So the hashes were taken off with it.
            assert(x[n - 1] == '#');
            if y.len() >= n {
                assert forall|k: int| n - 1 <= k < x.len() implies h(#[trigger] x[k]) by {}
                assert(!h(y.last()));
                assert(y.last() == x[y.len() - 1]);
                assert(h(x[y.len() - 1]));
            }
        }
    }
}

/// The groups of a heading are the line, its hashes, and its title: what follows the blanks after
/// the hashes, up to the first place from which on nothing but closing hashes and blanks stands.
pub proof fn law_what_a_heading_is_made_of(
    line: Seq<char>,
    level: int,
    gap: Seq<char>,
    rest: Seq<char>,
)
    requires
        1 <= level <= 6,
        0 <= level <= line.len(),
        all_hashes(line.take(level)),
        gap.len() > 0,
        all_blank(gap),
        rest.len() > 0 ==> rest[0] != ' ' && rest[0] != '\t',
        line.skip(level) == gap + rest,
        !line.contains('\n'),
    ensures
        heading_groups(line) is Some,
        ({
            let groups = heading_groups(line)->0;
            let title = groups[2]->0;
            &&& groups == seq![Some(line), Some(line.take(level)), Some(title)]
            &&& title.len() <= rest.len()
            &&& title == rest.take(title.len() as int)
            &&& closes(rest.skip(title.len() as int))
            &&& forall|m: int| 0 <= m < title.len() ==> !closes(#[trigger] rest.skip(m))
        }),
{
    let h = |c: char| c == '#';
    let b = |c: char| blank(c);
    assert forall|i: int| 0 <= i < level implies h(#[trigger] line[i]) by {
        assert(line.take(level)[i] == '#');
    }
    assert(line.skip(level).len() == gap.len() + rest.len());
    assert(line[level] == line.skip(level)[0]);
    assert(line[level] == gap[0]);
    lemma_run_is(line, h, level);
    let after = line.skip(level);
    assert forall|i: int| 0 <= i < gap.len() implies b(#[trigger] after[i]) by {
        assert(after[i] == gap[i]);
    }
    if gap.len() < after.len() {
        assert(after[gap.len() as int] == rest[0]);
    }
    lemma_run_is(after, b, gap.len() as int);
    assert(after.skip(gap.len() as int) == rest);
    lemma_closing(rest);
}

/// A line is a task exactly if it is made of blanks or none, `-`, `*` or `+`, blanks, a space,
/// `x` or `X` in square brackets, blanks, and a body; and these are its groups.
pub proof fn law_what_a_task_is_made_of(
    indent: Seq<char>,
    bullet: char,
    gap: Seq<char>,
    mark: char,
    space: Seq<char>,
    body: Seq<char>,
)
    requires
        all_blank(indent),
        bullet == '-' || bullet == '*' || bullet == '+',
        gap.len() > 0,
        all_blank(gap),
        mark == ' ' || mark == 'x' || mark == 'X',
        space.len() > 0,
        all_blank(space),
        body.len() > 0 ==> body[0] != ' ' && body[0] != '\t',
        !body.contains('\n'),
    ensures
        task_groups(task_line(indent, bullet, gap, mark, space, body)) == Some(
            seq![
                Some(task_line(indent, bullet, gap, mark, space, body)),
                Some(indent),
                Some(seq![mark]),
                Some(body),
            ],
        ),
{
    let b = |c: char| blank(c);
    let line = task_line(indent, bullet, gap, mark, space, body);
    let n = indent.len() as int;
    assert forall|i: int| 0 <= i < n implies b(#[trigger] line[i]) by {
        assert(line[i] == indent[i]);
    }
    assert(line[n] == bullet);
    lemma_run_is(line, b, n);
    let rest = line.skip(n);
    assert(rest[0] == bullet);
    let tail = rest.skip(1);
    assert(tail == gap + seq!['[', mark, ']'] + space + body);
    let g = gap.len() as int;
    assert forall|i: int| 0 <= i < g implies b(#[trigger] tail[i]) by {
        assert(tail[i] == gap[i]);
    }
    assert(tail[g] == '[');
    lemma_run_is(tail, b, g);
    let bracket = rest.skip(1 + g);
    assert(bracket == seq!['[', mark, ']'] + space + body);
    let after = bracket.skip(3);
    assert(after == space + body);
    let s = space.len() as int;
    assert forall|i: int| 0 <= i < s implies b(#[trigger] after[i]) by {
        assert(after[i] == space[i]);
    }
    if s < after.len() {
        assert(after[s] == body[0]);
    }
    lemma_run_is(after, b, s);
    assert(bracket.skip(3 + s) == body);
    assert(bracket.subrange(1, 2) == seq![mark]);
    assert(line.take(n) == indent);
    assert(!line.contains('\n')) by {
        if line.contains('\n') {
            let k = choose|k: int| 0 <= k < line.len() && line[k] == '\n';
            if k < n {
                assert(indent[k] == '\n');
            } else if k < n + 1 {
            } else if k < n + 1 + g {
                assert(gap[k - n - 1] == '\n');
            } else if k < n + g + 4 {
            } else if k < n + g + 4 + s {
                assert(space[k - n - g - 4] == '\n');
            } else {
                assert(body[k - n - g - 4 - s] == '\n');
            }
        }
    }
}

/// A line made of these.
pub open spec fn task_line(
    indent: Seq<char>,
    bullet: char,
    gap: Seq<char>,
    mark: char,
    space: Seq<char>,
    body: Seq<char>,
) -> Seq<char> {
    indent + seq![bullet] + gap + seq!['[', mark, ']'] + space + body
}

/// No other line is a task: each is made of what a task is made of.
pub proof fn law_every_task_is_made_so(line: Seq<char>) -> (made: (
    Seq<char>,
    char,
    Seq<char>,
    char,
    Seq<char>,
    Seq<char>,
))
    requires
        task_groups(line) is Some,
    ensures
        line == task_line(made.0, made.1, made.2, made.3, made.4, made.5),
        all_blank(made.0),
        made.1 == '-' || made.1 == '*' || made.1 == '+',
        made.2.len() > 0,
        all_blank(made.2),
        made.3 == ' ' || made.3 == 'x' || made.3 == 'X',
        made.4.len() > 0,
        all_blank(made.4),
        made.5.len() > 0 ==> made.5[0] != ' ' && made.5[0] != '\t',
        !line.contains('\n'),
{
    let b = |c: char| blank(c);
    let n = blank_run(line) as int;
    lemma_run_bound(line, b);
    let rest = line.skip(n);
    let tail = rest.skip(1);
    let g = blank_run(tail) as int;
    lemma_run_bound(tail, b);
    let bracket = rest.skip(1 + g);
    let after = bracket.skip(3);
    let s = blank_run(after) as int;
    lemma_run_bound(after, b);
    let indent = line.take(n);
    let gap = tail.take(g);
    let space = after.take(s);
    let body = after.skip(s);
    assert forall|i: int| 0 <= i < n implies (#[trigger] indent[i] == ' ' || indent[i]
        == '\t') by {
        assert(b(line[i]));
    }
    assert forall|i: int| 0 <= i < g implies (#[trigger] gap[i] == ' ' || gap[i] == '\t') by {
        assert(b(tail[i]));
    }
    assert forall|i: int| 0 <= i < s implies (#[trigger] space[i] == ' ' || space[i]
        == '\t') by {
        assert(b(after[i]));
    }
    if body.len() > 0 {
        assert(body[0] == after[s]);
    }
    assert(bracket == tail.skip(g));
    assert(rest == seq![rest[0]] + tail);
    assert(tail == gap + bracket);
    assert(bracket == seq![bracket[0], bracket[1], bracket[2]] + after);
    assert(after == space + body);
    assert(line == indent + rest);
    assert(line == task_line(indent, rest[0], gap, bracket[1], space, body));
    (indent, rest[0], gap, bracket[1], space, body)
}

/// A line with a newline in it is neither.
pub proof fn law_newlines_are_in_no_line(line: Seq<char>)
    requires
        line.contains('\n'),
    ensures
        heading_groups(line) is None,
        task_groups(line) is None,
{
}

} // verus!
