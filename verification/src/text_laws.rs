//! What holds of every text.
use vstd::prelude::*;

#[allow(unused_imports)]
use crate::text::{
    decimal, lemma_run_bound, lemma_run_is, lemma_strip_end, lines_of, run, string_views, trimmed,
    trimmed_end, trimmed_start, white_space, without_cr,
};

verus! {

/// A line ends at a newline, with the carriage return before it if there is one, and the rest of
/// the text follows. What has no newline is one line, and the empty text has none.
pub proof fn law_lines_end_at_newlines(line: Seq<char>, rest: Seq<char>)
    requires
        forall|i: int| 0 <= i < line.len() ==> line[i] != '\n',
    ensures
        line.len() == 0 || line.last() != '\r' ==> lines_of(line + seq!['\n'] + rest) == seq![line]
            + lines_of(rest),
        lines_of(line + seq!['\r', '\n'] + rest) == seq![line] + lines_of(rest),
        line.len() > 0 ==> lines_of(line) == seq![line],
        lines_of(Seq::empty()) == Seq::<Seq<char>>::empty(),
{
    let p = |c: char| c != '\n';
    let n = line.len() as int;
    let unix = line + seq!['\n'] + rest;
    let dos = line + seq!['\r', '\n'] + rest;
    lemma_run_is(unix, p, n);
    lemma_run_is(dos, p, n + 1);
    lemma_run_is(line, p, n);
    assert(unix.take(n) == line);
    assert(unix.skip(n + 1) == rest);
    assert(dos.take(n + 1) == line.push('\r'));
    assert(line.push('\r').drop_last() == line);
    assert(dos.skip(n + 2) == rest);
}

/// Trimming takes white space off, all that stands at the ends and nothing else.
pub proof fn law_trimming_takes_off_white_space(s: Seq<char>)
    ensures
        exists|a: int, b: int| #[trigger] trims(s, a, b) && trimmed(s) == s.subrange(a, b),
        exists|b: int| #[trigger] trims_end(s, b) && trimmed_end(s) == s.subrange(0, b),
{
    let p = |c: char| white_space(c);
    lemma_run_bound(s, p);
    let a = run(s, p) as int;
    let start = trimmed_start(s);
    assert(start == s.skip(a));
    lemma_strip_end(start, p);
    let b = a + trimmed(s).len();
    assert forall|i: int| b <= i < s.len() implies white_space(#[trigger] s[i]) by {
        assert(p(start[i - a]));
    }
    assert forall|i: int| 0 <= i < a implies white_space(#[trigger] s[i]) by {
        assert(p(s[i]));
    }
    if a < b {
        assert(!p(s[a]));
        assert(!p(trimmed(s).last()));
        assert(s[b - 1] == trimmed(s).last());
    }
    assert(trimmed(s) == s.subrange(a, b));
    assert(trims(s, a, b));
    lemma_strip_end(s, p);
    let e = trimmed_end(s).len() as int;
    assert forall|i: int| e <= i < s.len() implies white_space(#[trigger] s[i]) by {
        assert(p(s[i]));
    }
    if e > 0 {
        assert(!p(trimmed_end(s).last()));
        assert(s[e - 1] == trimmed_end(s).last());
    }
    assert(trimmed_end(s) == s.subrange(0, e));
    assert(trims_end(s, e));
}

/// Whether only white space stands before `a` and from `b` on, and what is between neither starts
/// nor ends with it.
pub open spec fn trims(s: Seq<char>, a: int, b: int) -> bool {
    &&& 0 <= a <= b <= s.len()
    &&& forall|i: int| 0 <= i < a ==> white_space(#[trigger] s[i])
    &&& forall|i: int| b <= i < s.len() ==> white_space(#[trigger] s[i])
    &&& a < b ==> !white_space(s[a]) && !white_space(s[b - 1])
}

/// Whether only white space stands from `b` on, and none just before it.
pub open spec fn trims_end(s: Seq<char>, b: int) -> bool {
    &&& 0 <= b <= s.len()
    &&& forall|i: int| b <= i < s.len() ==> white_space(#[trigger] s[i])
    &&& b > 0 ==> !white_space(s[b - 1])
}

/// The number that digits in base ten stand for.
pub open spec fn value_of(digits: Seq<char>) -> int
    decreases digits.len(),
{
    if digits.len() == 0 {
        0
    } else {
        10 * value_of(digits.drop_last()) + (digits.last() as int - '0' as int)
    }
}

/// A number is written with digits that stand for it, and without a zero in front.
pub proof fn law_numbers_are_written_in_base_ten(n: nat)
    ensures
        value_of(decimal(n)) == n,
        decimal(n).len() > 0,
        forall|i: int| 0 <= i < decimal(n).len() ==> '0' <= #[trigger] decimal(n)[i] <= '9',
        n > 0 ==> decimal(n)[0] != '0',
        decimal(0) == seq!['0'],
    decreases n,
{
    let digit = ('0' as nat + n % 10) as char;
    assert(digit as int - '0' as int == n % 10);
    if n < 10 {
        assert(seq![digit].drop_last() == Seq::<char>::empty());
        assert(value_of(Seq::empty()) == 0);
    } else {
        law_numbers_are_written_in_base_ten(n / 10);
        assert(decimal(n).drop_last() == decimal(n / 10));
        assert(decimal(n)[0] == decimal(n / 10)[0]);
    }
}

/// Strings are what they hold, in order.
pub proof fn law_strings_are_what_they_hold(strings: Seq<String>, i: int)
    requires
        0 <= i < strings.len(),
    ensures
        string_views(strings).len() == strings.len(),
        string_views(strings)[i] == strings[i]@,
{
}

} // verus!
