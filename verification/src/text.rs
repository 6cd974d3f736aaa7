//! Strings as sequences of characters: conversion, trimming, splitting into
//! lines, and decimal numbers.
use vstd::prelude::*;

verus! {

/// `String::push` of std: the character goes to the end of the string.
pub assume_specification[ String::push ](s: &mut String, c: char)
    ensures
        final(s)@ == old(s)@.push(c),
;

/// The characters with the Unicode property White_Space, which is what
/// trimming takes off.
pub open spec fn white_space(c: char) -> bool {
    ||| '\u{9}' <= c <= '\u{d}'
    ||| c == ' '
    ||| c == '\u{85}'
    ||| c == '\u{a0}'
    ||| c == '\u{1680}'
    ||| '\u{2000}' <= c <= '\u{200a}'
    ||| c == '\u{2028}'
    ||| c == '\u{2029}'
    ||| c == '\u{202f}'
    ||| c == '\u{205f}'
    ||| c == '\u{3000}'
}

/// How many characters at the start of `s` satisfy `p`, up to the first that does not.
pub open spec fn run(s: Seq<char>, p: spec_fn(char) -> bool) -> nat
    decreases s.len(),
{
    if s.len() > 0 && p(s[0]) {
        1 + run(s.skip(1), p)
    } else {
        0
    }
}

/// `s` without the characters at its end that satisfy `p`.
pub open spec fn strip_end(s: Seq<char>, p: spec_fn(char) -> bool) -> Seq<char>
    decreases s.len(),
{
    if s.len() > 0 && p(s.last()) {
        strip_end(s.drop_last(), p)
    } else {
        s
    }
}

/// `s` without the white space at its end.
pub open spec fn trimmed_end(s: Seq<char>) -> Seq<char> {
    strip_end(s, |c: char| white_space(c))
}

/// `s` without the white space at its start.
pub open spec fn trimmed_start(s: Seq<char>) -> Seq<char> {
    s.skip(run(s, |c: char| white_space(c)) as int)
}

/// `s` without the white space at its two ends.
pub open spec fn trimmed(s: Seq<char>) -> Seq<char> {
    trimmed_end(trimmed_start(s))
}

/// A line without the carriage return that belonged to its line ending.
pub open spec fn without_cr(line: Seq<char>) -> Seq<char> {
    if line.len() > 0 && line.last() == '\r' {
        line.drop_last()
    } else {
        line
    }
}

/// The lines of a text. A line ends at `\n` or `\r\n`, which are not part of it; the
/// ending of the last line is optional. A carriage return elsewhere is kept.
pub open spec fn lines_of(s: Seq<char>) -> Seq<Seq<char>>
    decreases s.len(),
{
    if s.len() == 0 {
        Seq::empty()
    } else {
        let n = run(s, |c: char| c != '\n') as int;
        if n >= s.len() {
            seq![s]
        } else {
            seq![without_cr(s.take(n))] + lines_of(s.skip(n + 1))
        }
    }
}

/// The digits of a number in base ten, the first one not zero unless the number is.
pub open spec fn decimal(n: nat) -> Seq<char>
    decreases n,
{
    let digit = ('0' as nat + n % 10) as char;
    if n < 10 {
        seq![digit]
    } else {
        decimal(n / 10).push(digit)
    }
}

/// The contents of each string of a list.
pub open spec fn string_views(v: Seq<String>) -> Seq<Seq<char>> {
    Seq::new(v.len(), |i: int| v[i]@)
}

pub proof fn lemma_run_bound(s: Seq<char>, p: spec_fn(char) -> bool)
    ensures
        run(s, p) <= s.len(),
        forall|i: int| 0 <= i < run(s, p) ==> p(#[trigger] s[i]),
        run(s, p) < s.len() ==> !p(s[run(s, p) as int]),
    decreases s.len(),
{
    if s.len() > 0 && p(s[0]) {
        let rest = s.skip(1);
        lemma_run_bound(rest, p);
        assert forall|i: int| 0 <= i < run(s, p) implies p(#[trigger] s[i]) by {
            if i > 0 {
                assert(s[i] == rest[i - 1]);
            }
        }
        if run(s, p) < s.len() {
            assert(s[run(s, p) as int] == rest[run(rest, p) as int]);
        }
    }
}

/// A prefix all of `p`, at whose end `s` stops or `p` fails, is the whole run.
pub proof fn lemma_run_is(s: Seq<char>, p: spec_fn(char) -> bool, n: int)
    requires
        0 <= n <= s.len(),
        forall|i: int| 0 <= i < n ==> p(#[trigger] s[i]),
        n < s.len() ==> !p(s[n]),
    ensures
        run(s, p) == n,
{
    lemma_run_bound(s, p);
    let r = run(s, p) as int;
    if r < n {
        assert(p(s[r]));
    }
    if n < r {
        assert(p(s[n]));
    }
}

/// Stripping the end of `s` keeps the prefix up to the last character outside `p`.
pub proof fn lemma_strip_end_is(s: Seq<char>, p: spec_fn(char) -> bool, n: int)
    requires
        0 <= n <= s.len(),
        forall|i: int| n <= i < s.len() ==> p(#[trigger] s[i]),
        n > 0 ==> !p(s[n - 1]),
    ensures
        strip_end(s, p) == s.take(n),
    decreases s.len(),
{
    if n < s.len() {
        assert(p(s[s.len() - 1]));
        lemma_strip_end_is(s.drop_last(), p, n);
        assert(s.drop_last().take(n) == s.take(n));
    } else {
        if n > 0 {
            assert(!p(s.last()));
        }
        assert(s.take(n) == s);
    }
}

/// What is left of `s` after stripping is a prefix that does not end in `p`.
pub proof fn lemma_strip_end(s: Seq<char>, p: spec_fn(char) -> bool)
    ensures
        strip_end(s, p).len() <= s.len(),
        strip_end(s, p) == s.take(strip_end(s, p).len() as int),
        strip_end(s, p).len() > 0 ==> !p(strip_end(s, p).last()),
        forall|i: int| strip_end(s, p).len() <= i < s.len() ==> p(#[trigger] s[i]),
    decreases s.len(),
{
    if s.len() > 0 && p(s.last()) {
        let shorter = s.drop_last();
        lemma_strip_end(shorter, p);
        assert(shorter.take(strip_end(s, p).len() as int) == s.take(
            strip_end(s, p).len() as int,
        ));
        assert forall|i: int| strip_end(s, p).len() <= i < s.len() implies p(#[trigger] s[i]) by {
            if i < shorter.len() {
                assert(s[i] == shorter[i]);
            }
        }
    } else {
        assert(s.take(s.len() as int) == s);
    }
}

/// Whether a character is white space.
pub fn is_white_space(c: char) -> (b: bool)
    ensures
        b == white_space(c),
{
    ('\u{9}' <= c && c <= '\u{d}') || c == ' ' || c == '\u{85}' || c == '\u{a0}' || c == '\u{1680}'
        || ('\u{2000}' <= c && c <= '\u{200a}') || c == '\u{2028}' || c == '\u{2029}' || c
        == '\u{202f}' || c == '\u{205f}' || c == '\u{3000}'
}

/// The characters of a string, in order.
pub fn chars_of(s: &str) -> (v: Vec<char>)
    ensures
        v@ == s@,
{
    let mut v: Vec<char> = Vec::new();
    for c in it: s.chars()
        invariant
            v@.len() == it.index(),
            it.seq() == s@,
            forall|i: int| 0 <= i < v@.len() ==> v@[i] == it.seq()[i],
    {
        v.push(c);
    }
    v
}

/// The string that holds the characters `from..to` of `chars`.
pub fn string_of(chars: &Vec<char>, from: usize, to: usize) -> (s: String)
    requires
        from <= to <= chars@.len(),
    ensures
        s@ == chars@.subrange(from as int, to as int),
{
    let mut s = String::new();
    let mut i: usize = from;
    while i < to
        invariant
            from <= i <= to <= chars@.len(),
            s@ == chars@.subrange(from as int, i as int),
        decreases to - i,
    {
        s.push(chars[i]);
        i += 1;
    }
    s
}

/// The text without the white space at its end.
pub fn trim_end(s: &str) -> (r: String)
    ensures
        r@ == trimmed_end(s@),
{
    let chars = chars_of(s);
    let ghost p = |c: char| white_space(c);
    let mut end: usize = chars.len();
    while end > 0 && is_white_space(chars[end - 1])
        invariant
            end <= chars@.len(),
            p == (|c: char| white_space(c)),
            forall|i: int| end <= i < chars@.len() ==> p(#[trigger] chars@[i]),
        decreases end,
    {
        end -= 1;
    }
    proof {
        lemma_strip_end_is(s@, p, end as int);
    }
    string_of(&chars, 0, end)
}

/// The text without the white space at its two ends.
pub fn trim(s: &str) -> (r: String)
    ensures
        r@ == trimmed(s@),
{
    let chars = chars_of(s);
    let ghost p = |c: char| white_space(c);
    let mut start: usize = 0;
    while start < chars.len() && is_white_space(chars[start])
        invariant
            start <= chars@.len(),
            p == (|c: char| white_space(c)),
            forall|i: int| 0 <= i < start ==> p(#[trigger] chars@[i]),
        decreases chars.len() - start,
    {
        start += 1;
    }
    proof {
        lemma_run_is(s@, p, start as int);
    }
    trim_end(string_of(&chars, start, chars.len()).as_str())
}

/// The lines of a text.
pub fn lines(content: &str) -> (out: Vec<String>)
    ensures
        string_views(out@) == lines_of(content@),
{
    let chars = chars_of(content);
    let ghost p = |c: char| c != '\n';
    let mut out: Vec<String> = Vec::new();
    let mut start: usize = 0;
    let mut i: usize = 0;
    assert(content@.skip(0) == content@);
    assert(string_views(out@) == Seq::<Seq<char>>::empty());
    while i < chars.len()
        invariant
            p == (|c: char| c != '\n'),
            chars@ == content@,
            start <= i <= chars@.len(),
            forall|k: int| start <= k < i ==> chars@[k] != '\n',
            lines_of(content@) == string_views(out@) + lines_of(content@.skip(start as int)),
        decreases chars.len() - i,
    {
        if chars[i] == '\n' {
            let ghost rest = content@.skip(start as int);
            let ghost before = string_views(out@);
            let end: usize = if i > start && chars[i - 1] == '\r' {
                i - 1
            } else {
                i
            };
            out.push(string_of(&chars, start, end));
            proof {
                lemma_run_is(rest, p, i - start);
                assert(rest.take(i - start) == content@.subrange(start as int, i as int));
                assert(without_cr(rest.take(i - start)) == content@.subrange(
                    start as int,
                    end as int,
                ));
                assert(rest.skip(i - start + 1) == content@.skip(i + 1));
                assert(string_views(out@) == before.push(
                    content@.subrange(start as int, end as int),
                ));
                assert(lines_of(content@) == string_views(out@) + lines_of(content@.skip(i + 1)));
            }
            start = i + 1;
        }
        i += 1;
    }
    let ghost rest = content@.skip(start as int);
    if start < chars.len() {
        let ghost before = string_views(out@);
        out.push(string_of(&chars, start, chars.len()));
        proof {
            lemma_run_is(rest, p, rest.len() as int);
            assert(content@.subrange(start as int, content@.len() as int) == rest);
            assert(string_views(out@) == before.push(rest));
            assert(before.push(rest) == before + seq![rest]);
        }
    }
    out
}

/// A number in base ten.
pub fn number(n: usize) -> (s: String)
    ensures
        s@ == decimal(n as nat),
    decreases n,
{
    let digit: u8 = (n % 10) as u8;
    let c: char = (48 + digit) as char;
    let mut s = if n < 10 {
        String::new()
    } else {
        number(n / 10)
    };
    s.push(c);
    assert(c == ('0' as nat + (n as nat) % 10) as char);
    s
}

/// `count` copies of one character.
pub fn repeated(c: char, count: usize) -> (s: String)
    ensures
        s@ == Seq::new(count as nat, |i: int| c),
{
    let mut s = String::new();
    let mut i: usize = 0;
    while i < count
        invariant
            i <= count,
            s@ == Seq::new(i as nat, |k: int| c),
        decreases count - i,
    {
        s.push(c);
        i += 1;
    }
    s
}

} // verus!
