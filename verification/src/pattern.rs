//! The calls into the `regex` crate.
use regex::Regex;
use vstd::prelude::*;

use crate::grammar::{HEADING_PATTERN, TASK_PATTERN};
#[allow(unused_imports)]
use crate::grammar::{heading_groups, task_groups, Groups};

verus! {

/// The compiled pattern of the `regex` crate.
#[verifier::external_type_specification]
#[verifier::external_body]
pub struct ExRegex(regex::Regex);

/// The text that `Regex::new` compiled a pattern from.
pub uninterp spec fn regex_pattern(re: Regex) -> Seq<char>;

/// The contents of the groups of a match.
pub open spec fn groups_view(groups: Seq<Option<String>>) -> Groups {
    Seq::new(
        groups.len(),
        |i: int|
            match groups[i] {
                Some(g) => Some(g@),
                None => None,
            },
    )
}

/// The contents of the groups of a match, if there was one.
pub open spec fn match_view(found: Option<Vec<Option<String>>>) -> Option<Groups> {
    match found {
        Some(groups) => Some(groups_view(groups@)),
        None => None,
    }
}

/// Whether a pattern is one of this library's two.
pub open spec fn own_pattern(pattern: Seq<char>) -> bool {
    pattern == HEADING_PATTERN@ || pattern == TASK_PATTERN@
}

/// `Regex::new`, for the two patterns of this library: both are of the syntax that the
/// `regex` crate documents, and small beside its limit on compiled patterns, so both compile.
/// An error would come back as the text that the `regex` crate displays for it.
#[verifier::external_body]
pub(crate) fn compile(pattern: &str) -> (res: Result<Regex, String>)
    requires
        own_pattern(pattern@),
    ensures
        res is Ok,
        regex_pattern(res->Ok_0) == pattern@,
{
    Regex::new(pattern).map_err(|e| e.to_string())
}

/// `Regex::captures`, for the two patterns of this library, with every group copied out in
/// the order of `Captures::iter`. A pattern anchored at both ends finds the whole text or
/// nothing, `.` is any character but `\n`, a repetition takes as much as it can, and `.*?`
/// takes as little as it can.
#[verifier::external_body]
pub(crate) fn captures(re: &Regex, text: &str) -> (res: Option<Vec<Option<String>>>)
    requires
        own_pattern(regex_pattern(*re)),
    ensures
        regex_pattern(*re) == HEADING_PATTERN@ ==> match_view(res) == heading_groups(text@),
        regex_pattern(*re) == TASK_PATTERN@ ==> match_view(res) == task_groups(text@),
{
    re.captures(text).map(
        |found| found.iter().map(|group| group.map(|m| m.as_str().to_string())).collect(),
    )
}

/// Both patterns, compiled.
pub fn compile_patterns() -> (res: Result<(Regex, Regex), String>)
    ensures
        res matches Ok(both) && regex_pattern(both.0) == HEADING_PATTERN@ && regex_pattern(both.1)
            == TASK_PATTERN@,
{
    both_patterns(compile(HEADING_PATTERN), compile(TASK_PATTERN))
}

/// Two compiled patterns as one result: the error of the first comes before that of the second.
pub fn both_patterns(first: Result<Regex, String>, second: Result<Regex, String>) -> (res: Result<
    (Regex, Regex),
    String,
>)
    ensures
        res == match (first, second) {
            (Err(e), _) => Err(e),
            (Ok(_), Err(e)) => Err(e),
            (Ok(a), Ok(b)) => Ok((a, b)),
        },
{
    match first {
        Err(e) => Err(e),
        Ok(a) => match second {
            Err(e) => Err(e),
            Ok(b) => Ok((a, b)),
        },
    }
}

} // verus!
