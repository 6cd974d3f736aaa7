use md_scan::extract::{extract, heading_item, line_item, task_item, visual_indent};
use md_scan::grammar::{HEADING_PATTERN, TASK_PATTERN};
use md_scan::item::{Item, ItemKind};
use md_scan::pattern::{both_patterns, compile_patterns};
use md_scan::text::{is_white_space, lines, number, repeated, trim, trim_end};
use regex::Regex;

fn items(content: &str) -> Vec<Item> {
    let (heading_re, task_re) = compile_patterns().unwrap();
    extract(b"notes.md", content, &heading_re, &task_re)
}

fn describe(item: &Item) -> String {
    let path = String::from_utf8(item.path.clone()).unwrap();
    match &item.kind {
        ItemKind::Heading(level, text) => format!("{path}:{} H{level} <{text}>", item.line),
        ItemKind::Task { done, indent, body } => {
            format!("{path}:{} T{done} {indent} <{body}>", item.line)
        }
    }
}

fn described(content: &str) -> Vec<String> {
    items(content).iter().map(describe).collect()
}

fn one(line: &str) -> Option<String> {
    let (heading_re, task_re) = compile_patterns().unwrap();
    line_item(b"f", 1, line, &heading_re, &task_re).map(|i| describe(&i))
}

#[test]
fn headings_and_tasks_of_a_file() {
    let content = "# Title\n\nText\n\n## Part ##\n- [ ] open\n  * [x] done  \n\t+ [X]\tdeep\n";
    assert_eq!(
        described(content),
        vec![
            "notes.md:1 H1 <Title>",
            "notes.md:5 H2 <Part>",
            "notes.md:6 Tfalse 0 <open>",
            "notes.md:7 Ttrue 2 <done>",
            "notes.md:8 Ttrue 4 <deep>",
        ]
    );
}

#[test]
fn heading_levels() {
    assert_eq!(one("# a"), Some("f:1 H1 <a>".to_string()));
    assert_eq!(one("## a"), Some("f:1 H2 <a>".to_string()));
    assert_eq!(one("### a"), Some("f:1 H3 <a>".to_string()));
    assert_eq!(one("#### a"), Some("f:1 H4 <a>".to_string()));
    assert_eq!(one("##### a"), Some("f:1 H5 <a>".to_string()));
    assert_eq!(one("###### a"), Some("f:1 H6 <a>".to_string()));
    assert_eq!(one("####### a"), None);
    assert_eq!(one("#a"), None);
    assert_eq!(one("#"), None);
    assert_eq!(one(" # a"), None);
    assert_eq!(one(""), None);
}

#[test]
fn closing_hashes() {
    assert_eq!(one("# a #"), Some("f:1 H1 <a>".to_string()));
    assert_eq!(one("# a ### \t"), Some("f:1 H1 <a>".to_string()));
    assert_eq!(one("# a#"), Some("f:1 H1 <a>".to_string()));
    assert_eq!(one("# a # b #"), Some("f:1 H1 <a # b>".to_string()));
    assert_eq!(one("# a # #"), Some("f:1 H1 <a #>".to_string()));
    assert_eq!(one("# "), Some("f:1 H1 <>".to_string()));
    assert_eq!(one("# ##"), Some("f:1 H1 <>".to_string()));
    assert_eq!(one("#\t \ta\tb"), Some("f:1 H1 <a\tb>".to_string()));
}

#[test]
fn titles_lose_all_white_space() {
    assert_eq!(one("# \u{3000}a\u{a0}"), Some("f:1 H1 <a>".to_string()));
    assert_eq!(one("## 标题\r"), Some("f:1 H2 <标题>".to_string()));
}

#[test]
fn tasks() {
    assert_eq!(one("- [ ] a"), Some("f:1 Tfalse 0 <a>".to_string()));
    assert_eq!(one("* [x] a"), Some("f:1 Ttrue 0 <a>".to_string()));
    assert_eq!(one("+ [X] a"), Some("f:1 Ttrue 0 <a>".to_string()));
    assert_eq!(one(" \t - [ ] a"), Some("f:1 Tfalse 6 <a>".to_string()));
    assert_eq!(one("-   [x] \t  a b \t"), Some("f:1 Ttrue 0 <a b>".to_string()));
    assert_eq!(one("- [ ] "), Some("f:1 Tfalse 0 <>".to_string()));
    assert_eq!(one("- [ ]"), None);
    assert_eq!(one("- [y] a"), None);
    assert_eq!(one("-[ ] a"), None);
    assert_eq!(one("- [ ]a"), None);
    assert_eq!(one("- [  ] a"), None);
    assert_eq!(one("1. [ ] a"), None);
    assert_eq!(one("- [x] # a"), Some("f:1 Ttrue 0 <# a>".to_string()));
}

#[test]
fn headings_are_no_tasks() {
    assert_eq!(one("# - [ ] a"), Some("f:1 H1 <- [ ] a>".to_string()));
    assert_eq!(one("- [ ] # a #"), Some("f:1 Tfalse 0 <# a #>".to_string()));
}

#[test]
fn a_line_with_a_newline_in_it_is_nothing() {
    assert_eq!(one("# a\nb"), None);
    assert_eq!(one("- [ ] a\nb"), None);
}

#[test]
fn level_is_the_length_of_the_hashes() {
    let item = heading_item(b"p", 7, "###", "  t ");
    assert_eq!(describe(&item), "p:7 H3 <t>");
    let item = heading_item(b"p", 7, &repeated('#', 257), "t");
    assert_eq!(describe(&item), "p:7 H1 <t>");
}

#[test]
fn marks_of_tasks() {
    assert_eq!(describe(&task_item(b"p", 3, "\t ", "x", "b ")), "p:3 Ttrue 5 <b>");
    assert_eq!(describe(&task_item(b"p", 3, "", "X", " b")), "p:3 Ttrue 0 < b>");
    assert_eq!(describe(&task_item(b"p", 3, "", " ", "b")), "p:3 Tfalse 0 <b>");
    assert_eq!(describe(&task_item(b"p", 3, "", "xx", "b")), "p:3 Tfalse 0 <b>");
}

#[test]
fn line_endings() {
    assert_eq!(described("# a\r\n# b\r\n"), described("# a\n# b"));
    assert_eq!(described("# a\n# b\n"), described("# a\n# b"));
    assert_eq!(described("\n\n# c").len(), 1);
    assert_eq!(described("\n\n# c")[0], "notes.md:3 H1 <c>");
    assert_eq!(described("").len(), 0);
    assert_eq!(described("\n\n").len(), 0);
    assert_eq!(described("# a #\r")[0], "notes.md:1 H1 <a #>");
    assert_eq!(described("# a #\r\n")[0], "notes.md:1 H1 <a>");
    assert_eq!(described("# a #\r\r\n")[0], "notes.md:1 H1 <a #>");
}

#[test]
fn texts_put_together() {
    let second = "- [ ] b\n\n## c";
    for first in ["", "\n", "# a\n", "# a\r\n\n- [x] x\n"] {
        let newlines = first.matches('\n').count();
        let mut want = items(first);
        for mut item in items(second) {
            item.line += newlines;
            want.push(item);
        }
        let want: Vec<String> = want.iter().map(describe).collect();
        assert_eq!(described(&format!("{first}{second}")), want);
    }
    assert_eq!(described(&format!("# a\n{second}"))[2], "notes.md:4 H2 <c>");
}

#[test]
fn lines_agree_with_std() {
    for s in [
        "", "\n", "\r\n", "a", "a\n", "a\r", "a\r\n", "a\r\r\n", "a\nb", "a\n\nb\r\n\r\nc\r",
        "\r\na", "é\n文\r\n", "\r", "\n\r",
    ] {
        let want: Vec<String> = s.lines().map(|l| l.to_string()).collect();
        assert_eq!(lines(s), want, "{s:?}");
    }
}

#[test]
fn trimming_agrees_with_std() {
    for s in ["", " ", "a", " a ", "\t\u{85}a b\u{2028}", "\u{200b}a", "\u{3000}", "a\u{1680} "] {
        assert_eq!(trim(s), s.trim().to_string(), "{s:?}");
        assert_eq!(trim_end(s), s.trim_end().to_string(), "{s:?}");
    }
}

#[test]
fn white_space_agrees_with_std() {
    for n in 0..=0x10ffffu32 {
        if let Some(c) = char::from_u32(n) {
            assert_eq!(is_white_space(c), c.is_whitespace(), "{n:x}");
        }
    }
}

#[test]
fn numbers_in_base_ten() {
    assert_eq!(number(0), "0");
    assert_eq!(number(9), "9");
    assert_eq!(number(10), "10");
    assert_eq!(number(90210), "90210");
    assert_eq!(number(usize::MAX), usize::MAX.to_string());
}

#[test]
fn tab_is_as_wide_as_four_spaces() {
    assert_eq!(visual_indent(""), 0);
    assert_eq!(visual_indent("  "), 2);
    assert_eq!(visual_indent("\t"), 4);
    assert_eq!(visual_indent(" \t "), visual_indent("      "));
    assert_eq!(visual_indent("é文"), 2);
}

#[test]
fn patterns_compile() {
    let (heading_re, task_re) = compile_patterns().unwrap();
    assert_eq!(heading_re.as_str(), HEADING_PATTERN);
    assert_eq!(task_re.as_str(), TASK_PATTERN);
}

#[test]
fn first_error_of_two_patterns() {
    let bad = || Err("bad".to_string());
    let worse = || Err("worse".to_string());
    let good = || Ok(Regex::new("a").unwrap());
    assert_eq!(both_patterns(bad(), worse()).unwrap_err(), "bad");
    assert_eq!(both_patterns(good(), worse()).unwrap_err(), "worse");
    assert_eq!(both_patterns(bad(), good()).unwrap_err(), "bad");
    assert!(both_patterns(good(), good()).is_ok());
}
