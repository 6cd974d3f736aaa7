use std::path::Path;

use md_scan::item::{Item, ItemKind};
use md_scan::order::sort_items;
use md_scan::pattern::compile_patterns;
use md_scan::scan::{file_to_read, Entry, Scanner};

fn task(path: &str, line: usize, body: &str) -> Item {
    Item {
        path: path.as_bytes().to_vec(),
        line,
        kind: ItemKind::Task { done: false, indent: 0, body: body.to_string() },
    }
}

fn keys(items: &[Item]) -> Vec<(String, usize)> {
    items.iter().map(|i| (String::from_utf8(i.path.clone()).unwrap(), i.line)).collect()
}

fn bodies(items: &[Item]) -> Vec<String> {
    items
        .iter()
        .map(|i| match &i.kind {
            ItemKind::Task { body, .. } => body.clone(),
            ItemKind::Heading(_, text) => text.clone(),
        })
        .collect()
}

const PATHS: [&str; 16] = [
    "b.md", "a/b", "a.md", "a", "a/b/c", "..", "+", ".", "/", "/a", "../a", "a/..", "a/+", "Z",
    "é", "a//b",
];

#[test]
fn ordered_by_path_and_line() {
    let sorted = sort_items(vec![
        task("b.md", 1, ""),
        task("a.md", 10, ""),
        task("a/z.md", 3, ""),
        task("a.md", 2, ""),
    ]);
    let want = vec![("a/z.md", 3), ("a.md", 2), ("a.md", 10), ("b.md", 1)];
    let want: Vec<(String, usize)> = want.into_iter().map(|(p, l)| (p.to_string(), l)).collect();
    assert_eq!(keys(&sorted), want);
}

#[test]
fn order_agrees_with_std() {
    let mut items = Vec::new();
    for (i, p) in PATHS.iter().enumerate() {
        items.push(task(p, 2, &format!("{i}b")));
        items.push(task(p, 1, &format!("{i}a")));
        items.push(task(p, 2, &format!("{i}c")));
    }
    let mut want: Vec<(String, usize, String)> = keys(&items)
        .into_iter()
        .zip(bodies(&items))
        .map(|((p, l), b)| (p, l, b))
        .collect();
    want.sort_by(|a, b| {
        (Path::new(&a.0), a.1).partial_cmp(&(Path::new(&b.0), b.1)).unwrap()
    });
    let sorted = sort_items(items);
    let got: Vec<(String, usize, String)> = keys(&sorted)
        .into_iter()
        .zip(bodies(&sorted))
        .map(|((p, l), b)| (p, l, b))
        .collect();
    assert_eq!(got, want);
}

#[test]
fn sorting_is_stable() {
    let sorted = sort_items(vec![
        task("a", 1, "first"),
        task("./a", 1, "other path"),
        task("a", 1, "second"),
        task("a/", 1, "third"),
        task("a", 0, "zero"),
    ]);
    assert_eq!(bodies(&sorted), vec!["other path", "zero", "first", "second", "third"]);
}

#[test]
fn sorting_nothing() {
    assert_eq!(sort_items(Vec::new()).len(), 0);
    assert_eq!(sort_items(vec![task("a", 1, "x")]).len(), 1);
}

#[test]
fn sorting_many() {
    let mut items = Vec::new();
    let mut n: usize = 1;
    for _ in 0..500 {
        n = (n * 7919) % 1009;
        items.push(task(&format!("f{}", n % 10), n, ""));
    }
    let mut want = keys(&items);
    want.sort();
    assert_eq!(keys(&sort_items(items)), want);
}

#[test]
fn which_files_are_read() {
    let entry = |p: &str, is_file: bool| Entry { path: p.as_bytes().to_vec(), is_file };
    assert_eq!(file_to_read(Some(&entry("./a.md", true))), Some(b"./a.md".to_vec()));
    assert_eq!(file_to_read(Some(&entry("./a.md", false))), None);
    assert_eq!(file_to_read(Some(&entry("./a.txt", true))), None);
    assert_eq!(file_to_read(None), None);
}

fn scan(files: &[(&str, Option<&str>)]) -> Vec<Item> {
    let mut scanner = Scanner::new().unwrap();
    for (raw, content) in files {
        scanner.add_file(raw.as_bytes(), *content);
    }
    scanner.finish()
}

#[test]
fn a_scan_gathers_and_sorts() {
    let items = scan(&[
        ("./z.md", Some("# Z\n- [ ] t\n")),
        ("./gone.md", None),
        ("./a/b.md", Some("text\n# B\n")),
        ("./empty.md", Some("")),
    ]);
    let want = vec![("a/b.md", 2), ("z.md", 1), ("z.md", 2)];
    let want: Vec<(String, usize)> = want.into_iter().map(|(p, l)| (p.to_string(), l)).collect();
    assert_eq!(keys(&items), want);
    assert_eq!(bodies(&items), vec!["B", "Z", "t"]);
}

#[test]
fn the_order_of_the_walk_does_not_matter() {
    let one = scan(&[("./a.md", Some("# 1\n# 2")), ("./b.md", Some("- [x] 3"))]);
    let two = scan(&[("./b.md", Some("- [x] 3")), ("./a.md", Some("# 1\n# 2"))]);
    assert_eq!(keys(&one), keys(&two));
    assert_eq!(bodies(&one), bodies(&two));
}

/// A scan over entries of a walk, each with what is read where it is read.
fn walk(visits: Vec<(Option<Entry>, Option<&str>)>) -> Vec<Item> {
    let mut scanner = Scanner::new().unwrap();
    for (entry, content) in visits {
        scanner.visit(entry.as_ref(), content);
    }
    scanner.finish()
}

#[test]
fn what_cannot_be_read_changes_nothing() {
    let entry = |p: &str, is_file: bool| Some(Entry { path: p.as_bytes().to_vec(), is_file });
    let plain = || vec![(entry("./b.md", true), Some("# b")), (entry("./a.md", true), Some("# a"))];
    assert_eq!(bodies(&walk(plain())), vec!["a", "b"]);
    for k in 0..3 {
        for visit in [
            (None, Some("# x")),
            (entry("./c.md", false), Some("# x")),
            (entry("./c.txt", true), Some("# x")),
            (entry("./c.md", true), None),
        ] {
            let mut visits = plain();
            visits.insert(k, visit);
            let items = walk(visits);
            assert_eq!(keys(&items), keys(&walk(plain())));
            assert_eq!(bodies(&items), vec!["a", "b"]);
        }
    }
}

#[test]
fn a_scan_with_compiled_patterns() {
    let (heading_re, task_re) = compile_patterns().unwrap();
    let mut scanner = Scanner::with_patterns(heading_re, task_re);
    scanner.add_file(b"x.md", Some("# X"));
    assert_eq!(bodies(&scanner.finish()), vec!["X"]);
}
