use std::path::Path;

use md_scan::order::same_path;
use md_scan::path::{display_path, is_markdown, parts_of, PathPart};

const PATHS: [&str; 24] = [
    "a.md", "./a.md", "././a.md", ".//a.md", "./a.md/", "./a.md/.", "./a//b.md", ".", "./", "",
    "/a.md", "/./a.md", "a/../b.md", "..", "a/..", "a/b/", "a/./b", "a//b", ".md", "./.md",
    ".a.md", "a.", "a.b.c", "../x.mkd",
];

fn std_is_markdown(path: &str) -> bool {
    let ext = Path::new(path)
        .extension()
        .and_then(|s| s.to_str())
        .map(|s| s.to_ascii_lowercase());
    match ext {
        Some(e) => e == "md" || e == "markdown" || e == "mdown" || e == "mkd",
        None => false,
    }
}

#[test]
fn markdown_extensions() {
    assert!(is_markdown(b"a.md"));
    assert!(is_markdown(b"dir/a.markdown"));
    assert!(is_markdown(b"a.mdown"));
    assert!(is_markdown(b"a.mkd"));
    assert!(!is_markdown(b"a.txt"));
    assert!(!is_markdown(b"a.mdx"));
    assert!(!is_markdown(b"md"));
    assert!(!is_markdown(b"a.md.bak"));
}

#[test]
fn markdown_ignores_case() {
    assert!(is_markdown(b"README.MD"));
    assert!(is_markdown(b"a.MarkDown"));
    assert!(is_markdown(b"a.mKd"));
}

#[test]
fn hidden_names_have_no_extension() {
    assert!(!is_markdown(b".md"));
    assert!(!is_markdown(b"dir/.md"));
    assert!(is_markdown(b".notes.md"));
    assert!(!is_markdown(b"dir.md/.."));
}

#[test]
fn names_need_not_be_text() {
    assert!(is_markdown(b"\xff\xfe.md"));
    assert!(!is_markdown(b"a.m\xff"));
}

#[test]
fn markdown_agrees_with_std() {
    for p in PATHS {
        assert_eq!(is_markdown(p.as_bytes()), std_is_markdown(p), "{p}");
        let file = format!("{p}/note.Md");
        assert_eq!(is_markdown(file.as_bytes()), std_is_markdown(&file), "{file}");
    }
}

#[test]
fn shown_without_leading_dot() {
    assert_eq!(display_path(b"./a.md"), b"a.md".to_vec());
    assert_eq!(display_path(b"./sub/a.md"), b"sub/a.md".to_vec());
    assert_eq!(display_path(b"a.md"), b"a.md".to_vec());
    assert_eq!(display_path(b"./.hidden/a.md"), b".hidden/a.md".to_vec());
    assert_eq!(display_path(b"/abs/a.md"), b"/abs/a.md".to_vec());
    assert_eq!(display_path(b"../a.md"), b"../a.md".to_vec());
    assert_eq!(display_path(b"."), b"".to_vec());
}

#[test]
fn shown_agrees_with_std() {
    for p in PATHS {
        let raw = Path::new(p);
        let want = raw.strip_prefix(".").unwrap_or(raw);
        assert_eq!(display_path(p.as_bytes()), want.to_str().unwrap().as_bytes().to_vec(), "{p}");
    }
}

#[test]
fn showing_takes_one_part_away() {
    let raw = parts_of(b"./a//b/.");
    let shown = parts_of(&display_path(b"./a//b/."));
    assert_eq!(raw.len(), 3);
    assert_eq!(shown.len(), 2);
    assert!(matches!(raw[0], PathPart::CurDir));
    assert!(matches!(&shown[0], PathPart::Normal(n) if n == b"a"));
    assert!(matches!(&shown[1], PathPart::Normal(n) if n == b"b"));
}

#[test]
fn parts_agree_with_std() {
    for p in PATHS {
        let want = Path::new(p).components().count();
        assert_eq!(parts_of(p.as_bytes()).len(), want, "{p}");
    }
}

#[test]
fn same_paths_agree_with_std() {
    for p in PATHS {
        for q in PATHS {
            assert_eq!(
                same_path(p.as_bytes(), q.as_bytes()),
                Path::new(p) == Path::new(q),
                "{p} {q}"
            );
        }
    }
}

#[test]
fn the_name_alone_makes_a_markdown_file() {
    for name in ["a.md", "a.txt", ".md", "..", "..md", "A.MKD", "md"] {
        for dir in ["", ".", "..", "a.md", "x/y.txt", "/", "x.md/."] {
            let path = format!("{dir}/{name}");
            assert_eq!(is_markdown(path.as_bytes()), is_markdown(name.as_bytes()), "{path}");
        }
    }
    assert!(is_markdown(b"a.md/.") && !is_markdown(b"."));
}
