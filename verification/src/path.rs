//! File paths as sequences of bytes with `/` between their parts.
use vstd::prelude::*;
use vstd::utf8::{decode_utf8, encode_utf8, valid_utf8};

use crate::item::copy_bytes;

verus! {

/// The separator between the parts of a path.
pub const SLASH: u8 = 47;

/// The dot of `.`, of `..` and of file extensions.
pub const DOT: u8 = 46;

/// A part of a path, in the order in which parts of different kinds sort.
#[derive(Debug)]
pub enum PathPart {
    Root,
    CurDir,
    ParentDir,
    Normal(Vec<u8>),
}

pub ghost enum PartView {
    Root,
    CurDir,
    ParentDir,
    Normal(Seq<u8>),
}

impl View for PathPart {
    type V = PartView;

    open spec fn view(&self) -> PartView {
        match *self {
            PathPart::Root => PartView::Root,
            PathPart::CurDir => PartView::CurDir,
            PathPart::ParentDir => PartView::ParentDir,
            PathPart::Normal(name) => PartView::Normal(name@),
        }
    }
}

/// What each part of a list is.
pub open spec fn part_views(parts: Seq<PathPart>) -> Seq<PartView> {
    Seq::new(parts.len(), |i: int| parts[i]@)
}

/// What stands between the slashes of a path: always at least one piece, and an empty one
/// where a slash comes first, last, or after another.
pub open spec fn pieces(path: Seq<u8>) -> Seq<Seq<u8>>
    decreases path.len(),
{
    if path.len() == 0 {
        seq![Seq::empty()]
    } else {
        let before = pieces(path.drop_last());
        if path.last() == SLASH {
            before.push(Seq::empty())
        } else {
            before.drop_last().push(before.last().push(path.last()))
        }
    }
}

/// The part that a piece stands for; an empty piece and `.` stand for none.
pub open spec fn part_of(piece: Seq<u8>) -> Option<PartView> {
    if piece.len() == 0 || piece == seq![DOT] {
        None
    } else if piece == seq![DOT, DOT] {
        Some(PartView::ParentDir)
    } else {
        Some(PartView::Normal(piece))
    }
}

/// The parts that pieces stand for, in order.
pub open spec fn parts_of_pieces(ps: Seq<Seq<u8>>) -> Seq<PartView>
    decreases ps.len(),
{
    if ps.len() == 0 {
        Seq::empty()
    } else {
        match part_of(ps.last()) {
            Some(part) => parts_of_pieces(ps.drop_last()).push(part),
            None => parts_of_pieces(ps.drop_last()),
        }
    }
}

/// Whether a path starts with the piece `.`.
pub open spec fn starts_with_dot(path: Seq<u8>) -> bool {
    path.len() > 0 && path[0] == DOT && (path.len() == 1 || path[1] == SLASH)
}

/// The parts of a path. Repeated and trailing slashes do not matter, and neither does `.`
/// but at the start.
pub open spec fn path_parts(path: Seq<u8>) -> Seq<PartView> {
    let body = parts_of_pieces(pieces(path));
    if path.len() > 0 && path[0] == SLASH {
        seq![PartView::Root] + body
    } else if starts_with_dot(path) {
        seq![PartView::CurDir] + body
    } else {
        body
    }
}

/// Whether two paths are the same part for part.
pub open spec fn same_parts(a: Seq<u8>, b: Seq<u8>) -> bool {
    path_parts(a) == path_parts(b)
}

/// Where the last dot of a file name is; -1 where there is none.
pub open spec fn last_dot(name: Seq<u8>) -> int
    decreases name.len(),
{
    if name.len() == 0 {
        -1
    } else if name.last() == DOT {
        name.len() - 1
    } else {
        last_dot(name.drop_last())
    }
}

/// What follows the last dot of the file name. A dot that starts the name does not count,
/// and a path that ends in no name has no extension.
pub open spec fn extension(path: Seq<u8>) -> Option<Seq<u8>> {
    let parts = path_parts(path);
    if parts.len() == 0 {
        None
    } else {
        match parts.last() {
            PartView::Normal(name) => if last_dot(name) >= 1 {
                Some(name.skip(last_dot(name) + 1))
            } else {
                None
            },
            _ => None,
        }
    }
}

/// A byte with the ASCII capitals made small.
pub open spec fn lower_byte(b: u8) -> u8 {
    if 65 <= b <= 90 {
        (b + 32) as u8
    } else {
        b
    }
}

/// Bytes with the ASCII capitals made small.
pub open spec fn lower(bytes: Seq<u8>) -> Seq<u8> {
    Seq::new(bytes.len(), |i: int| lower_byte(bytes[i]))
}

/// Whether an extension is one of those of Markdown files.
pub open spec fn markdown_extension(ext: Seq<u8>) -> bool {
    ||| ext == encode_utf8("md"@)
    ||| ext == encode_utf8("markdown"@)
    ||| ext == encode_utf8("mdown"@)
    ||| ext == encode_utf8("mkd"@)
}

/// Whether a path is that of a Markdown file.
pub open spec fn markdown_path(path: Seq<u8>) -> bool {
    extension(path) matches Some(ext) && markdown_extension(lower(ext))
}

/// A path without the slashes and `.` pieces that it starts with.
pub open spec fn trim_front(s: Seq<u8>) -> Seq<u8>
    decreases s.len(),
{
    if s.len() > 0 && (s[0] == SLASH || starts_with_dot(s)) {
        trim_front(s.skip(1))
    } else {
        s
    }
}

/// Whether a path ends with the piece `.`.
pub open spec fn ends_with_dot(s: Seq<u8>) -> bool {
    s.len() > 0 && s.last() == DOT && (s.len() == 1 || s[s.len() - 2] == SLASH)
}

/// A path without the slashes and `.` pieces that it ends with.
pub open spec fn trim_back(s: Seq<u8>) -> Seq<u8>
    decreases s.len(),
{
    if s.len() > 0 && (s.last() == SLASH || ends_with_dot(s)) {
        trim_back(s.drop_last())
    } else {
        s
    }
}

/// The path as it is shown: without the `./` at its start, if it has one.
pub open spec fn shown_path(raw: Seq<u8>) -> Seq<u8> {
    if starts_with_dot(raw) {
        trim_back(trim_front(raw.skip(1)))
    } else {
        raw
    }
}

/// What `String::from_utf8_lossy` makes of these bytes.
pub uninterp spec fn utf8_lossy(bytes: Seq<u8>) -> Seq<char>;

/// `String::from_utf8_lossy`: the text that the bytes encode, if they are UTF-8; where they
/// are not, each ill-formed stretch becomes a replacement character. The text depends on
/// the bytes alone.
#[verifier::external_body]
pub(crate) fn lossy_text(bytes: &[u8]) -> (s: String)
    ensures
        s@ == utf8_lossy(bytes@),
        valid_utf8(bytes@) ==> s@ == decode_utf8(bytes@),
{
    String::from_utf8_lossy(bytes).into_owned()
}

/// A path as it reads: the text that its bytes encode, if they are UTF-8, and else that text
/// with the ill-formed stretches replaced.
pub open spec fn path_text(path: Seq<u8>) -> Seq<char> {
    if valid_utf8(path) {
        decode_utf8(path)
    } else {
        utf8_lossy(path)
    }
}

/// Whether two sequences of bytes are equal.
pub fn equal_bytes(a: &[u8], b: &[u8]) -> (same: bool)
    ensures
        same == (a@ == b@),
{
    if a.len() != b.len() {
        return false;
    }
    let mut i: usize = 0;
    while i < a.len()
        invariant
            i <= a@.len() == b@.len(),
            a@.take(i as int) == b@.take(i as int),
        decreases a.len() - i,
    {
        if a[i] != b[i] {
            assert(a@[i as int] != b@[i as int]);
            return false;
        }
        assert(a@.take(i + 1) == a@.take(i as int).push(a@[i as int]));
        assert(b@.take(i + 1) == b@.take(i as int).push(b@[i as int]));
        i += 1;
    }
    assert(a@.take(a@.len() as int) == a@);
    assert(b@.take(b@.len() as int) == b@);
    true
}

/// Adds the part that a piece stands for, if it stands for one.
fn add_part(parts: &mut Vec<PathPart>, piece: Vec<u8>)
    ensures
        part_views(final(parts)@) == match part_of(piece@) {
            Some(part) => part_views(old(parts)@).push(part),
            None => part_views(old(parts)@),
        },
{
    let ghost before = parts@;
    if piece.len() == 0 || (piece.len() == 1 && piece[0] == DOT) {
        assert(piece@.len() == 1 ==> piece@ == seq![piece@[0]]);
    } else if piece.len() == 2 && piece[0] == DOT && piece[1] == DOT {
        assert(piece@ == seq![DOT, DOT]);
        parts.push(PathPart::ParentDir);
        assert(part_views(parts@) == part_views(before).push(PartView::ParentDir));
    } else {
        assert(seq![DOT][0] == DOT);
        assert(seq![DOT, DOT][0] == DOT && seq![DOT, DOT][1] == DOT);
        let ghost name = piece@;
        parts.push(PathPart::Normal(piece));
        assert(part_views(parts@) == part_views(before).push(PartView::Normal(name)));
    }
}

/// The parts of a path.
pub fn parts_of(path: &[u8]) -> (parts: Vec<PathPart>)
    ensures
        part_views(parts@) == path_parts(path@),
{
    let mut parts: Vec<PathPart> = Vec::new();
    if path.len() > 0 && path[0] == SLASH {
        parts.push(PathPart::Root);
    } else if path.len() > 0 && path[0] == DOT && (path.len() == 1 || path[1] == SLASH) {
        parts.push(PathPart::CurDir);
    }
    let ghost lead = part_views(parts@);
    let mut piece: Vec<u8> = Vec::new();
    let mut i: usize = 0;
    assert(piece@ == Seq::<u8>::empty());
    assert(pieces(path@.take(0)).drop_last() == Seq::<Seq<u8>>::empty());
    while i < path.len()
        invariant
            i <= path@.len(),
            pieces(path@.take(i as int)).len() > 0,
            piece@ == pieces(path@.take(i as int)).last(),
            part_views(parts@) == lead + parts_of_pieces(
                pieces(path@.take(i as int)).drop_last(),
            ),
        decreases path.len() - i,
    {
        let b: u8 = path[i];
        let ghost before = pieces(path@.take(i as int));
        let ghost after = pieces(path@.take(i + 1));
        assert(path@.take(i + 1).drop_last() == path@.take(i as int));
        if b == SLASH {
            assert(after.drop_last() == before);
            add_part(&mut parts, piece);
            piece = Vec::new();
            assert(piece@ == after.last());
        } else {
            piece.push(b);
            assert(after.drop_last() == before.drop_last());
        }
        i += 1;
    }
    assert(path@.take(path@.len() as int) == path@);
    add_part(&mut parts, piece);
    assert(part_views(parts@) == lead + parts_of_pieces(pieces(path@)));
    parts
}

/// Whether an extension, in small letters, is one of those of Markdown files.
fn is_markdown_extension(ext: &Vec<u8>) -> (b: bool)
    ensures
        b == markdown_extension(ext@),
{
    equal_bytes(ext.as_slice(), "md".as_bytes()) || equal_bytes(
        ext.as_slice(),
        "markdown".as_bytes(),
    ) || equal_bytes(ext.as_slice(), "mdown".as_bytes()) || equal_bytes(
        ext.as_slice(),
        "mkd".as_bytes(),
    )
}

/// Whether a path is that of a Markdown file: its extension, whatever the case of its
/// letters, is `md`, `markdown`, `mdown` or `mkd`.
pub fn is_markdown(path: &[u8]) -> (b: bool)
    ensures
        b == markdown_path(path@),
{
    let parts = parts_of(path);
    let ghost views = part_views(parts@);
    if parts.len() == 0 {
        return false;
    }
    assert(views.last() == parts@[parts@.len() - 1]@);
    match &parts[parts.len() - 1] {
        PathPart::Normal(name) => {
            let mut dot: usize = name.len();
            assert(name@.take(name@.len() as int) == name@);
            while dot > 0 && name[dot - 1] != DOT
                invariant
                    dot <= name@.len(),
                    last_dot(name@) == last_dot(name@.take(dot as int)),
                decreases dot,
            {
                assert(name@.take(dot as int).drop_last() == name@.take(dot - 1));
                dot -= 1;
            }
            proof {
                if dot > 0 {
                    assert(name@.take(dot as int).last() == DOT);
                }
                assert(last_dot(name@) == dot - 1);
            }
            if dot < 2 {
                return false;
            }
            let ghost ext = name@.skip(dot as int);
            let mut small: Vec<u8> = Vec::new();
            let mut i: usize = dot;
            while i < name.len()
                invariant
                    1 <= dot <= i <= name@.len(),
                    ext == name@.skip(dot as int),
                    small@ == lower(ext).take(i - dot),
                decreases name.len() - i,
            {
                let b: u8 = name[i];
                small.push(
                    if 65 <= b && b <= 90 {
                        b + 32
                    } else {
                        b
                    },
                );
                assert(lower(ext)[i - dot] == lower_byte(b));
                i += 1;
            }
            assert(lower(ext).take(ext.len() as int) == lower(ext));
            is_markdown_extension(&small)
        },
        _ => false,
    }
}

/// The path as it is shown: without the `./` at its start, if it has one.
pub fn display_path(raw: &[u8]) -> (shown: Vec<u8>)
    ensures
        shown@ == shown_path(raw@),
{
    if !(raw.len() > 0 && raw[0] == DOT && (raw.len() == 1 || raw[1] == SLASH)) {
        return copy_bytes(raw);
    }
    let mut from: usize = 1;
    while from < raw.len() && (raw[from] == SLASH || (raw[from] == DOT && (from + 1 == raw.len()
        || raw[from + 1] == SLASH)))
        invariant
            1 <= from <= raw@.len(),
            trim_front(raw@.skip(1)) == trim_front(raw@.skip(from as int)),
        decreases raw.len() - from,
    {
        assert(raw@.skip(from as int).skip(1) == raw@.skip(from + 1));
        from += 1;
    }
    let ghost kept = raw@.skip(from as int);
    let mut to: usize = raw.len();
    assert(raw@.subrange(from as int, to as int) == kept);
    while to > from && (raw[to - 1] == SLASH || (raw[to - 1] == DOT && (to - 1 == from || raw[to
        - 2] == SLASH)))
        invariant
            1 <= from <= to <= raw@.len(),
            trim_back(kept) == trim_back(raw@.subrange(from as int, to as int)),
        decreases to - from,
    {
        assert(raw@.subrange(from as int, to as int).drop_last() == raw@.subrange(
            from as int,
            to - 1,
        ));
        to -= 1;
    }
    let mut shown: Vec<u8> = Vec::new();
    let mut i: usize = from;
    while i < to
        invariant
            from <= i <= to <= raw@.len(),
            shown@ == raw@.subrange(from as int, i as int),
        decreases to - i,
    {
        shown.push(raw[i]);
        i += 1;
    }
    shown
}

} // verus!
