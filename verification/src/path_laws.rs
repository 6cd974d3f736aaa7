//! What holds of paths as a whole.
use vstd::prelude::*;

#[allow(unused_imports)]
use crate::path::{
    display_path, ends_with_dot, extension, is_markdown, last_dot, lower, lower_byte,
    markdown_extension, markdown_path, part_of, part_views, parts_of_pieces, path_parts, path_text,
    pieces, shown_path, starts_with_dot, trim_back, trim_front, utf8_lossy, PartView, PathPart,
    DOT, SLASH,
};
#[allow(unused_imports)]
use vstd::utf8::{
    encode_utf8, encode_utf8_decode_utf8, encode_utf8_valid_utf8, is_ascii_chars,
    is_ascii_chars_encode_utf8, valid_utf8,
};

verus! {

proof fn lemma_pieces_nonempty(s: Seq<u8>)
    ensures
        pieces(s).len() > 0,
    decreases s.len(),
{
    if s.len() > 0 {
        lemma_pieces_nonempty(s.drop_last());
    }
}

proof fn lemma_parts_concat(a: Seq<Seq<u8>>, b: Seq<Seq<u8>>)
    ensures
        parts_of_pieces(a + b) == parts_of_pieces(a) + parts_of_pieces(b),
    decreases b.len(),
{
    if b.len() == 0 {
        assert(a + b == a);
    } else {
        lemma_parts_concat(a, b.drop_last());
        assert((a + b).drop_last() == a + b.drop_last());
        assert((a + b).last() == b.last());
    }
}

/// A slash in front of a path puts an empty piece in front of its pieces.
proof fn lemma_pieces_slash_front(s: Seq<u8>)
    ensures
        pieces(seq![SLASH] + s) == seq![Seq::<u8>::empty()] + pieces(s),
    decreases s.len(),
{
    let t = seq![SLASH] + s;
    if s.len() == 0 {
        assert(t == seq![SLASH]);
        assert(t.drop_last() == Seq::<u8>::empty());
        assert(pieces(t.drop_last()) == seq![Seq::<u8>::empty()]);
        assert(pieces(t) == seq![Seq::<u8>::empty()].push(Seq::empty()));
    } else {
        lemma_pieces_slash_front(s.drop_last());
        lemma_pieces_nonempty(s.drop_last());
        assert(t.drop_last() == seq![SLASH] + s.drop_last());
        assert(t.last() == s.last());
        assert(pieces(t) == seq![Seq::<u8>::empty()] + pieces(s));
    }
}

/// The pieces of a path that starts with the piece `.` are that piece and those of the rest.
proof fn lemma_pieces_dot_front(s: Seq<u8>)
    ensures
        pieces(seq![DOT, SLASH] + s) == seq![seq![DOT]] + pieces(s),
    decreases s.len(),
{
    let t = seq![DOT, SLASH] + s;
    if s.len() == 0 {
        let d = seq![DOT];
        assert(t.drop_last() == d);
        assert(d.drop_last() == Seq::<u8>::empty());
        assert(pieces(d.drop_last()) == seq![Seq::<u8>::empty()]);
        assert(pieces(d) == seq![Seq::<u8>::empty().push(DOT)]);
        assert(Seq::<u8>::empty().push(DOT) == seq![DOT]);
        assert(pieces(t) == seq![seq![DOT]].push(Seq::empty()));
    } else {
        lemma_pieces_dot_front(s.drop_last());
        lemma_pieces_nonempty(s.drop_last());
        assert(t.drop_last() == seq![DOT, SLASH] + s.drop_last());
        assert(t.last() == s.last());
        assert(pieces(t) == seq![seq![DOT]] + pieces(s));
    }
}

proof fn lemma_parts_of_one(piece: Seq<u8>)
    requires
        part_of(piece) is None,
    ensures
        parts_of_pieces(seq![piece]) == Seq::<PartView>::empty(),
{
    assert(seq![piece].drop_last() == Seq::<Seq<u8>>::empty());
    assert(seq![piece].last() == piece);
    assert(parts_of_pieces(Seq::empty()) == Seq::<PartView>::empty());
}

proof fn lemma_trim_front(s: Seq<u8>)
    ensures
        parts_of_pieces(pieces(trim_front(s))) == parts_of_pieces(pieces(s)),
        trim_front(s).len() > 0 ==> trim_front(s)[0] != SLASH,
        !starts_with_dot(trim_front(s)),
    decreases s.len(),
{
    if s.len() > 0 && (s[0] == SLASH || starts_with_dot(s)) {
        let rest = s.skip(1);
        lemma_trim_front(rest);
        if s[0] == SLASH {
            assert(s == seq![SLASH] + rest);
            lemma_pieces_slash_front(rest);
            lemma_parts_concat(seq![Seq::<u8>::empty()], pieces(rest));
            lemma_parts_of_one(Seq::empty());
        } else if s.len() == 1 {
            assert(s == seq![DOT]);
            assert(rest == Seq::<u8>::empty());
            assert(s.drop_last() == Seq::<u8>::empty());
            assert(pieces(rest) == seq![Seq::<u8>::empty()]);
            assert(pieces(s) == seq![Seq::<u8>::empty().push(DOT)]);
            assert(Seq::<u8>::empty().push(DOT) == seq![DOT]);
            lemma_parts_of_one(seq![DOT]);
            lemma_parts_of_one(Seq::empty());
        } else {
            let tail = s.skip(2);
            assert(s == seq![DOT, SLASH] + tail);
            assert(rest == seq![SLASH] + tail);
            lemma_pieces_dot_front(tail);
            lemma_pieces_slash_front(tail);
            lemma_parts_concat(seq![seq![DOT]], pieces(tail));
            lemma_parts_concat(seq![Seq::<u8>::empty()], pieces(tail));
            lemma_parts_of_one(seq![DOT]);
            lemma_parts_of_one(Seq::empty());
        }
    }
}

proof fn lemma_trim_back(s: Seq<u8>)
    ensures
        parts_of_pieces(pieces(trim_back(s))) == parts_of_pieces(pieces(s)),
        trim_back(s).len() <= s.len(),
        trim_back(s) == s.take(trim_back(s).len() as int),
    decreases s.len(),
{
    if s.len() > 0 && (s.last() == SLASH || ends_with_dot(s)) {
        let shorter = s.drop_last();
        lemma_trim_back(shorter);
        lemma_pieces_nonempty(shorter);
        assert(shorter.take(trim_back(s).len() as int) == s.take(trim_back(s).len() as int));
        let before = pieces(shorter);
        if s.last() == SLASH {
            assert(before.push(Seq::empty()).drop_last() == before);
        } else {
            if shorter.len() > 0 {
                assert(shorter.last() == SLASH);
            }
            assert(before.last() == Seq::<u8>::empty());
            assert(before.last().push(DOT) == seq![DOT]);
            let after = pieces(s);
            assert(after == before.drop_last().push(seq![DOT]));
            assert(after.drop_last() == before.drop_last());
            assert(after.last() == seq![DOT]);
        }
    } else {
        assert(s.take(s.len() as int) == s);
    }
}

/// Showing a path takes away the `.` that it starts with, and no other part of it.
pub proof fn law_shown_path_keeps_the_other_parts(raw: Seq<u8>)
    ensures
        starts_with_dot(raw) ==> path_parts(raw) == seq![PartView::CurDir] + path_parts(
            shown_path(raw),
        ),
        !starts_with_dot(raw) ==> shown_path(raw) == raw,
{
    if starts_with_dot(raw) {
        let rest = raw.skip(1);
        let front = trim_front(rest);
        let shown = trim_back(front);
        lemma_trim_front(rest);
        lemma_trim_back(front);
        if shown.len() > 0 {
            assert(shown[0] == front[0]);
            if starts_with_dot(shown) {
                if shown.len() == 1 {
                    // A lone dot would have been trimmed at the end.
                    assert(ends_with_dot(shown));
                    lemma_trim_back_ends(front);
                } else {
                    assert(shown[1] == front[1]);
                }
            }
        }
        lemma_trim_front(raw);
    }
}

proof fn lemma_trim_back_ends(s: Seq<u8>)
    ensures
        !ends_with_dot(trim_back(s)),
    decreases s.len(),
{
    if s.len() > 0 && (s.last() == SLASH || ends_with_dot(s)) {
        lemma_trim_back_ends(s.drop_last());
    }
}

/// Pieces with the ASCII capitals made small.
spec fn lower_all(ps: Seq<Seq<u8>>) -> Seq<Seq<u8>> {
    Seq::new(ps.len(), |i: int| lower(ps[i]))
}

spec fn lower_part(part: PartView) -> PartView {
    match part {
        PartView::Normal(name) => PartView::Normal(lower(name)),
        _ => part,
    }
}

spec fn lower_parts(parts: Seq<PartView>) -> Seq<PartView> {
    Seq::new(parts.len(), |i: int| lower_part(parts[i]))
}

proof fn lemma_lower_pieces(s: Seq<u8>)
    ensures
        pieces(lower(s)) == lower_all(pieces(s)),
    decreases s.len(),
{
    if s.len() == 0 {
        assert(lower(s) == s);
        assert(lower(Seq::<u8>::empty()) == Seq::<u8>::empty());
    } else {
        lemma_lower_pieces(s.drop_last());
        lemma_pieces_nonempty(s.drop_last());
        assert(lower(s).drop_last() == lower(s.drop_last()));
        let before = pieces(s.drop_last());
        assert(lower(before.last().push(s.last())) == lower(before.last()).push(
            lower_byte(s.last()),
        ));
        assert(lower(Seq::<u8>::empty()) == Seq::<u8>::empty());
        assert(pieces(lower(s)) == lower_all(pieces(s)));
    }
}

proof fn lemma_lower_part(piece: Seq<u8>)
    ensures
        part_of(lower(piece)) == match part_of(piece) {
            Some(part) => Some(lower_part(part)),
            None => None,
        },
{
    assert(seq![DOT].len() == 1 && seq![DOT][0] == DOT);
    assert(seq![DOT, DOT].len() == 2);
    assert(seq![DOT, DOT][0] == DOT && seq![DOT, DOT][1] == DOT);
    assert(lower(piece).len() == piece.len());
    if piece == seq![DOT] {
        assert(lower(piece) == piece);
    }
    if lower(piece) == seq![DOT] {
        assert(lower(piece)[0] == lower_byte(piece[0]));
        assert(piece == seq![DOT]);
    }
    if piece == seq![DOT, DOT] {
        assert(lower(piece) == piece);
    }
    if lower(piece) == seq![DOT, DOT] {
        assert(lower(piece)[0] == lower_byte(piece[0]));
        assert(lower(piece)[1] == lower_byte(piece[1]));
        assert(piece == seq![DOT, DOT]);
    }
}

proof fn lemma_lower_parts(ps: Seq<Seq<u8>>)
    ensures
        parts_of_pieces(lower_all(ps)) == lower_parts(parts_of_pieces(ps)),
    decreases ps.len(),
{
    if ps.len() > 0 {
        lemma_lower_parts(ps.drop_last());
        lemma_lower_part(ps.last());
        assert(lower_all(ps).drop_last() == lower_all(ps.drop_last()));
        assert(lower_all(ps).last() == lower(ps.last()));
        assert(parts_of_pieces(lower_all(ps)) == lower_parts(parts_of_pieces(ps)));
    } else {
        assert(lower_all(ps) == ps);
        assert(lower_parts(parts_of_pieces(ps)) == parts_of_pieces(ps));
    }
}

proof fn lemma_lower_last_dot(name: Seq<u8>)
    ensures
        last_dot(lower(name)) == last_dot(name),
        last_dot(name) < name.len(),
    decreases name.len(),
{
    if name.len() > 0 {
        lemma_lower_last_dot(name.drop_last());
        assert(lower(name).drop_last() == lower(name.drop_last()));
    }
}

proof fn lemma_lower_twice(s: Seq<u8>)
    ensures
        lower(lower(s)) == lower(s),
{
}

/// Whether a path is that of a Markdown file does not depend on the case of its letters:
/// two paths that are the same in small letters are both of Markdown files or neither is.
pub proof fn law_markdown_ignores_case(a: Seq<u8>, b: Seq<u8>)
    requires
        lower(a) == lower(b),
    ensures
        markdown_path(a) == markdown_path(b),
{
    lemma_markdown_lower(a);
    lemma_markdown_lower(b);
}

proof fn lemma_markdown_lower(path: Seq<u8>)
    ensures
        markdown_path(lower(path)) == markdown_path(path),
{
    lemma_lower_pieces(path);
    lemma_lower_parts(pieces(path));
    let small = lower(path);
    if path.len() > 0 {
        assert(small[0] == lower_byte(path[0]));
    }
    if path.len() > 1 {
        assert(small[1] == lower_byte(path[1]));
    }
    assert(path_parts(small) == lower_parts(path_parts(path)));
    let parts = path_parts(path);
    if parts.len() > 0 {
        assert(path_parts(small).last() == lower_part(parts.last()));
        if let PartView::Normal(name) = parts.last() {
            lemma_lower_last_dot(name);
            if last_dot(name) >= 1 {
                let ext = name.skip(last_dot(name) + 1);
                assert(lower(name).skip(last_dot(name) + 1) == lower(ext));
                lemma_lower_twice(ext);
            }
        }
    }
}

/// A name behind a slash is the last piece of a path.
proof fn lemma_pieces_of_name(dir: Seq<u8>, name: Seq<u8>)
    requires
        forall|i: int| 0 <= i < name.len() ==> name[i] != SLASH,
    ensures
        pieces(dir + seq![SLASH] + name) == pieces(dir).push(name),
        pieces(name) == seq![name],
    decreases name.len(),
{
    let path = dir + seq![SLASH] + name;
    if name.len() == 0 {
        assert(path.drop_last() == dir);
        assert(name == Seq::<u8>::empty());
    } else {
        lemma_pieces_of_name(dir, name.drop_last());
        assert(path.drop_last() == dir + seq![SLASH] + name.drop_last());
        assert(path.last() == name.last());
        assert(name.drop_last().push(name.last()) == name);
        assert(pieces(dir).push(name.drop_last()).drop_last() == pieces(dir));
        assert(seq![name.drop_last()].drop_last().push(name) == seq![name]);
    }
}

/// Whether a path is that of a Markdown file depends on its last name alone, whatever
/// directory stands before it. The names `.` and none at all are no names: what stands before
/// them is the last name.
pub proof fn law_markdown_depends_on_the_name(dir: Seq<u8>, name: Seq<u8>)
    requires
        name.len() > 0,
        name != seq![DOT],
        forall|i: int| 0 <= i < name.len() ==> name[i] != SLASH,
    ensures
        markdown_path(dir + seq![SLASH] + name) == markdown_path(name),
{
    lemma_pieces_of_name(dir, name);
    let ps = pieces(dir);
    assert(ps.push(name).drop_last() == ps);
    assert(seq![name].drop_last() == Seq::<Seq<u8>>::empty());
    assert(seq![name].last() == name);
    if name.len() == 1 && name[0] == DOT {
        assert(name == seq![DOT]);
    }
    assert(path_parts(name).last() == path_parts(dir + seq![SLASH] + name).last());
}

/// The part that a name stands for at the end of a path: none for an empty name and for `.`.
proof fn lemma_last_part(ps: Seq<Seq<u8>>, name: Seq<u8>)
    ensures
        name.len() == 0 || name == seq![DOT] ==> parts_of_pieces(ps.push(name)) == parts_of_pieces(
            ps,
        ),
        name == seq![DOT, DOT] ==> parts_of_pieces(ps.push(name)) == parts_of_pieces(ps).push(
            PartView::ParentDir,
        ),
        name.len() > 0 && name != seq![DOT] && name != seq![DOT, DOT] ==> parts_of_pieces(
            ps.push(name),
        ) == parts_of_pieces(ps).push(PartView::Normal(name)),
{
    assert(ps.push(name).drop_last() == ps);
    assert(seq![DOT].len() == 1 && seq![DOT, DOT].len() == 2);
}

/// A path without a slash is one part: `.`, `..` or a name. The empty path has none.
pub proof fn law_a_name_is_one_part(name: Seq<u8>)
    requires
        forall|i: int| 0 <= i < name.len() ==> name[i] != 47,
    ensures
        name.len() == 0 ==> path_parts(name) == Seq::<PartView>::empty(),
        name == seq![46u8] ==> path_parts(name) == seq![PartView::CurDir],
        name == seq![46u8, 46u8] ==> path_parts(name) == seq![PartView::ParentDir],
        name.len() > 0 && name != seq![46u8] && name != seq![46u8, 46u8] ==> path_parts(name)
            == seq![PartView::Normal(name)],
{
    lemma_pieces_of_name(Seq::empty(), name);
    let none = Seq::<Seq<u8>>::empty();
    lemma_last_part(none, name);
    assert(none.push(name) == seq![name]);
    assert(parts_of_pieces(none) == Seq::<PartView>::empty());
    assert(seq![DOT].len() == 1 && seq![DOT][0] == DOT);
    assert(seq![DOT, DOT].len() == 2 && seq![DOT, DOT][1] == DOT);
    if name.len() == 1 && name[0] == DOT {
        assert(name == seq![DOT]);
    }
    if name == seq![DOT] {
        assert(path_parts(name) == seq![PartView::CurDir] + Seq::<PartView>::empty());
    }
}

/// What stands behind the last slash of a path is its last part, a name or `..`, behind those of
/// the path before the slash; nothing and `.` add none. A slash at the start is the root.
pub proof fn law_paths_come_apart_at_slashes(dir: Seq<u8>, name: Seq<u8>)
    requires
        forall|i: int| 0 <= i < name.len() ==> name[i] != 47,
    ensures
        ({
            let path = dir + seq![47u8] + name;
            let before = if dir.len() == 0 {
                seq![PartView::Root]
            } else {
                path_parts(dir)
            };
            &&& name.len() == 0 || name == seq![46u8] ==> path_parts(path) == before
            &&& name == seq![46u8, 46u8] ==> path_parts(path) == before.push(PartView::ParentDir)
            &&& name.len() > 0 && name != seq![46u8] && name != seq![46u8, 46u8] ==> path_parts(
                path,
            ) == before.push(PartView::Normal(name))
        }),
{
    let path = dir + seq![SLASH] + name;
    lemma_pieces_of_name(dir, name);
    lemma_last_part(pieces(dir), name);
    let body = parts_of_pieces(pieces(dir));
    let whole = parts_of_pieces(pieces(path));
    if dir.len() == 0 {
        assert(dir == Seq::<u8>::empty());
        lemma_parts_of_one(Seq::empty());
        assert(pieces(dir) == seq![Seq::<u8>::empty()]);
        assert(body == Seq::<PartView>::empty());
        assert(path[0] == SLASH);
        assert(seq![PartView::Root] + body == seq![PartView::Root]);
    } else {
        assert(path[0] == dir[0]);
        if dir.len() == 1 {
            assert(path[1] == SLASH);
        } else {
            assert(path[1] == dir[1]);
        }
    }
    let lead = if path[0] == SLASH {
        seq![PartView::Root]
    } else if starts_with_dot(path) {
        seq![PartView::CurDir]
    } else {
        Seq::<PartView>::empty()
    };
    assert(path_parts(path) == lead + whole);
    assert(dir.len() > 0 ==> path_parts(dir) == lead + body);
    assert(lead + body.push(PartView::ParentDir) == (lead + body).push(PartView::ParentDir));
    assert(lead + body.push(PartView::Normal(name)) == (lead + body).push(PartView::Normal(name)));
}

/// Whether bytes spell a word of small letters, in small letters or capitals.
pub open spec fn spells(bytes: Seq<u8>, word: Seq<u8>) -> bool {
    &&& bytes.len() == word.len()
    &&& forall|i: int|
        0 <= i < word.len() ==> (#[trigger] bytes[i] == word[i] || bytes[i] + 32 == word[i])
}

/// Whether bytes spell `md`, `markdown`, `mdown` or `mkd`.
pub open spec fn spells_markdown(bytes: Seq<u8>) -> bool {
    ||| spells(bytes, seq![109u8, 100u8])
    ||| spells(bytes, seq![109u8, 97u8, 114u8, 107u8, 100u8, 111u8, 119u8, 110u8])
    ||| spells(bytes, seq![109u8, 100u8, 111u8, 119u8, 110u8])
    ||| spells(bytes, seq![109u8, 107u8, 100u8])
}

proof fn lemma_spells(bytes: Seq<u8>, word: Seq<u8>)
    requires
        forall|i: int| 0 <= i < word.len() ==> 97 <= #[trigger] word[i] <= 122,
    ensures
        spells(bytes, word) <==> lower(bytes) == word,
{
    if lower(bytes) == word {
        assert forall|i: int| 0 <= i < word.len() implies (#[trigger] bytes[i] == word[i]
            || bytes[i] + 32 == word[i]) by {
            assert(lower(bytes)[i] == lower_byte(bytes[i]));
            assert(97 <= word[i] <= 122);
        }
    }
    if spells(bytes, word) {
        assert forall|i: int| 0 <= i < word.len() implies #[trigger] lower(bytes)[i]
            == word[i] by {
            assert(bytes[i] == word[i] || bytes[i] + 32 == word[i]);
            assert(97 <= word[i] <= 122);
        }
        assert(lower(bytes) == word);
    }
}

proof fn lemma_words()
    ensures
        encode_utf8("md"@) == seq![109u8, 100u8],
        encode_utf8("markdown"@) == seq![109u8, 97u8, 114u8, 107u8, 100u8, 111u8, 119u8, 110u8],
        encode_utf8("mdown"@) == seq![109u8, 100u8, 111u8, 119u8, 110u8],
        encode_utf8("mkd"@) == seq![109u8, 107u8, 100u8],
{
    reveal_strlit("md");
    reveal_strlit("markdown");
    reveal_strlit("mdown");
    reveal_strlit("mkd");
    is_ascii_chars_encode_utf8("md"@);
    is_ascii_chars_encode_utf8("markdown"@);
    is_ascii_chars_encode_utf8("mdown"@);
    is_ascii_chars_encode_utf8("mkd"@);
}

proof fn lemma_last_dot(name: Seq<u8>)
    ensures
        -1 <= last_dot(name) < name.len(),
        last_dot(name) >= 0 ==> name[last_dot(name)] == DOT,
        forall|k: int| last_dot(name) < k < name.len() ==> #[trigger] name[k] != DOT,
    decreases name.len(),
{
    if name.len() > 0 && name.last() != DOT {
        let shorter = name.drop_last();
        lemma_last_dot(shorter);
        assert forall|k: int| last_dot(name) < k < name.len() implies #[trigger] name[k] != DOT by {
            if k < shorter.len() {
                assert(shorter[k] == name[k]);
            }
        }
    }
}

/// Whether a name has a dot at this place, not in front, and an extension of Markdown behind it.
pub open spec fn markdown_from(name: Seq<u8>, k: int) -> bool {
    1 <= k < name.len() && name[k] == 46 && spells_markdown(name.skip(k + 1))
}

/// A name is that of a Markdown file exactly if it ends with a dot and `md`, `markdown`, `mdown`
/// or `mkd`, in letters of any case, and something stands before the dot.
pub proof fn law_what_a_markdown_name_is(name: Seq<u8>)
    requires
        forall|i: int| 0 <= i < name.len() ==> name[i] != 47,
    ensures
        markdown_path(name) <==> exists|k: int| #[trigger] markdown_from(name, k),
{
    law_a_name_is_one_part(name);
    lemma_words();
    lemma_last_dot(name);
    let d = last_dot(name);
    let ext = name.skip(d + 1);
    lemma_spells(ext, encode_utf8("md"@));
    lemma_spells(ext, encode_utf8("markdown"@));
    lemma_spells(ext, encode_utf8("mdown"@));
    lemma_spells(ext, encode_utf8("mkd"@));
    assert(spells_markdown(ext) <==> markdown_extension(lower(ext)));
    if name.len() > 0 && name != seq![46u8] && name != seq![46u8, 46u8] {
        assert(path_parts(name).last() == PartView::Normal(name));
    } else {
        assert(seq![46u8].len() == 1);
        assert(seq![46u8, 46u8].len() == 2);
    }
    if markdown_path(name) {
        assert(markdown_from(name, d));
    }
    if exists|k: int| #[trigger] markdown_from(name, k) {
        let k = choose|k: int| #[trigger] markdown_from(name, k);
        let tail = name.skip(k + 1);
        assert(tail.len() >= 2);
        if k < d {
            // The words have no dot in them.
            assert(tail[d - k - 1] == DOT);
        }
        assert(k == d);
        assert(name.len() >= 4);
    }
}

/// A path that starts with `./` is shown without it, and every other path as it is.
pub proof fn law_shown_paths_lose_the_leading_dot(rest: Seq<u8>, raw: Seq<u8>)
    requires
        rest.len() > 0,
        rest[0] != 47,
        rest[0] == 46 ==> rest.len() > 1 && rest[1] != 47,
        rest.last() != 47,
        rest.last() == 46 ==> rest.len() > 1 && rest[rest.len() - 2] != 47,
        raw.len() == 0 || raw[0] != 46 || (raw.len() > 1 && raw[1] != 47),
    ensures
        shown_path(seq![46u8, 47u8] + rest) == rest,
        shown_path(raw) == raw,
{
    let path = seq![DOT, SLASH] + rest;
    assert(path[0] == DOT && path[1] == SLASH);
    assert(path.skip(1) == seq![SLASH] + rest);
    assert((seq![SLASH] + rest).skip(1) == rest);
    assert((seq![SLASH] + rest)[0] == SLASH);
    assert(trim_front(rest) == rest);
    assert(trim_front(path.skip(1)) == rest);
    assert(trim_back(rest) == rest);
}

/// A path of text reads as that text, and one that is not of text as `String::from_utf8_lossy`
/// makes it readable.
pub proof fn law_paths_of_text_read_as_the_text(text: Seq<char>, path: Seq<u8>)
    ensures
        path_text(encode_utf8(text)) == text,
        !valid_utf8(path) ==> path_text(path) == utf8_lossy(path),
{
    encode_utf8_valid_utf8(text);
    encode_utf8_decode_utf8(text);
}

proof fn lemma_trim_front_is_an_end(s: Seq<u8>)
    ensures
        trim_front(s).len() <= s.len(),
        trim_front(s) == s.skip(s.len() - trim_front(s).len()),
    decreases s.len(),
{
    if s.len() > 0 && (s[0] == SLASH || starts_with_dot(s)) {
        let rest = s.skip(1);
        lemma_trim_front_is_an_end(rest);
        assert(rest.skip(rest.len() - trim_front(rest).len()) == s.skip(
            s.len() - trim_front(s).len(),
        ));
    }
}

proof fn lemma_trim_back_has_no_slash(s: Seq<u8>)
    ensures
        trim_back(s).len() > 0 ==> trim_back(s).last() != SLASH,
    decreases s.len(),
{
    if s.len() > 0 && (s.last() == SLASH || ends_with_dot(s)) {
        lemma_trim_back_has_no_slash(s.drop_last());
    }
}

/// What is shown of a path is one stretch of its bytes; where the leading `.` was taken away, it
/// neither starts nor ends with a slash.
pub proof fn law_shown_paths_have_clean_ends(raw: Seq<u8>)
    ensures
        exists|a: int, b: int|
            0 <= a <= b <= raw.len() && shown_path(raw) == #[trigger] raw.subrange(a, b),
        raw.len() > 1 && raw[0] == 46 && raw[1] == 47 && shown_path(raw).len() > 0 ==> shown_path(
            raw,
        )[0] != 47 && shown_path(raw).last() != 47,
{
    if starts_with_dot(raw) {
        let rest = raw.skip(1);
        let front = trim_front(rest);
        let shown = trim_back(front);
        lemma_trim_front(rest);
        lemma_trim_front_is_an_end(rest);
        lemma_trim_back(front);
        lemma_trim_back_has_no_slash(front);
        let a = raw.len() - front.len();
        assert(shown == raw.subrange(a, a + shown.len()));
        if shown.len() > 0 {
            assert(shown[0] == front[0]);
        }
    } else {
        assert(raw == raw.subrange(0, raw.len() as int));
    }
}

/// Slashes and `.` at the end of a path do not matter for whether it is that of a Markdown file.
pub proof fn law_markdown_ignores_what_is_no_name(dir: Seq<u8>)
    requires
        dir.len() > 0,
    ensures
        markdown_path(dir + seq![47u8]) == markdown_path(dir),
        markdown_path(dir + seq![47u8] + seq![46u8]) == markdown_path(dir),
{
    law_paths_come_apart_at_slashes(dir, Seq::empty());
    law_paths_come_apart_at_slashes(dir, seq![46u8]);
    assert(dir + seq![47u8] + Seq::<u8>::empty() == dir + seq![47u8]);
}

/// The parts of a path are what they hold, in order.
pub proof fn law_parts_are_what_they_hold(parts: Seq<PathPart>, i: int)
    requires
        0 <= i < parts.len(),
    ensures
        part_views(parts).len() == parts.len(),
        part_views(parts)[i] == match parts[i] {
            PathPart::Root => PartView::Root,
            PathPart::CurDir => PartView::CurDir,
            PathPart::ParentDir => PartView::ParentDir,
            PathPart::Normal(name) => PartView::Normal(name@),
        },
{
}

/// A file is taken for a Markdown file by the extension of its name, whatever directory it is in.
pub proof fn law_markdown_files_are_known_by_their_names(
    path: &[u8],
    dir: Seq<u8>,
    name: Seq<u8>,
    known: bool,
)
    requires
        call_ensures(is_markdown, (path,), known),
        path@ == name || path@ == dir + seq![47u8] + name,
        name.len() > 0,
        name != seq![46u8],
        forall|i: int| 0 <= i < name.len() ==> name[i] != 47,
    ensures
        known <==> exists|k: int| #[trigger] markdown_from(name, k),
{
    law_what_a_markdown_name_is(name);
    law_markdown_depends_on_the_name(dir, name);
}

/// A path is shown without the `./` in front of it, and else as it is.
pub proof fn law_paths_are_shown_without_the_dot(raw: &[u8], rest: Seq<u8>, shown: Vec<u8>)
    requires
        call_ensures(display_path, (raw,), shown),
        raw@ == seq![46u8, 47u8] + rest,
        rest.len() > 0,
        rest[0] != 47,
        rest[0] == 46 ==> rest.len() > 1 && rest[1] != 47,
        rest.last() != 47,
        rest.last() == 46 ==> rest.len() > 1 && rest[rest.len() - 2] != 47,
    ensures
        shown@ == rest,
{
    law_shown_paths_lose_the_leading_dot(rest, Seq::empty());
}

} // verus!
