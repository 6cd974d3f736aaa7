//! What comes before what, and what sorting does.
use vstd::prelude::*;

#[allow(unused_imports)]
use crate::item::ItemView;
#[allow(unused_imports)]
use crate::order::{
    bytes_before, in_order, key_before, key_of, law_order_is_total, law_sorting_keeps_the_items,
    part_before, parts_before, stably_sorted, with_key, ItemKey,
};
#[allow(unused_imports)]
use crate::path::{path_parts, PartView};

verus! {

/// Whether bytes come before others as words do in a dictionary: they agree up to some place,
/// and there the first have the smaller byte or come to their end.
pub open spec fn like_words(a: Seq<u8>, b: Seq<u8>) -> bool {
    exists|i: int| #[trigger] differ_at(a, b, i)
}

/// Whether bytes agree with others up to a place, and come first by what stands there.
pub open spec fn differ_at(a: Seq<u8>, b: Seq<u8>, i: int) -> bool {
    &&& 0 <= i <= a.len()
    &&& i < b.len()
    &&& a.take(i) == b.take(i)
    &&& i < a.len() ==> a[i] < b[i]
}

proof fn lemma_bytes_before(a: Seq<u8>, b: Seq<u8>, i: int)
    requires
        differ_at(a, b, i),
    ensures
        bytes_before(a, b),
        !bytes_before(b, a),
    decreases i,
{
    if i > 0 {
        assert(a[0] == a.take(i)[0]);
        assert(b[0] == b.take(i)[0]);
        assert(a.skip(1).take(i - 1) == a.take(i).skip(1));
        assert(b.skip(1).take(i - 1) == b.take(i).skip(1));
        lemma_bytes_before(a.skip(1), b.skip(1), i - 1);
    }
}

proof fn lemma_bytes_differ(a: Seq<u8>, b: Seq<u8>) -> (i: int)
    requires
        bytes_before(a, b),
    ensures
        differ_at(a, b, i),
    decreases a.len(),
{
    if a.len() == 0 || a[0] != b[0] {
        assert(a.take(0) == b.take(0));
        0
    } else {
        let i = lemma_bytes_differ(a.skip(1), b.skip(1)) + 1;
        assert(a.take(i) == seq![a[0]] + a.skip(1).take(i - 1));
        assert(b.take(i) == seq![b[0]] + b.skip(1).take(i - 1));
        i
    }
}

/// Names sort by the values of their bytes, as words in a dictionary: at the first place where
/// two names differ, the smaller byte comes first, and so does a name that ends there.
pub proof fn law_names_sort_by_their_bytes(a: Seq<u8>, b: Seq<u8>)
    ensures
        bytes_before(a, b) <==> like_words(a, b),
        part_before(PartView::Normal(a), PartView::Normal(b)) <==> like_words(a, b),
{
    if bytes_before(a, b) {
        let i = lemma_bytes_differ(a, b);
        assert(differ_at(a, b, i));
    }
    if like_words(a, b) {
        let i = choose|i: int| #[trigger] differ_at(a, b, i);
        lemma_bytes_before(a, b, i);
    }
}

/// The root comes before `.`, `.` before `..`, and `..` before every name.
pub proof fn law_names_come_last(name: Seq<u8>)
    ensures
        part_before(PartView::Root, PartView::CurDir),
        part_before(PartView::Root, PartView::ParentDir),
        part_before(PartView::Root, PartView::Normal(name)),
        part_before(PartView::CurDir, PartView::ParentDir),
        part_before(PartView::CurDir, PartView::Normal(name)),
        part_before(PartView::ParentDir, PartView::Normal(name)),
        !part_before(PartView::CurDir, PartView::Root),
        !part_before(PartView::ParentDir, PartView::Root),
        !part_before(PartView::Normal(name), PartView::Root),
        !part_before(PartView::ParentDir, PartView::CurDir),
        !part_before(PartView::Normal(name), PartView::CurDir),
        !part_before(PartView::Normal(name), PartView::ParentDir),
        !part_before(PartView::Root, PartView::Root),
        !part_before(PartView::CurDir, PartView::CurDir),
        !part_before(PartView::ParentDir, PartView::ParentDir),
{
}

/// Whether paths agree with others up to a part, and come first by what stands there.
pub open spec fn parts_differ_at(a: Seq<PartView>, b: Seq<PartView>, i: int) -> bool {
    &&& 0 <= i <= a.len()
    &&& i < b.len()
    &&& a.take(i) == b.take(i)
    &&& i < a.len() ==> part_before(a[i], b[i])
}

proof fn lemma_parts_before(a: Seq<PartView>, b: Seq<PartView>, i: int)
    requires
        parts_differ_at(a, b, i),
    ensures
        parts_before(a, b),
    decreases i,
{
    if i > 0 {
        assert(a[0] == a.take(i)[0]);
        assert(b[0] == b.take(i)[0]);
        assert(a.skip(1).take(i - 1) == a.take(i).skip(1));
        assert(b.skip(1).take(i - 1) == b.take(i).skip(1));
        lemma_parts_before(a.skip(1), b.skip(1), i - 1);
    } else if a.len() > 0 && a[0] == b[0] {
        if let PartView::Normal(name) = a[0] {
            law_names_sort_by_their_bytes(name, name);
            let k = choose|k: int| #[trigger] differ_at(name, name, k);
            assert(false);
        }
    }
}

proof fn lemma_parts_differ(a: Seq<PartView>, b: Seq<PartView>) -> (i: int)
    requires
        parts_before(a, b),
    ensures
        parts_differ_at(a, b, i),
    decreases a.len(),
{
    if a.len() == 0 || a[0] != b[0] {
        assert(a.take(0) == b.take(0));
        0
    } else {
        let i = lemma_parts_differ(a.skip(1), b.skip(1)) + 1;
        assert(a.take(i) == seq![a[0]] + a.skip(1).take(i - 1));
        assert(b.take(i) == seq![b[0]] + b.skip(1).take(i - 1));
        i
    }
}

/// Paths sort part for part: at the first part where two paths differ, the part that comes first
/// decides, and a path that ends there comes first.
pub proof fn law_paths_sort_part_for_part(a: Seq<PartView>, b: Seq<PartView>)
    ensures
        parts_before(a, b) <==> exists|i: int| #[trigger] parts_differ_at(a, b, i),
{
    if parts_before(a, b) {
        let i = lemma_parts_differ(a, b);
        assert(parts_differ_at(a, b, i));
    }
    if exists|i: int| #[trigger] parts_differ_at(a, b, i) {
        let i = choose|i: int| #[trigger] parts_differ_at(a, b, i);
        lemma_parts_before(a, b, i);
    }
}

/// In a sorted list, of two items whose paths agree up to a name and have names there that agree
/// up to a byte, the one with the smaller byte stands first.
pub proof fn law_sorted_items_stand_by_their_names(
    before: Seq<ItemView>,
    after: Seq<ItemView>,
    i: int,
    j: int,
    k: int,
    m: Seq<u8>,
    n: Seq<u8>,
    b: int,
)
    requires
        stably_sorted(before, after),
        0 <= i < after.len(),
        0 <= j < after.len(),
        0 <= k < path_parts(after[i].path).len(),
        k < path_parts(after[j].path).len(),
        path_parts(after[i].path).take(k) == path_parts(after[j].path).take(k),
        path_parts(after[i].path)[k] == PartView::Normal(m),
        path_parts(after[j].path)[k] == PartView::Normal(n),
        0 <= b < m.len(),
        b < n.len(),
        m.take(b) == n.take(b),
        m[b] < n[b],
    ensures
        i < j,
{
    let p = path_parts(after[i].path);
    let q = path_parts(after[j].path);
    assert(differ_at(m, n, b));
    law_names_sort_by_their_bytes(m, n);
    assert(parts_differ_at(p, q, k));
    law_paths_sort_part_for_part(p, q);
    lemma_sorted_stands_first(after, i, j);
}

proof fn lemma_sorted_stands_first(after: Seq<ItemView>, i: int, j: int)
    requires
        in_order(after),
        0 <= i < after.len(),
        0 <= j < after.len(),
        key_before(key_of(after[i]), key_of(after[j])),
    ensures
        i < j,
{
    law_order_is_total(key_of(after[i]), key_of(after[j]));
    if j < i {
        assert(!key_before(key_of(after[i]), key_of(after[j])));
    }
}

/// In a sorted list, items of different paths stand in the order of the paths, and items of one
/// path in the order of their lines.
pub proof fn law_sorted_items_stand_by_path_and_line(
    before: Seq<ItemView>,
    after: Seq<ItemView>,
    i: int,
    j: int,
)
    requires
        stably_sorted(before, after),
        0 <= i < after.len(),
        0 <= j < after.len(),
    ensures
        parts_before(path_parts(after[i].path), path_parts(after[j].path)) ==> i < j,
        path_parts(after[i].path) == path_parts(after[j].path) && after[i].line < after[j].line
            ==> i < j,
        i < j ==> parts_before(path_parts(after[i].path), path_parts(after[j].path)) || (path_parts(
            after[i].path,
        ) == path_parts(after[j].path) && after[i].line <= after[j].line),
{
    if key_before(key_of(after[i]), key_of(after[j])) {
        lemma_sorted_stands_first(after, i, j);
    }
    if i < j {
        assert(!key_before(key_of(after[j]), key_of(after[i])));
        law_order_is_total(key_of(after[i]), key_of(after[j]));
    }
}

proof fn lemma_with_key_is_a_filter(
    items: Seq<ItemView>,
    parts: Seq<PartView>,
    line: nat,
    same: spec_fn(ItemView) -> bool,
)
    requires
        forall|x: ItemView| #[trigger] same(x) == (path_parts(x.path) == parts && x.line == line),
    ensures
        with_key(items, ItemKey { parts, line }) == items.filter(same),
    decreases items.len(),
{
    reveal(Seq::filter);
    if items.len() > 0 {
        lemma_with_key_is_a_filter(items.drop_last(), parts, line, same);
        assert(same(items.last()) == (key_of(items.last()) == ItemKey { parts, line }));
    } else {
        assert(with_key(items, ItemKey { parts, line }) == items.filter(same));
    }
}

/// Sorting keeps the order of the items that have one path and one line.
pub proof fn law_sorting_is_stable(
    before: Seq<ItemView>,
    after: Seq<ItemView>,
    path: Seq<u8>,
    line: nat,
)
    requires
        stably_sorted(before, after),
    ensures
        after.filter(|x: ItemView| path_parts(x.path) == path_parts(path) && x.line == line)
            == before.filter(
            |x: ItemView| path_parts(x.path) == path_parts(path) && x.line == line,
        ),
{
    let same = |x: ItemView| path_parts(x.path) == path_parts(path) && x.line == line;
    let key = ItemKey { parts: path_parts(path), line };
    lemma_with_key_is_a_filter(before, path_parts(path), line, same);
    lemma_with_key_is_a_filter(after, path_parts(path), line, same);
    assert(with_key(after, key) == with_key(before, key));
}

} // verus!
