//! The order of the items of a scan: by path, part for part, and then by line.
use vstd::prelude::*;

use crate::item::Item;
#[allow(unused_imports)]
use crate::item::{item_views, ItemView};
use crate::path::{parts_of, PathPart};
#[allow(unused_imports)]
use crate::path::{part_views, path_parts, PartView};

verus! {

/// Whether bytes come before others: at the first difference the smaller byte, or the end,
/// comes first.
pub open spec fn bytes_before(a: Seq<u8>, b: Seq<u8>) -> bool
    decreases a.len(),
{
    if b.len() == 0 {
        false
    } else if a.len() == 0 {
        true
    } else if a[0] != b[0] {
        a[0] < b[0]
    } else {
        bytes_before(a.skip(1), b.skip(1))
    }
}

/// Parts of different kinds sort by their kind.
pub open spec fn part_rank(part: PartView) -> int {
    match part {
        PartView::Root => 0,
        PartView::CurDir => 1,
        PartView::ParentDir => 2,
        PartView::Normal(_) => 3,
    }
}

/// Whether a part of a path comes before another: names sort by their bytes.
pub open spec fn part_before(a: PartView, b: PartView) -> bool {
    ||| part_rank(a) < part_rank(b)
    ||| (a matches PartView::Normal(m) && b matches PartView::Normal(n) && bytes_before(m, n))
}

/// Whether a path comes before another: at the first part that differs, or where it ends.
pub open spec fn parts_before(a: Seq<PartView>, b: Seq<PartView>) -> bool
    decreases a.len(),
{
    if b.len() == 0 {
        false
    } else if a.len() == 0 {
        true
    } else if a[0] != b[0] {
        part_before(a[0], b[0])
    } else {
        parts_before(a.skip(1), b.skip(1))
    }
}

/// What an item is ordered by.
pub ghost struct ItemKey {
    pub parts: Seq<PartView>,
    pub line: nat,
}

pub open spec fn key_of(item: ItemView) -> ItemKey {
    ItemKey { parts: path_parts(item.path), line: item.line }
}

/// Whether a key comes before another: by path, and within one path by line.
pub open spec fn key_before(a: ItemKey, b: ItemKey) -> bool {
    parts_before(a.parts, b.parts) || (a.parts == b.parts && a.line < b.line)
}

/// Whether no item of a list comes before one that stands earlier in the list.
pub open spec fn in_order(items: Seq<ItemView>) -> bool {
    forall|i: int, j: int|
        0 <= i < j < items.len() ==> !key_before(
            key_of(#[trigger] items[j]),
            key_of(#[trigger] items[i]),
        )
}

/// The items of a list with this key, in the order of the list.
pub open spec fn with_key(items: Seq<ItemView>, key: ItemKey) -> Seq<ItemView>
    decreases items.len(),
{
    if items.len() == 0 {
        Seq::empty()
    } else {
        let before = with_key(items.drop_last(), key);
        if key_of(items.last()) == key {
            before.push(items.last())
        } else {
            before
        }
    }
}

/// Whether `after` holds the items of `before` in order, and those of one key in the order
/// in which they stood.
pub open spec fn stably_sorted(before: Seq<ItemView>, after: Seq<ItemView>) -> bool {
    &&& in_order(after)
    &&& forall|key: ItemKey| #[trigger] with_key(after, key) == with_key(before, key)
}

proof fn lemma_bytes_order(a: Seq<u8>, b: Seq<u8>)
    ensures
        !(bytes_before(a, b) && bytes_before(b, a)),
        a == b ==> !bytes_before(a, b),
        a != b ==> bytes_before(a, b) || bytes_before(b, a),
    decreases a.len(),
{
    if a.len() > 0 && b.len() > 0 {
        lemma_bytes_order(a.skip(1), b.skip(1));
        if a[0] == b[0] && a.skip(1) == b.skip(1) {
            assert(a == seq![a[0]] + a.skip(1));
            assert(b == seq![b[0]] + b.skip(1));
        }
    } else if a.len() == 0 && b.len() == 0 {
        assert(a == b);
    }
}

proof fn lemma_bytes_transitive(a: Seq<u8>, b: Seq<u8>, c: Seq<u8>)
    requires
        bytes_before(a, b),
        bytes_before(b, c),
    ensures
        bytes_before(a, c),
    decreases a.len(),
{
    if a.len() > 0 && a[0] == b[0] && b[0] == c[0] {
        lemma_bytes_transitive(a.skip(1), b.skip(1), c.skip(1));
    }
}

proof fn lemma_part_order(a: PartView, b: PartView)
    ensures
        !(part_before(a, b) && part_before(b, a)),
        a == b ==> !part_before(a, b),
        a != b ==> part_before(a, b) || part_before(b, a),
{
    if let PartView::Normal(m) = a {
        if let PartView::Normal(n) = b {
            lemma_bytes_order(m, n);
        }
    }
}

proof fn lemma_part_transitive(a: PartView, b: PartView, c: PartView)
    requires
        part_before(a, b),
        part_before(b, c),
    ensures
        part_before(a, c),
{
    if let PartView::Normal(l) = a {
        if let PartView::Normal(m) = b {
            if let PartView::Normal(n) = c {
                lemma_bytes_transitive(l, m, n);
            }
        }
    }
}

proof fn lemma_parts_order(a: Seq<PartView>, b: Seq<PartView>)
    ensures
        !(parts_before(a, b) && parts_before(b, a)),
        a == b ==> !parts_before(a, b),
        a != b ==> parts_before(a, b) || parts_before(b, a),
    decreases a.len(),
{
    if a.len() > 0 && b.len() > 0 {
        lemma_parts_order(a.skip(1), b.skip(1));
        lemma_part_order(a[0], b[0]);
        if a[0] == b[0] && a.skip(1) == b.skip(1) {
            assert(a == seq![a[0]] + a.skip(1));
            assert(b == seq![b[0]] + b.skip(1));
        }
    } else if a.len() == 0 && b.len() == 0 {
        assert(a == b);
    }
}

proof fn lemma_parts_transitive(a: Seq<PartView>, b: Seq<PartView>, c: Seq<PartView>)
    requires
        parts_before(a, b),
        parts_before(b, c),
    ensures
        parts_before(a, c),
    decreases a.len(),
{
    if a.len() > 0 {
        if a[0] == b[0] && b[0] == c[0] {
            lemma_parts_transitive(a.skip(1), b.skip(1), c.skip(1));
        } else if a[0] != b[0] && b[0] != c[0] {
            lemma_part_transitive(a[0], b[0], c[0]);
            lemma_part_order(a[0], c[0]);
        }
    }
}

/// Of two keys one comes before the other, or they are the same, and not both.
pub proof fn law_order_is_total(a: ItemKey, b: ItemKey)
    ensures
        !(key_before(a, b) && key_before(b, a)),
        a == b ==> !key_before(a, b),
        a != b ==> key_before(a, b) || key_before(b, a),
{
    lemma_parts_order(a.parts, b.parts);
}

/// What comes before something that comes before a third comes before the third.
pub proof fn law_order_is_transitive(a: ItemKey, b: ItemKey, c: ItemKey)
    requires
        key_before(a, b),
        key_before(b, c),
    ensures
        key_before(a, c),
{
    if a.parts != b.parts && b.parts != c.parts {
        lemma_parts_transitive(a.parts, b.parts, c.parts);
    }
}

/// Not after, and not after, is not after.
proof fn lemma_not_before_transitive(a: ItemKey, b: ItemKey, c: ItemKey)
    requires
        !key_before(b, a),
        !key_before(c, b),
    ensures
        !key_before(c, a),
{
    law_order_is_total(a, b);
    law_order_is_total(b, c);
    law_order_is_total(a, c);
    if key_before(c, a) {
        if a == b {
            assert(key_before(c, b));
        } else {
            law_order_is_transitive(c, a, b);
        }
    }
}

pub proof fn lemma_with_key_concat(a: Seq<ItemView>, b: Seq<ItemView>, key: ItemKey)
    ensures
        with_key(a + b, key) == with_key(a, key) + with_key(b, key),
    decreases b.len(),
{
    if b.len() == 0 {
        assert(a + b == a);
    } else {
        lemma_with_key_concat(a, b.drop_last(), key);
        assert((a + b).drop_last() == a + b.drop_last());
        assert((a + b).last() == b.last());
        assert(with_key(a + b, key) == with_key(a, key) + with_key(b, key));
    }
}

/// A key that no item has gives nothing.
pub proof fn lemma_with_key_none(items: Seq<ItemView>, key: ItemKey)
    requires
        forall|i: int| 0 <= i < items.len() ==> key_of(#[trigger] items[i]) != key,
    ensures
        with_key(items, key) == Seq::<ItemView>::empty(),
    decreases items.len(),
{
    if items.len() > 0 {
        assert(key_of(items[items.len() - 1]) != key);
        lemma_with_key_none(items.drop_last(), key);
    }
}

/// A key that gives something is the key of an item.
proof fn lemma_with_key_some(items: Seq<ItemView>, key: ItemKey) -> (i: int)
    requires
        with_key(items, key).len() > 0,
    ensures
        0 <= i < items.len(),
        key_of(items[i]) == key,
    decreases items.len(),
{
    if key_of(items.last()) == key {
        items.len() - 1
    } else {
        lemma_with_key_some(items.drop_last(), key)
    }
}

/// Sorting has one outcome: there are no two different stably sorted forms of a list.
pub proof fn law_sorting_has_one_outcome(
    before: Seq<ItemView>,
    one: Seq<ItemView>,
    two: Seq<ItemView>,
)
    requires
        stably_sorted(before, one),
        stably_sorted(before, two),
    ensures
        one == two,
{
    assert forall|key: ItemKey| with_key(one, key) == with_key(two, key) by {
        assert(with_key(one, key) == with_key(before, key));
        assert(with_key(two, key) == with_key(before, key));
    }
    lemma_same_keys_same_list(one, two);
}

proof fn lemma_same_keys_same_list(one: Seq<ItemView>, two: Seq<ItemView>)
    requires
        in_order(one),
        in_order(two),
        forall|key: ItemKey| with_key(one, key) == with_key(two, key),
    ensures
        one == two,
    decreases one.len(),
{
    if one.len() == 0 {
        if two.len() > 0 {
            assert(with_key(two, key_of(two.last())).len() > 0);
            assert(with_key(one, key_of(two.last())).len() == 0);
        }
        assert(one == two);
    } else {
        let k = key_of(one.last());
        assert(with_key(one, k).len() > 0);
        let j = lemma_with_key_some(two, k);
        let m = key_of(two.last());
        assert(with_key(two, m).len() > 0);
        assert(with_key(one, m) == with_key(two, m));
        let i = lemma_with_key_some(one, m);
        // The last key of each list is the greatest of both.
        assert(!key_before(m, k)) by {
            if j < two.len() - 1 {
                assert(!key_before(key_of(two[two.len() - 1]), key_of(two[j])));
            } else {
                law_order_is_total(m, k);
            }
        }
        assert(!key_before(k, m)) by {
            if i < one.len() - 1 {
                assert(!key_before(key_of(one[one.len() - 1]), key_of(one[i])));
            } else {
                law_order_is_total(m, k);
            }
        }
        law_order_is_total(m, k);
        assert(with_key(one, k).last() == one.last());
        assert(with_key(two, k).last() == two.last());
        let a = one.drop_last();
        let b = two.drop_last();
        assert forall|key: ItemKey| with_key(a, key) == with_key(b, key) by {
            assert(with_key(one, key) == with_key(two, key));
            if key == k {
                assert(with_key(one, key).drop_last() == with_key(a, key));
                assert(with_key(two, key).drop_last() == with_key(b, key));
            }
        }
        lemma_same_keys_same_list(a, b);
        assert(one == a.push(one.last()));
        assert(two == b.push(two.last()));
    }
}

proof fn lemma_with_key_counts(items: Seq<ItemView>, x: ItemView)
    ensures
        items.to_multiset().count(x) == with_key(items, key_of(x)).to_multiset().count(x),
    decreases items.len(),
{
    broadcast use vstd::seq_lib::group_to_multiset_ensures;

    if items.len() > 0 {
        let before = items.drop_last();
        lemma_with_key_counts(before, x);
        assert(items == before.push(items.last()));
    }
}

/// Sorting keeps the items: each is there as often as it was.
pub proof fn law_sorting_keeps_the_items(before: Seq<ItemView>, after: Seq<ItemView>)
    requires
        stably_sorted(before, after),
    ensures
        before.to_multiset() == after.to_multiset(),
        before.len() == after.len(),
{
    assert forall|x: ItemView| before.to_multiset().count(x) == after.to_multiset().count(x) by {
        lemma_with_key_counts(before, x);
        lemma_with_key_counts(after, x);
        assert(with_key(after, key_of(x)) == with_key(before, key_of(x)));
    }
    assert(before.to_multiset() =~= after.to_multiset());
    before.to_multiset_ensures();
    after.to_multiset_ensures();
}

/// Two items with one key make two.
pub proof fn lemma_with_key_two(items: Seq<ItemView>, i: int, j: int)
    requires
        0 <= i < j < items.len(),
        key_of(items[i]) == key_of(items[j]),
    ensures
        with_key(items, key_of(items[i])).len() >= 2,
    decreases items.len(),
{
    let key = key_of(items[i]);
    let before = items.drop_last();
    if j < before.len() {
        assert(before[i] == items[i] && before[j] == items[j]);
        lemma_with_key_two(before, i, j);
    } else {
        assert(before[i] == items[i]);
        lemma_with_key_one(before, i);
    }
}

proof fn lemma_with_key_one(items: Seq<ItemView>, i: int)
    requires
        0 <= i < items.len(),
    ensures
        with_key(items, key_of(items[i])).len() >= 1,
    decreases items.len(),
{
    if i < items.len() - 1 {
        assert(items.drop_last()[i] == items[i]);
        lemma_with_key_one(items.drop_last(), i);
    }
}

/// How two values stand to each other in their order.
enum Relation {
    Before,
    Same,
    After,
}

fn relate_bytes(a: &Vec<u8>, b: &Vec<u8>) -> (r: Relation)
    ensures
        r is Before ==> bytes_before(a@, b@),
        r is Same ==> a@ == b@,
        r is After ==> bytes_before(b@, a@),
{
    let mut i: usize = 0;
    assert(a@.skip(0) == a@ && b@.skip(0) == b@);
    while i < a.len() && i < b.len()
        invariant
            i <= a@.len(),
            i <= b@.len(),
            a@.take(i as int) == b@.take(i as int),
            bytes_before(a@, b@) == bytes_before(a@.skip(i as int), b@.skip(i as int)),
            bytes_before(b@, a@) == bytes_before(b@.skip(i as int), a@.skip(i as int)),
        decreases a.len() - i,
    {
        if a[i] < b[i] {
            return Relation::Before;
        }
        if b[i] < a[i] {
            return Relation::After;
        }
        assert(a@.take(i + 1) == a@.take(i as int).push(a@[i as int]));
        assert(b@.take(i + 1) == b@.take(i as int).push(b@[i as int]));
        assert(a@.skip(i as int).skip(1) == a@.skip(i + 1));
        assert(b@.skip(i as int).skip(1) == b@.skip(i + 1));
        i += 1;
    }
    if i < b.len() {
        Relation::Before
    } else if i < a.len() {
        Relation::After
    } else {
        assert(a@.take(i as int) == a@ && b@.take(i as int) == b@);
        Relation::Same
    }
}

fn kind_rank(part: &PathPart) -> (r: u8)
    ensures
        r == part_rank(part@),
{
    match part {
        PathPart::Root => 0,
        PathPart::CurDir => 1,
        PathPart::ParentDir => 2,
        PathPart::Normal(_) => 3,
    }
}

fn relate_part(a: &PathPart, b: &PathPart) -> (r: Relation)
    ensures
        r is Before ==> part_before(a@, b@),
        r is Same ==> a@ == b@,
        r is After ==> part_before(b@, a@),
{
    if let PathPart::Normal(m) = a {
        if let PathPart::Normal(n) = b {
            return relate_bytes(m, n);
        }
    }
    let x = kind_rank(a);
    let y = kind_rank(b);
    if x < y {
        Relation::Before
    } else if y < x {
        Relation::After
    } else {
        Relation::Same
    }
}

fn relate_parts(a: &Vec<PathPart>, b: &Vec<PathPart>) -> (r: Relation)
    ensures
        r is Before ==> parts_before(part_views(a@), part_views(b@)),
        r is Same ==> part_views(a@) == part_views(b@),
        r is After ==> parts_before(part_views(b@), part_views(a@)),
{
    let ghost p = part_views(a@);
    let ghost q = part_views(b@);
    let mut i: usize = 0;
    assert(p.skip(0) == p && q.skip(0) == q);
    while i < a.len() && i < b.len()
        invariant
            p == part_views(a@),
            q == part_views(b@),
            i <= p.len(),
            i <= q.len(),
            p.take(i as int) == q.take(i as int),
            parts_before(p, q) == parts_before(p.skip(i as int), q.skip(i as int)),
            parts_before(q, p) == parts_before(q.skip(i as int), p.skip(i as int)),
        decreases a.len() - i,
    {
        proof {
            assert(p.skip(i as int)[0] == p[i as int]);
            assert(q.skip(i as int)[0] == q[i as int]);
            lemma_part_order(p[i as int], q[i as int]);
        }
        match relate_part(&a[i], &b[i]) {
            Relation::Before => {
                return Relation::Before;
            },
            Relation::After => {
                return Relation::After;
            },
            Relation::Same => {},
        }
        assert(p.take(i + 1) == p.take(i as int).push(p[i as int]));
        assert(q.take(i + 1) == q.take(i as int).push(q[i as int]));
        assert(p.skip(i as int).skip(1) == p.skip(i + 1));
        assert(q.skip(i as int).skip(1) == q.skip(i + 1));
        i += 1;
    }
    if i < b.len() {
        Relation::Before
    } else if i < a.len() {
        Relation::After
    } else {
        assert(p.take(i as int) == p && q.take(i as int) == q);
        Relation::Same
    }
}

/// Whether two paths are the same part for part.
pub fn same_path(a: &[u8], b: &[u8]) -> (same: bool)
    ensures
        same == (path_parts(a@) == path_parts(b@)),
{
    let x = parts_of(a);
    let y = parts_of(b);
    proof {
        lemma_parts_order(path_parts(a@), path_parts(b@));
    }
    match relate_parts(&x, &y) {
        Relation::Same => true,
        _ => false,
    }
}

/// An item with the parts of its path at hand.
struct Keyed {
    parts: Vec<PathPart>,
    item: Item,
}

impl Keyed {
    spec fn wf(self) -> bool {
        part_views(self.parts@) == path_parts(self.item.path@)
    }
}

spec fn keyed_views(s: Seq<Keyed>) -> Seq<ItemView> {
    Seq::new(s.len(), |i: int| s[i].item@)
}

spec fn all_keyed(s: Seq<Keyed>) -> bool {
    forall|i: int| 0 <= i < s.len() ==> (#[trigger] s[i]).wf()
}

fn comes_before(a: &Keyed, b: &Keyed) -> (r: bool)
    requires
        a.wf(),
        b.wf(),
    ensures
        r == key_before(key_of(a.item@), key_of(b.item@)),
{
    proof {
        lemma_parts_order(path_parts(a.item.path@), path_parts(b.item.path@));
    }
    match relate_parts(&a.parts, &b.parts) {
        Relation::Before => true,
        Relation::Same => a.item.line < b.item.line,
        Relation::After => false,
    }
}

/// Everything in `a` may stand before everything in `b`.
spec fn none_after(a: Seq<ItemView>, b: Seq<ItemView>) -> bool {
    forall|i: int, j: int|
        0 <= i < a.len() && 0 <= j < b.len() ==> !key_before(
            key_of(#[trigger] b[j]),
            key_of(#[trigger] a[i]),
        )
}

/// The items of each key stand in `l`, then `r`, then `o` as they stood in `l0` and then `r0`.
spec fn merging(
    l: Seq<ItemView>,
    r: Seq<ItemView>,
    o: Seq<ItemView>,
    l0: Seq<ItemView>,
    r0: Seq<ItemView>,
) -> bool {
    forall|key: ItemKey|
        #![trigger with_key(l0, key)]
        with_key(l, key) + with_key(r, key) + with_key(o, key) == with_key(l0, key) + with_key(
            r0,
            key,
        )
}

/// Taking the last of `r`, which no item of `l` comes after, keeps the merge going.
proof fn lemma_take_right(
    l: Seq<ItemView>,
    r: Seq<ItemView>,
    o: Seq<ItemView>,
    l0: Seq<ItemView>,
    r0: Seq<ItemView>,
)
    requires
        l.len() > 0,
        r.len() > 0,
        in_order(l),
        in_order(r),
        in_order(o),
        none_after(l, o),
        none_after(r, o),
        merging(l, r, o, l0, r0),
        !key_before(key_of(r.last()), key_of(l.last())),
    ensures
        in_order(r.drop_last()),
        in_order(seq![r.last()] + o),
        none_after(l, seq![r.last()] + o),
        none_after(r.drop_last(), seq![r.last()] + o),
        merging(l, r.drop_last(), seq![r.last()] + o, l0, r0),
{
    let x = r.last();
    let grown = seq![x] + o;
    assert forall|i: int, j: int| 0 <= i < j < grown.len() implies !key_before(
        key_of(#[trigger] grown[j]),
        key_of(#[trigger] grown[i]),
    ) by {
        assert(grown[j] == o[j - 1]);
        if i == 0 {
            assert(grown[i] == r[r.len() - 1]);
        } else {
            assert(grown[i] == o[i - 1]);
        }
    }
    assert forall|i: int, j: int| 0 <= i < l.len() && 0 <= j < grown.len() implies !key_before(
        key_of(#[trigger] grown[j]),
        key_of(#[trigger] l[i]),
    ) by {
        if j == 0 {
            if i < l.len() - 1 {
                assert(!key_before(key_of(l[l.len() - 1]), key_of(l[i])));
                lemma_not_before_transitive(key_of(l[i]), key_of(l.last()), key_of(x));
            }
        } else {
            assert(grown[j] == o[j - 1]);
        }
    }
    let rest = r.drop_last();
    assert forall|i: int, j: int| 0 <= i < rest.len() && 0 <= j < grown.len() implies !key_before(
        key_of(#[trigger] grown[j]),
        key_of(#[trigger] rest[i]),
    ) by {
        assert(rest[i] == r[i]);
        if j == 0 {
            assert(grown[j] == r[r.len() - 1]);
        } else {
            assert(grown[j] == o[j - 1]);
        }
    }
    assert forall|key: ItemKey|
        #![trigger with_key(l0, key)]
        with_key(l, key) + with_key(rest, key) + with_key(grown, key) == with_key(l0, key)
            + with_key(r0, key) by {
        lemma_with_key_concat(seq![x], o, key);
        lemma_with_key_concat(rest, seq![x], key);
        assert(r == rest + seq![x]);
        assert(with_key(l, key) + with_key(r, key) + with_key(o, key) == with_key(l0, key)
            + with_key(r0, key));
        assert(with_key(l, key) + with_key(rest, key) + with_key(grown, key) == with_key(l, key)
            + with_key(r, key) + with_key(o, key));
    }
}

/// Taking the last of `l`, which the last of `r` comes before, keeps the merge going.
proof fn lemma_take_left(
    l: Seq<ItemView>,
    r: Seq<ItemView>,
    o: Seq<ItemView>,
    l0: Seq<ItemView>,
    r0: Seq<ItemView>,
)
    requires
        l.len() > 0,
        r.len() > 0,
        in_order(l),
        in_order(r),
        in_order(o),
        none_after(l, o),
        none_after(r, o),
        merging(l, r, o, l0, r0),
        key_before(key_of(r.last()), key_of(l.last())),
    ensures
        in_order(l.drop_last()),
        in_order(seq![l.last()] + o),
        none_after(l.drop_last(), seq![l.last()] + o),
        none_after(r, seq![l.last()] + o),
        merging(l.drop_last(), r, seq![l.last()] + o, l0, r0),
{
    let x = l.last();
    let grown = seq![x] + o;
    assert forall|i: int, j: int| 0 <= i < j < grown.len() implies !key_before(
        key_of(#[trigger] grown[j]),
        key_of(#[trigger] grown[i]),
    ) by {
        assert(grown[j] == o[j - 1]);
        if i == 0 {
            assert(grown[i] == l[l.len() - 1]);
        } else {
            assert(grown[i] == o[i - 1]);
        }
    }
    // Every item of `r` comes before `x`.
    assert forall|i: int| 0 <= i < r.len() implies key_before(
        key_of(#[trigger] r[i]),
        key_of(x),
    ) by {
        if i < r.len() - 1 {
            assert(!key_before(key_of(r[r.len() - 1]), key_of(r[i])));
            law_order_is_total(key_of(r[i]), key_of(r.last()));
            if key_of(r[i]) != key_of(r.last()) {
                law_order_is_transitive(key_of(r[i]), key_of(r.last()), key_of(x));
            }
        }
    }
    assert forall|i: int, j: int| 0 <= i < r.len() && 0 <= j < grown.len() implies !key_before(
        key_of(#[trigger] grown[j]),
        key_of(#[trigger] r[i]),
    ) by {
        if j == 0 {
            law_order_is_total(key_of(r[i]), key_of(x));
        } else {
            assert(grown[j] == o[j - 1]);
        }
    }
    let rest = l.drop_last();
    assert forall|i: int, j: int| 0 <= i < rest.len() && 0 <= j < grown.len() implies !key_before(
        key_of(#[trigger] grown[j]),
        key_of(#[trigger] rest[i]),
    ) by {
        assert(rest[i] == l[i]);
        if j == 0 {
            assert(grown[j] == l[l.len() - 1]);
        } else {
            assert(grown[j] == o[j - 1]);
        }
    }
    assert forall|key: ItemKey|
        #![trigger with_key(l0, key)]
        with_key(rest, key) + with_key(r, key) + with_key(grown, key) == with_key(l0, key)
            + with_key(r0, key) by {
        lemma_with_key_concat(seq![x], o, key);
        lemma_with_key_concat(rest, seq![x], key);
        assert(l == rest + seq![x]);
        assert(with_key(l, key) + with_key(r, key) + with_key(o, key) == with_key(l0, key)
            + with_key(r0, key));
        if key == key_of(x) {
            assert forall|i: int| 0 <= i < r.len() implies key_of(#[trigger] r[i]) != key by {
                law_order_is_total(key_of(r[i]), key);
            }
            lemma_with_key_none(r, key);
        } else {
            assert(seq![x].drop_last() == Seq::<ItemView>::empty());
            assert(with_key(seq![x], key) == Seq::<ItemView>::empty());
        }
        assert(with_key(rest, key) + with_key(r, key) + with_key(grown, key) == with_key(l, key)
            + with_key(r, key) + with_key(o, key));
    }
}

/// Two sorted lists as one; of items with one key those of `left` come first.
fn merge(left: Vec<Keyed>, right: Vec<Keyed>) -> (out: Vec<Keyed>)
    requires
        all_keyed(left@),
        all_keyed(right@),
        in_order(keyed_views(left@)),
        in_order(keyed_views(right@)),
    ensures
        all_keyed(out@),
        stably_sorted(keyed_views(left@) + keyed_views(right@), keyed_views(out@)),
{
    let ghost l0 = keyed_views(left@);
    let ghost r0 = keyed_views(right@);
    let mut left = left;
    let mut right = right;
    let mut tail: Vec<Keyed> = Vec::new();
    let ghost mut o: Seq<ItemView> = Seq::empty();
    proof {
        assert forall|key: ItemKey|
            #![trigger with_key(l0, key)]
            with_key(l0, key) + with_key(r0, key) + with_key(o, key) == with_key(l0, key)
                + with_key(r0, key) by {}
        assert(keyed_views(tail@).reverse() == o);
    }
    while left.len() > 0 && right.len() > 0
        invariant
            all_keyed(left@),
            all_keyed(right@),
            all_keyed(tail@),
            o == keyed_views(tail@).reverse(),
            in_order(keyed_views(left@)),
            in_order(keyed_views(right@)),
            in_order(o),
            none_after(keyed_views(left@), o),
            none_after(keyed_views(right@), o),
            merging(keyed_views(left@), keyed_views(right@), o, l0, r0),
        decreases left.len() + right.len(),
    {
        let ghost l = keyed_views(left@);
        let ghost r = keyed_views(right@);
        let ghost before = tail@;
        let later = comes_before(&right[right.len() - 1], &left[left.len() - 1]);
        assert(l.last() == left@.last().item@);
        assert(r.last() == right@.last().item@);
        if later {
            proof {
                lemma_take_left(l, r, o, l0, r0);
            }
            if let Some(x) = left.pop() {
                assert(keyed_views(left@) == l.drop_last());
                tail.push(x);
                proof {
                    o = seq![l.last()] + o;
                    assert(keyed_views(tail@) == keyed_views(before).push(l.last()));
                    assert(keyed_views(tail@).reverse() == o);
                }
            }
        } else {
            proof {
                lemma_take_right(l, r, o, l0, r0);
            }
            if let Some(x) = right.pop() {
                assert(keyed_views(right@) == r.drop_last());
                tail.push(x);
                proof {
                    o = seq![r.last()] + o;
                    assert(keyed_views(tail@) == keyed_views(before).push(r.last()));
                    assert(keyed_views(tail@).reverse() == o);
                }
            }
        }
    }
    let ghost l = keyed_views(left@);
    let ghost r = keyed_views(right@);
    let mut out = if left.len() > 0 {
        left
    } else {
        right
    };
    let ghost head = keyed_views(out@);
    proof {
        assert(head == l + r);
        assert(in_order(head + o)) by {
            assert forall|i: int, j: int| 0 <= i < j < (head + o).len() implies !key_before(
                key_of(#[trigger] (head + o)[j]),
                key_of(#[trigger] (head + o)[i]),
            ) by {
                if j < head.len() {
                    assert((head + o)[i] == head[i] && (head + o)[j] == head[j]);
                } else if i < head.len() {
                    assert((head + o)[i] == head[i] && (head + o)[j] == o[j - head.len()]);
                } else {
                    assert((head + o)[i] == o[i - head.len()] && (head + o)[j] == o[j
                        - head.len()]);
                }
            }
        }
        assert forall|key: ItemKey| #[trigger] with_key(head + o, key) == with_key(
            l0 + r0,
            key,
        ) by {
            lemma_with_key_concat(head, o, key);
            lemma_with_key_concat(l, r, key);
            lemma_with_key_concat(l0, r0, key);
            assert(with_key(l, key) + with_key(r, key) + with_key(o, key) == with_key(l0, key)
                + with_key(r0, key));
        }
    }
    let ghost total = tail@.len() as int;
    while tail.len() > 0
        invariant
            all_keyed(out@),
            all_keyed(tail@),
            total == o.len(),
            tail@.len() <= total,
            keyed_views(tail@).reverse() == o.skip(total - tail@.len()),
            keyed_views(out@) == head + o.take(total - tail@.len()),
        decreases tail.len(),
    {
        let ghost before = out@;
        let ghost waiting = tail@;
        if let Some(x) = tail.pop() {
            proof {
                let k = total - waiting.len();
                assert(keyed_views(waiting).reverse()[0] == x.item@);
                assert(o.skip(k)[0] == o[k]);
                assert(keyed_views(tail@) == keyed_views(waiting).drop_last());
                assert(keyed_views(tail@).reverse() == o.skip(k + 1)) by {
                    assert(keyed_views(tail@).reverse() == keyed_views(waiting).reverse().skip(1));
                    assert(o.skip(k).skip(1) == o.skip(k + 1));
                }
                assert(o.take(k + 1) == o.take(k).push(o[k]));
            }
            let ghost view = x.item@;
            out.push(x);
            assert(keyed_views(out@) == keyed_views(before).push(view));
        }
    }
    assert(o.take(total) == o);
    out
}

/// A list in order, with the items of one key as they stood.
fn sort_keyed(items: Vec<Keyed>) -> (out: Vec<Keyed>)
    requires
        all_keyed(items@),
    ensures
        all_keyed(out@),
        stably_sorted(keyed_views(items@), keyed_views(out@)),
    decreases items@.len(),
{
    if items.len() < 2 {
        return items;
    }
    let ghost all = keyed_views(items@);
    let mut left = items;
    let middle: usize = left.len() / 2;
    let right = left.split_off(middle);
    let ghost l = keyed_views(left@);
    let ghost r = keyed_views(right@);
    assert(all == l + r);
    let left = sort_keyed(left);
    let right = sort_keyed(right);
    let out = merge(left, right);
    proof {
        let a = keyed_views(left@);
        let b = keyed_views(right@);
        assert forall|key: ItemKey| #[trigger] with_key(keyed_views(out@), key) == with_key(
            all,
            key,
        ) by {
            lemma_with_key_concat(l, r, key);
            lemma_with_key_concat(a, b, key);
            assert(with_key(a, key) == with_key(l, key));
            assert(with_key(b, key) == with_key(r, key));
            assert(with_key(keyed_views(out@), key) == with_key(a + b, key));
        }
    }
    out
}

/// The items in order of path and line. Items of one path and line stay in the order in
/// which they stood.
pub fn sort_items(items: Vec<Item>) -> (out: Vec<Item>)
    ensures
        stably_sorted(item_views(items@), item_views(out@)),
{
    let ghost views = item_views(items@);
    let mut list: Vec<Keyed> = Vec::new();
    for item in it: items
        invariant
            all_keyed(list@),
            it.seq() == items@,
            views == item_views(items@),
            keyed_views(list@) == views.take(it.index()),
    {
        let ghost before = list@;
        let ghost view = item@;
        list.push(Keyed { parts: parts_of(item.path.as_slice()), item });
        assert(keyed_views(list@) == keyed_views(before).push(view));
    }
    assert(views.take(views.len() as int) == views);
    let sorted = sort_keyed(list);
    let ghost result = keyed_views(sorted@);
    let mut out: Vec<Item> = Vec::new();
    for x in it: sorted
        invariant
            it.seq() == sorted@,
            result == keyed_views(sorted@),
            item_views(out@) == result.take(it.index()),
    {
        let ghost before = out@;
        let ghost view = x.item@;
        out.push(x.item);
        assert(item_views(out@) == item_views(before).push(view));
    }
    assert(result.take(result.len() as int) == result);
    out
}

} // verus!
