//! What holds of every scan.
use vstd::prelude::*;

#[allow(unused_imports)]
use crate::extract_laws::{law_items_stand_at_their_lines, law_lines_increase};
#[allow(unused_imports)]
use crate::item::{item_views, Item, ItemView};
#[allow(unused_imports)]
use crate::order::{
    key_before, key_of, law_order_is_total, law_sorting_has_one_outcome, lemma_with_key_concat,
    lemma_with_key_none, lemma_with_key_two, stably_sorted, with_key, ItemKey,
};
#[allow(unused_imports)]
use crate::path::{markdown_path, path_parts, shown_path};
#[allow(unused_imports)]
use crate::scan::{
    entry_view, files_of_walk, items_of_file, items_of_files, taking_in, text_view, visiting,
    wanted, Entry, EntryView, ReadFile, Scanner, Visit,
};
#[allow(unused_imports)]
use crate::extract::items_of;
#[allow(unused_imports)]
use crate::order::{law_sorting_keeps_the_items, parts_before};
#[allow(unused_imports)]
use crate::order_laws::law_sorted_items_stand_by_path_and_line;

verus! {

/// Whether no two of the files are shown under the same path.
pub open spec fn paths_differ(files: Seq<ReadFile>) -> bool {
    forall|i: int, j: int|
        0 <= i < j < files.len() ==> path_parts(shown_path(#[trigger] files[i].raw)) != path_parts(
            shown_path(#[trigger] files[j].raw),
        )
}

/// The items of a file have its path.
proof fn lemma_file_keys(file: ReadFile, key: ItemKey)
    requires
        path_parts(shown_path(file.raw)) != key.parts,
    ensures
        with_key(items_of_file(file), key) == Seq::<ItemView>::empty(),
{
    let items = items_of_file(file);
    assert forall|i: int| 0 <= i < items.len() implies key_of(#[trigger] items[i]) != key by {
        law_items_stand_at_their_lines(shown_path(file.raw), file.content, i);
    }
    lemma_with_key_none(items, key);
}

/// No file with this path, no item with it.
proof fn lemma_no_file(files: Seq<ReadFile>, key: ItemKey)
    requires
        forall|i: int|
            0 <= i < files.len() ==> path_parts(shown_path(#[trigger] files[i].raw)) != key.parts,
    ensures
        with_key(items_of_files(files), key) == Seq::<ItemView>::empty(),
    decreases files.len(),
{
    if files.len() > 0 {
        let before = files.drop_last();
        assert(forall|i: int| 0 <= i < before.len() ==> #[trigger] before[i].raw == files[i].raw);
        lemma_no_file(before, key);
        lemma_with_key_concat(items_of_files(before), items_of_file(files.last()), key);
        assert(files[files.len() - 1].raw == files.last().raw);
        lemma_file_keys(files.last(), key);
    }
}

/// The items with a file's path are those of the one file that has it.
proof fn lemma_one_file(files: Seq<ReadFile>, n: int, key: ItemKey)
    requires
        paths_differ(files),
        0 <= n < files.len(),
        path_parts(shown_path(files[n].raw)) == key.parts,
    ensures
        with_key(items_of_files(files), key) == with_key(items_of_file(files[n]), key),
    decreases files.len(),
{
    let before = files.drop_last();
    lemma_with_key_concat(items_of_files(before), items_of_file(files.last()), key);
    assert(forall|i: int| 0 <= i < before.len() ==> #[trigger] before[i].raw == files[i].raw);
    if n < before.len() {
        assert(before[n] == files[n]);
        lemma_one_file(before, n, key);
        assert(files[files.len() - 1].raw == files.last().raw);
        lemma_file_keys(files.last(), key);
    } else {
        assert(forall|i: int|
            0 <= i < before.len() ==> path_parts(shown_path(#[trigger] before[i].raw))
                != key.parts) by {
            assert(files[n].raw == files.last().raw);
        }
        lemma_no_file(before, key);
    }
}

/// Of the items of one file at most one has a key.
proof fn lemma_file_has_key_once(items: Seq<ItemView>, key: ItemKey)
    requires
        forall|i: int, j: int|
            0 <= i < j < items.len() ==> (#[trigger] items[i]).line < (#[trigger] items[j]).line,
    ensures
        with_key(items, key).len() <= 1,
    decreases items.len(),
{
    if items.len() > 0 {
        let before = items.drop_last();
        lemma_file_has_key_once(before, key);
        if key_of(items.last()) == key {
            assert forall|i: int| 0 <= i < before.len() implies key_of(#[trigger] before[i])
                != key by {
                assert(items[i].line < items[items.len() - 1].line);
            }
            lemma_with_key_none(before, key);
        }
    }
}

/// The items of a scan stand strictly in order: by path, and within one file by line. No two
/// have the same path and the same line.
pub proof fn law_scan_is_strictly_ordered(
    files: Seq<ReadFile>,
    items: Seq<ItemView>,
    i: int,
    j: int,
)
    requires
        paths_differ(files),
        stably_sorted(items_of_files(files), items),
        0 <= i < j < items.len(),
    ensures
        key_before(key_of(items[i]), key_of(items[j])),
{
    let key = key_of(items[i]);
    assert(!key_before(key_of(items[j]), key_of(items[i])));
    law_order_is_total(key_of(items[i]), key_of(items[j]));
    if key == key_of(items[j]) {
        lemma_with_key_two(items, i, j);
        assert(with_key(items, key) == with_key(items_of_files(files), key));
        if exists|n: int|
            0 <= n < files.len() && path_parts(shown_path(#[trigger] files[n].raw)) == key.parts {
            let n = choose|n: int|
                0 <= n < files.len() && path_parts(shown_path(#[trigger] files[n].raw))
                    == key.parts;
            lemma_one_file(files, n, key);
            let own = items_of_file(files[n]);
            assert forall|a: int, b: int| 0 <= a < b < own.len() implies (#[trigger] own[a]).line
                < (#[trigger] own[b]).line by {
                law_lines_increase(shown_path(files[n].raw), files[n].content, a, b);
            }
            lemma_file_has_key_once(own, key);
        } else {
            lemma_no_file(files, key);
        }
    }
}

/// The outcome of a scan does not depend on the order in which the walk comes to the files.
pub proof fn law_walk_order_does_not_matter(
    one: Seq<ReadFile>,
    two: Seq<ReadFile>,
    first: Seq<ItemView>,
    second: Seq<ItemView>,
)
    requires
        paths_differ(one),
        paths_differ(two),
        forall|file: ReadFile| one.contains(file) <==> two.contains(file),
        stably_sorted(items_of_files(one), first),
        stably_sorted(items_of_files(two), second),
    ensures
        first == second,
{
    assert forall|key: ItemKey| #[trigger] with_key(second, key) == with_key(
        items_of_files(one),
        key,
    ) by {
        if exists|i: int|
            0 <= i < one.len() && path_parts(shown_path(#[trigger] one[i].raw)) == key.parts {
            let i = choose|i: int|
                0 <= i < one.len() && path_parts(shown_path(#[trigger] one[i].raw)) == key.parts;
            assert(one.contains(one[i]));
            assert(two.contains(one[i]));
            let j = choose|j: int| 0 <= j < two.len() && two[j] == one[i];
            lemma_one_file(one, i, key);
            lemma_one_file(two, j, key);
        } else {
            assert forall|j: int| 0 <= j < two.len() implies path_parts(
                shown_path(#[trigger] two[j].raw),
            ) != key.parts by {
                assert(two.contains(two[j]));
                assert(one.contains(two[j]));
                let i = choose|i: int| 0 <= i < one.len() && one[i] == two[j];
                assert(one[i].raw == two[j].raw);
            }
            lemma_no_file(one, key);
            lemma_no_file(two, key);
        }
    }
    law_sorting_has_one_outcome(items_of_files(one), first, second);
}

/// The files that a walk reads, step after step: those read before, and what the last step adds.
pub proof fn law_a_walk_goes_step_by_step(walk: Seq<Visit>, visit: Visit)
    ensures
        files_of_walk(walk.push(visit)) == visiting(files_of_walk(walk), visit),
        files_of_walk(Seq::empty()) == Seq::<ReadFile>::empty(),
{
    assert(walk.push(visit).drop_last() == walk);
}

/// Whether a step of a walk comes to nothing: the entry could not be had, is no file, is not
/// that of a Markdown file, or its text could not be read.
pub open spec fn comes_to_nothing(visit: Visit) -> bool {
    match visit.entry {
        None => true,
        Some(e) => !e.is_file || !markdown_path(e.path) || visit.content is None,
    }
}

proof fn lemma_walk_without(walk: Seq<Visit>, k: int)
    requires
        0 <= k < walk.len(),
        comes_to_nothing(walk[k]),
    ensures
        files_of_walk(walk.remove(k)) == files_of_walk(walk),
    decreases walk.len(),
{
    let shorter = walk.remove(k);
    if k == walk.len() - 1 {
        assert(shorter == walk.drop_last());
    } else {
        lemma_walk_without(walk.drop_last(), k);
        assert(walk.drop_last()[k] == walk[k]);
        assert(shorter.drop_last() == walk.drop_last().remove(k));
        assert(shorter.last() == walk.last());
    }
}

/// A step of a walk that comes to nothing changes nothing of the outcome: the scan has the
/// same items as without that step.
pub proof fn law_what_cannot_be_read_changes_nothing(
    walk: Seq<Visit>,
    k: int,
    with: Seq<ItemView>,
    without: Seq<ItemView>,
)
    requires
        0 <= k < walk.len(),
        comes_to_nothing(walk[k]),
        stably_sorted(items_of_files(files_of_walk(walk)), with),
        stably_sorted(items_of_files(files_of_walk(walk.remove(k))), without),
    ensures
        with == without,
{
    lemma_walk_without(walk, k);
    law_sorting_has_one_outcome(items_of_files(files_of_walk(walk)), with, without);
}

/// A step of a walk adds the file, under its path and with its text, if the entry is a file with
/// the name of a Markdown file and its text could be read; and nothing else.
pub proof fn law_a_step_adds_the_file_that_is_read(
    files: Seq<ReadFile>,
    entry: EntryView,
    text: Seq<char>,
)
    ensures
        entry.is_file && markdown_path(entry.path) ==> {
            &&& wanted(Some(entry)) == Some(entry.path)
            &&& visiting(files, Visit { entry: Some(entry), content: Some(text) }) == files.push(
                ReadFile { raw: entry.path, content: text },
            )
        },
        !entry.is_file || !markdown_path(entry.path) ==> {
            &&& wanted(Some(entry)) is None
            &&& visiting(files, Visit { entry: Some(entry), content: Some(text) }) == files
        },
        visiting(files, Visit { entry: Some(entry), content: None }) == files,
        visiting(files, Visit { entry: None, content: Some(text) }) == files,
        visiting(files, Visit { entry: None, content: None }) == files,
        wanted(None) is None,
        taking_in(files, entry.path, Some(text)) == files.push(
            ReadFile { raw: entry.path, content: text },
        ),
        taking_in(files, entry.path, None) == files,
{
}

/// What the walk came to and what was read are what they hold.
pub proof fn law_entries_are_what_they_hold(entry: Entry, text: &str)
    ensures
        entry_view(Some(&entry)) == Some(EntryView { path: entry.path@, is_file: entry.is_file }),
        entry_view(None) is None,
        text_view(Some(text)) == Some(text@),
        text_view(None) is None,
{
}

proof fn lemma_items_of_files(files: Seq<ReadFile>, x: ItemView)
    ensures
        items_of_files(files).contains(x) <==> exists|k: int|
            0 <= k < files.len() && items_of(
                shown_path((#[trigger] files[k]).raw),
                files[k].content,
            ).contains(x),
    decreases files.len(),
{
    if files.len() > 0 {
        let before = files.drop_last();
        let one = items_of_files(before);
        let two = items_of_file(files.last());
        lemma_items_of_files(before, x);
        if one.contains(x) {
            let i = one.index_of(x);
            assert((one + two)[i] == x);
            let k = choose|k: int|
                0 <= k < before.len() && items_of(
                    shown_path((#[trigger] before[k]).raw),
                    before[k].content,
                ).contains(x);
            assert(files[k] == before[k]);
        }
        if two.contains(x) {
            let i = two.index_of(x);
            assert((one + two)[one.len() + i] == x);
            assert(files[files.len() - 1] == files.last());
        }
        if (one + two).contains(x) {
            let i = (one + two).index_of(x);
            if i < one.len() {
                assert(one[i] == x);
            } else {
                assert(two[i - one.len()] == x);
            }
        }
        if exists|k: int|
            0 <= k < files.len() && items_of(
                shown_path((#[trigger] files[k]).raw),
                files[k].content,
            ).contains(x) {
            let k = choose|k: int|
                0 <= k < files.len() && items_of(
                    shown_path((#[trigger] files[k]).raw),
                    files[k].content,
                ).contains(x);
            if k < before.len() {
                assert(before[k] == files[k]);
            }
        }
    }
}

/// A scan finds what its files hold, under the paths that are shown: every item of every file,
/// and no others.
pub proof fn law_a_scan_finds_what_the_files_hold(
    files: Seq<ReadFile>,
    items: Seq<ItemView>,
    x: ItemView,
)
    requires
        stably_sorted(items_of_files(files), items),
    ensures
        items.contains(x) <==> exists|k: int|
            0 <= k < files.len() && items_of(
                shown_path((#[trigger] files[k]).raw),
                files[k].content,
            ).contains(x),
        items.len() == items_of_files(files).len(),
{
    broadcast use vstd::seq_lib::group_to_multiset_ensures;

    lemma_items_of_files(files, x);
    law_sorting_keeps_the_items(items_of_files(files), items);
    assert(items.to_multiset().count(x) == items_of_files(files).to_multiset().count(x));
    assert(items.contains(x) <==> items.to_multiset().count(x) > 0);
    assert(items_of_files(files).contains(x) <==> items_of_files(files).to_multiset().count(x)
        > 0);
}

/// The items of one file more come in addition to those of the others, before they are sorted.
pub proof fn law_files_add_up(files: Seq<ReadFile>, file: ReadFile)
    ensures
        items_of_files(files.push(file)) == items_of_files(files) + items_of(
            shown_path(file.raw),
            file.content,
        ),
        items_of_files(Seq::empty()) == Seq::<ItemView>::empty(),
{
    assert(files.push(file).drop_last() == files);
}

/// A scan ends with the items of its files in order.
pub proof fn law_a_scan_ends_in_order(scanner: Scanner, items: Vec<Item>, i: int, j: int)
    requires
        call_ensures(Scanner::finish, (scanner,), items),
        scanner.wf(),
        0 <= i < items@.len(),
        0 <= j < items@.len(),
    ensures
        items@.len() == items_of_files(scanner.files()).len(),
        parts_before(path_parts(items@[i].path@), path_parts(items@[j].path@)) ==> i < j,
        path_parts(items@[i].path@) == path_parts(items@[j].path@) && items@[i].line
            < items@[j].line ==> i < j,
        exists|k: int|
            0 <= k < scanner.files().len() && items_of(
                shown_path((#[trigger] scanner.files()[k]).raw),
                scanner.files()[k].content,
            ).contains(items@[i]@),
{
    let views = item_views(items@);
    law_sorted_items_stand_by_path_and_line(items_of_files(scanner.files()), views, i, j);
    assert(views[i] == items@[i]@ && views[j] == items@[j]@);
    law_a_scan_finds_what_the_files_hold(scanner.files(), views, items@[i]@);
    assert(views.contains(items@[i]@));
}

} // verus!
