//! What holds of browsing as a whole.
use vstd::prelude::*;

#[allow(unused_imports)]
use crate::app::{
    anchor_view, find, first_of, kept_or_first, last_of, lemma_find, lemma_position, lemma_visible,
    lemma_visible_increases, lemma_visible_in_range, next_of, place, position, prev_of, refreshed,
    shown, starts_refresh, step_of, takes_in, toggles, visible, with_state, App, ScanOutcome,
};
#[allow(unused_imports)]
use crate::item::{item_views, Item, ItemView, KindView};
#[allow(unused_imports)]
use crate::list::{selecting, ListState};
#[allow(unused_imports)]
use crate::path::{path_parts, same_parts};

verus! {

/// Each visible index has one place in the list.
proof fn lemma_place_of_visible(items: Seq<ItemView>, hide_done: bool, p: int)
    requires
        items.len() <= usize::MAX,
        0 <= p < visible(items, hide_done).len(),
    ensures
        position(visible(items, hide_done), visible(items, hide_done)[p]) == Some(p),
{
    let vis = visible(items, hide_done);
    lemma_position(vis, vis[p]);
    assert(vis.contains(vis[p]));
    let q = position(vis, vis[p])->0;
    if q < p {
        lemma_visible_increases(items, hide_done, q, p);
    } else if p < q {
        lemma_visible_increases(items, hide_done, p, q);
    }
}

/// Without the filter every item is in the list.
pub proof fn law_without_filter_all_is_visible(items: Seq<ItemView>)
    requires
        items.len() <= usize::MAX,
    ensures
        visible(items, false) == Seq::new(items.len(), |i: int| i as usize),
    decreases items.len(),
{
    if items.len() > 0 {
        law_without_filter_all_is_visible(items.drop_last());
    }
    assert(visible(items, false) == Seq::new(items.len(), |i: int| i as usize));
}

/// The filter leaves out the tasks that are done, and neither headings nor open tasks.
pub proof fn law_filter_leaves_out_done_tasks(items: Seq<ItemView>, i: int)
    requires
        items.len() <= usize::MAX,
        0 <= i < items.len(),
    ensures
        visible(items, true).contains(i as usize) <==> match items[i].kind {
            KindView::Heading(_, _) => true,
            KindView::Task { done, .. } => !done,
        },
{
    lemma_visible(items, true, i);
}

/// The list keeps the order of the items.
pub proof fn law_list_keeps_the_order(items: Seq<ItemView>, hide_done: bool, j: int, k: int)
    requires
        items.len() <= usize::MAX,
        0 <= j < k < visible(items, hide_done).len(),
    ensures
        visible(items, hide_done)[j] < visible(items, hide_done)[k] < items.len(),
{
    lemma_visible_increases(items, hide_done, j, k);
    lemma_visible_in_range(items, hide_done, k);
}

/// Going on and then back, or back and then on, leads to where one was.
pub proof fn law_prev_and_next_undo_each_other(items: Seq<ItemView>, hide_done: bool, index: usize)
    requires
        items.len() <= usize::MAX,
        visible(items, hide_done).contains(index),
    ensures
        prev_of(
            visible(items, hide_done),
            next_of(visible(items, hide_done), Some(index)),
        ) == Some(index),
        next_of(
            visible(items, hide_done),
            prev_of(visible(items, hide_done), Some(index)),
        ) == Some(index),
{
    let vis = visible(items, hide_done);
    let n = vis.len() as int;
    lemma_position(vis, index);
    let p = position(vis, index)->0;
    lemma_next_place(vis, index, p);
    let after = if p + 1 < n {
        p + 1
    } else {
        0
    };
    lemma_place_of_visible(items, hide_done, after);
    let before = if p > 0 {
        p - 1
    } else {
        n - 1
    };
    lemma_place_of_visible(items, hide_done, before);
    lemma_next_place(vis, vis[before], before);
}

proof fn lemma_next_place(vis: Seq<usize>, index: usize, p: int)
    requires
        0 <= p < vis.len(),
        position(vis, index) == Some(p),
    ensures
        next_of(vis, Some(index)) == Some(
            vis[if p + 1 < vis.len() {
                p + 1
            } else {
                0
            }],
        ),
{
    if p + 1 < vis.len() {
        vstd::arithmetic::div_mod::lemma_small_mod((p + 1) as nat, vis.len());
    } else {
        vstd::arithmetic::div_mod::lemma_mod_self_0(vis.len() as int);
    }
}

/// The selection after going on `n` times.
pub open spec fn next_times(vis: Seq<usize>, selected: Option<usize>, n: nat) -> Option<usize>
    decreases n,
{
    if n == 0 {
        selected
    } else {
        next_of(vis, next_times(vis, selected, (n - 1) as nat))
    }
}

proof fn lemma_next_times(items: Seq<ItemView>, hide_done: bool, p: int, n: nat)
    requires
        items.len() <= usize::MAX,
        0 <= p < visible(items, hide_done).len(),
        n <= visible(items, hide_done).len(),
    ensures
        ({
            let vis = visible(items, hide_done);
            next_times(vis, Some(vis[p]), n) == Some(
                vis[if p + n < vis.len() {
                    p + n
                } else {
                    p + n - vis.len()
                }],
            )
        }),
    decreases n,
{
    let vis = visible(items, hide_done);
    if n > 0 {
        lemma_next_times(items, hide_done, p, (n - 1) as nat);
        let q = if p + n - 1 < vis.len() {
            p + n - 1
        } else {
            p + n - 1 - vis.len()
        };
        lemma_place_of_visible(items, hide_done, q);
        lemma_next_place(vis, vis[q], q);
    }
}

/// Going on as often as the list has items comes past every one of them, and ends where it
/// began.
pub proof fn law_next_goes_round(items: Seq<ItemView>, hide_done: bool, index: usize, other: usize)
    requires
        items.len() <= usize::MAX,
        visible(items, hide_done).contains(index),
        visible(items, hide_done).contains(other),
    ensures
        next_times(
            visible(items, hide_done),
            Some(index),
            visible(items, hide_done).len(),
        ) == Some(index),
        exists|n: nat|
            n < visible(items, hide_done).len() && #[trigger] next_times(
                visible(items, hide_done),
                Some(index),
                n,
            ) == Some(other),
{
    let vis = visible(items, hide_done);
    let p = choose|p: int| 0 <= p < vis.len() && vis[p] == index;
    let q = choose|q: int| 0 <= q < vis.len() && vis[q] == other;
    lemma_next_times(items, hide_done, p, vis.len());
    let n = if p <= q {
        q - p
    } else {
        q - p + vis.len()
    };
    lemma_next_times(items, hide_done, p, n as nat);
    assert(next_times(vis, Some(index), n as nat) == Some(other));
}

/// A step that is long enough ends at the end of the list, and one of length zero where it
/// began.
pub proof fn law_steps_stop_at_the_ends(
    items: Seq<ItemView>,
    hide_done: bool,
    index: usize,
    delta: int,
)
    requires
        items.len() <= usize::MAX,
        visible(items, hide_done).contains(index),
    ensures
        delta >= visible(items, hide_done).len() ==> step_of(
            visible(items, hide_done),
            Some(index),
            delta,
        ) == last_of(visible(items, hide_done)),
        delta <= -visible(items, hide_done).len() ==> step_of(
            visible(items, hide_done),
            Some(index),
            delta,
        ) == first_of(visible(items, hide_done)),
        step_of(visible(items, hide_done), Some(index), 0) == Some(index),
{
    lemma_position(visible(items, hide_done), index);
}

/// A step that does not reach an end is undone by the opposite step.
pub proof fn law_opposite_steps_undo_each_other(
    items: Seq<ItemView>,
    hide_done: bool,
    p: int,
    delta: int,
)
    requires
        items.len() <= usize::MAX,
        0 <= p < visible(items, hide_done).len(),
        0 <= p + delta < visible(items, hide_done).len(),
    ensures
        ({
            let vis = visible(items, hide_done);
            step_of(vis, step_of(vis, Some(vis[p]), delta), -delta) == Some(vis[p])
        }),
{
    lemma_place_of_visible(items, hide_done, p);
    lemma_place_of_visible(items, hide_done, p + delta);
}

/// Turning the filter on and off again leaves a selection alone that the filter does not
/// concern.
pub proof fn law_filter_twice_keeps_the_selection(
    items: Seq<ItemView>,
    hide_done: bool,
    index: usize,
)
    requires
        items.len() <= usize::MAX,
        index < items.len(),
        shown(items[index as int], true),
    ensures
        kept_or_first(
            visible(items, hide_done),
            kept_or_first(visible(items, !hide_done), Some(index)),
        ) == Some(index),
{
    lemma_visible(items, true, index as int);
    lemma_visible(items, false, index as int);
}

/// After a refresh the selection is on the item that was selected when it started, if there
/// still is an item with its path and line and the filter does not leave it out.
pub proof fn law_refresh_keeps_the_place(
    items: Seq<ItemView>,
    hide_done: bool,
    path: Seq<u8>,
    line: nat,
    selected: Option<usize>,
)
    requires
        items.len() <= usize::MAX,
        find(items, path, line) matches Some(i) && shown(items[i], hide_done),
    ensures
        refreshed(items, hide_done, Some((path, line)), selected) matches Some(index) && index
            == find(items, path, line)->0 && index < items.len() && same_parts(
            items[index as int].path,
            path,
        ) && items[index as int].line == line,
{
    lemma_find(items, path, line);
    lemma_visible(items, hide_done, find(items, path, line)->0);
}

/// An item with a path and a line is found wherever it stands.
pub proof fn law_what_is_there_is_found(items: Seq<ItemView>, i: int)
    requires
        0 <= i < items.len(),
    ensures
        find(items, items[i].path, items[i].line) is Some,
{
    lemma_find(items, items[i].path, items[i].line);
    assert(same_parts(items[i].path, items[i].path));
}

/// A refresh that finds the same items changes nothing about the selection.
pub proof fn law_refresh_of_the_same_items(items: Seq<ItemView>, hide_done: bool, index: usize)
    requires
        items.len() <= usize::MAX,
        index < items.len(),
        shown(items[index as int], hide_done),
        forall|i: int, j: int|
            0 <= i < j < items.len() ==> !(same_parts(
                (#[trigger] items[i]).path,
                (#[trigger] items[j]).path,
            ) && items[i].line == items[j].line),
    ensures
        refreshed(
            items,
            hide_done,
            Some((items[index as int].path, items[index as int].line)),
            Some(index),
        ) == Some(index),
{
    let item = items[index as int];
    lemma_find(items, item.path, item.line);
    assert(same_parts(item.path, item.path));
    let i = find(items, item.path, item.line)->0;
    assert(find(items, item.path, item.line) is Some);
    assert(i == index);
    lemma_visible(items, hide_done, index as int);
}

/// Whether an item is a task that is done.
pub open spec fn done_task(item: ItemView) -> bool {
    item.kind matches KindView::Task { done, .. } && done
}

/// Whether the filter leaves an item in the list.
pub open spec fn left_in(items: Seq<ItemView>, hide_done: bool, i: int) -> bool {
    0 <= i < items.len() && !(hide_done && done_task(items[i]))
}

/// Whether `index` is the first item of the list: the filter leaves out all before it, and not
/// itself. Without an index, the filter leaves out everything.
pub open spec fn is_first_shown(
    items: Seq<ItemView>,
    hide_done: bool,
    index: Option<usize>,
) -> bool {
    match index {
        Some(f) => left_in(items, hide_done, f as int) && forall|i: int|
            i < f ==> !#[trigger] left_in(items, hide_done, i),
        None => forall|i: int| !#[trigger] left_in(items, hide_done, i),
    }
}

/// Whether `index` is the last item of the list.
pub open spec fn is_last_shown(
    items: Seq<ItemView>,
    hide_done: bool,
    index: Option<usize>,
) -> bool {
    match index {
        Some(l) => left_in(items, hide_done, l as int) && forall|i: int|
            l < i ==> !#[trigger] left_in(items, hide_done, i),
        None => forall|i: int| !#[trigger] left_in(items, hide_done, i),
    }
}

/// The list holds the index of every item but, with the filter on, those of the tasks that are
/// done; each index once, in increasing order.
pub proof fn law_the_list_is_what_the_filter_leaves(items: Seq<ItemView>, hide_done: bool)
    requires
        items.len() <= usize::MAX,
    ensures
        forall|k: int|
            0 <= k < visible(items, hide_done).len() ==> left_in(
                items,
                hide_done,
                #[trigger] visible(items, hide_done)[k] as int,
            ),
        forall|i: int| #[trigger]
            left_in(items, hide_done, i) ==> visible(items, hide_done).contains(i as usize),
        forall|j: int, k: int|
            0 <= j < k < visible(items, hide_done).len() ==> (#[trigger] visible(
                items,
                hide_done,
            )[j]) < #[trigger] visible(items, hide_done)[k],
{
    let vis = visible(items, hide_done);
    assert forall|k: int| 0 <= k < vis.len() implies left_in(
        items,
        hide_done,
        #[trigger] vis[k] as int,
    ) by {
        lemma_visible_in_range(items, hide_done, k);
        assert(vis.contains(vis[k]));
        lemma_visible(items, hide_done, vis[k] as int);
    }
    assert forall|i: int| #[trigger] left_in(items, hide_done, i) implies vis.contains(
        i as usize,
    ) by {
        lemma_visible(items, hide_done, i);
    }
    assert forall|j: int, k: int| 0 <= j < k < vis.len() implies (#[trigger] vis[j])
        < #[trigger] vis[k] by {
        lemma_visible_increases(items, hide_done, j, k);
    }
}

proof fn lemma_ends_of_the_list(items: Seq<ItemView>, hide_done: bool)
    requires
        items.len() <= usize::MAX,
    ensures
        is_first_shown(items, hide_done, first_of(visible(items, hide_done))),
        is_last_shown(items, hide_done, last_of(visible(items, hide_done))),
{
    let vis = visible(items, hide_done);
    law_the_list_is_what_the_filter_leaves(items, hide_done);
    assert forall|i: int| vis.len() == 0 || i < vis[0] || i > vis.last() implies !#[trigger] left_in(
        items,
        hide_done,
        i,
    ) by {
        if left_in(items, hide_done, i) {
            assert(vis.contains(i as usize));
            let k = choose|k: int| 0 <= k < vis.len() && vis[k] == i as usize;
            if 0 < k {
                assert(vis[0] < vis[k]);
            }
            if k < vis.len() - 1 {
                assert(vis[k] < vis[vis.len() - 1]);
            }
        }
    }
    if vis.len() > 0 {
        assert(left_in(items, hide_done, vis[0] as int));
        assert(left_in(items, hide_done, vis[vis.len() - 1] as int));
    }
}

/// The first item of the list is the first that the filter does not leave out, and the last is
/// the last.
pub proof fn law_first_and_last_are_the_ends(items: Seq<ItemView>, hide_done: bool)
    requires
        items.len() <= usize::MAX,
    ensures
        is_first_shown(items, hide_done, first_of(visible(items, hide_done))),
        is_last_shown(items, hide_done, last_of(visible(items, hide_done))),
        visible(items, hide_done).len() > 0 ==> {
            &&& first_of(visible(items, hide_done)) == Some(visible(items, hide_done)[0])
            &&& last_of(visible(items, hide_done)) == Some(
                visible(items, hide_done)[visible(items, hide_done).len() - 1],
            )
        },
{
    lemma_ends_of_the_list(items, hide_done);
}

/// The place of the selection is where it stands in the list; a selection that does not stand
/// there has none.
pub proof fn law_the_place_is_where_the_selection_stands(
    items: Seq<ItemView>,
    hide_done: bool,
    selected: Option<usize>,
    p: int,
)
    requires
        items.len() <= usize::MAX,
    ensures
        place(visible(items, hide_done), selected) == Some(p) <==> 0 <= p < visible(
            items,
            hide_done,
        ).len() && selected == Some(visible(items, hide_done)[p]),
{
    let vis = visible(items, hide_done);
    if 0 <= p < vis.len() {
        lemma_place_of_visible(items, hide_done, p);
    }
    if let Some(index) = selected {
        lemma_position(vis, index);
    }
}

/// Going on selects the item one place further, and from the last place the first; going back
/// selects the item one place before, and from the first place the last.
pub proof fn law_next_and_prev_move_by_one_place(items: Seq<ItemView>, hide_done: bool, p: int)
    requires
        items.len() <= usize::MAX,
        0 <= p < visible(items, hide_done).len(),
    ensures
        ({
            let vis = visible(items, hide_done);
            let n = vis.len() as int;
            &&& p + 1 < n ==> next_of(vis, Some(vis[p])) == Some(vis[p + 1])
            &&& p + 1 == n ==> next_of(vis, Some(vis[p])) == Some(vis[0])
            &&& p > 0 ==> prev_of(vis, Some(vis[p])) == Some(vis[p - 1])
            &&& p == 0 ==> prev_of(vis, Some(vis[p])) == Some(vis[n - 1])
        }),
{
    let vis = visible(items, hide_done);
    lemma_place_of_visible(items, hide_done, p);
    lemma_next_place(vis, vis[p], p);
}

/// A step of `delta` places ends as many places further on, or back if there is a minus; where
/// the list has no such place, at its end on that side.
pub proof fn law_a_step_ends_at_the_nearest_place(
    items: Seq<ItemView>,
    hide_done: bool,
    p: int,
    delta: int,
)
    requires
        items.len() <= usize::MAX,
        0 <= p < visible(items, hide_done).len(),
    ensures
        ({
            let vis = visible(items, hide_done);
            let n = vis.len() as int;
            &&& 0 <= p + delta < n ==> step_of(vis, Some(vis[p]), delta) == Some(vis[p + delta])
            &&& p + delta >= n ==> step_of(vis, Some(vis[p]), delta) == Some(vis[n - 1])
            &&& p + delta < 0 ==> step_of(vis, Some(vis[p]), delta) == Some(vis[0])
        }),
{
    lemma_place_of_visible(items, hide_done, p);
}

/// Where nothing in the list is selected, going on starts with the first item, going back with
/// the last, and a step counts from the first. In an empty list nothing comes to be selected.
pub proof fn law_moves_from_outside_the_list(
    vis: Seq<usize>,
    selected: Option<usize>,
    delta: int,
)
    requires
        selected matches Some(index) ==> !vis.contains(index),
    ensures
        vis.len() == 0 ==> {
            &&& next_of(vis, selected) is None
            &&& prev_of(vis, selected) is None
            &&& step_of(vis, selected, delta) is None
            &&& first_of(vis) is None
            &&& last_of(vis) is None
        },
        vis.len() > 0 ==> {
            &&& next_of(vis, selected) == Some(vis[0])
            &&& prev_of(vis, selected) == Some(vis[vis.len() - 1])
            &&& delta <= 0 ==> step_of(vis, selected, delta) == Some(vis[0])
            &&& 0 <= delta < vis.len() ==> step_of(vis, selected, delta) == Some(vis[delta])
            &&& delta >= vis.len() ==> step_of(vis, selected, delta) == Some(vis[vis.len() - 1])
        },
{
    if let Some(index) = selected {
        lemma_position(vis, index);
    }
}

/// Selecting an item leaves the list scrolled as it is, and selecting nothing scrolls to the
/// top. Nothing else of the program changes.
pub proof fn law_selecting_changes_the_selection_alone(app: App, index: Option<usize>)
    ensures
        ({
            let after = with_state(app, selecting(app.state, index));
            &&& after.state.selected == index
            &&& index is Some ==> after.state.offset == app.state.offset
            &&& index is None ==> after.state.offset == 0
            &&& after.items == app.items
            &&& after.status == app.status
            &&& after.hide_done == app.hide_done
            &&& after.refreshing == app.refreshing
            &&& after.pending_anchor == app.pending_anchor
        }),
        forall|state: ListState| (#[trigger] with_state(app, state)).state == state,
{
}

/// Turning the filter over keeps the selection if the item is in the new list, and selects the
/// first item of the new list if it is not. Nothing else changes.
pub proof fn law_the_filter_keeps_what_stays_in_the_list(before: App, after: App)
    requires
        toggles(before, after),
    ensures
        after.hide_done != before.hide_done,
        after.items == before.items,
        after.status == before.status,
        after.refreshing == before.refreshing,
        after.pending_anchor == before.pending_anchor,
        match before.state.selected {
            Some(i) => if left_in(before.views(), after.hide_done, i as int) {
                after.state == before.state
            } else {
                is_first_shown(before.views(), after.hide_done, after.state.selected)
            },
            None => is_first_shown(before.views(), after.hide_done, after.state.selected),
        },
        after.state.selected is Some ==> after.state.offset == before.state.offset,
        after.state.selected is None ==> after.state.offset == 0,
{
    let items = before.views();
    assert(items.len() == before.items.len());
    lemma_ends_of_the_list(items, after.hide_done);
    if let Some(i) = before.state.selected {
        lemma_visible(items, after.hide_done, i as int);
    }
}

/// What is found is the first item with the path, part for part, and the line.
pub proof fn law_find_gives_the_first(items: Seq<ItemView>, path: Seq<u8>, line: nat, i: int)
    ensures
        find(items, path, line) == Some(i) <==> {
            &&& 0 <= i < items.len()
            &&& path_parts(items[i].path) == path_parts(path)
            &&& items[i].line == line
            &&& forall|j: int|
                0 <= j < i ==> !(path_parts((#[trigger] items[j]).path) == path_parts(path)
                    && items[j].line == line)
        },
{
    lemma_find(items, path, line);
    lemma_nothing_found_before(items, path, line);
    if let Some(k) = find(items, path, line) {
        if 0 <= i < k {
            assert(!(same_parts(items[i].path, path) && items[i].line == line));
        }
        if k < i < items.len() {
            assert(path_parts(items[k].path) == path_parts(path) && items[k].line == line);
        }
    } else if 0 <= i < items.len() {
        assert(!(same_parts(items[i].path, path) && items[i].line == line));
    }
}

proof fn lemma_nothing_found_before(items: Seq<ItemView>, path: Seq<u8>, line: nat)
    ensures
        find(items, path, line) matches Some(k) ==> forall|j: int|
            0 <= j < k ==> !(same_parts((#[trigger] items[j]).path, path) && items[j].line
                == line),
    decreases items.len(),
{
    if items.len() > 0 {
        let shorter = items.drop_last();
        lemma_nothing_found_before(shorter, path, line);
        lemma_find(shorter, path, line);
        if let Some(k) = find(items, path, line) {
            assert forall|j: int| 0 <= j < k implies !(same_parts((#[trigger] items[j]).path, path)
                && items[j].line == line) by {
                assert(shorter[j] == items[j]);
            }
        }
    }
}

/// After a refresh the first new item with the path and the line of the anchor is selected; where
/// the filter leaves it out, the first item of the list.
pub proof fn law_refresh_goes_to_the_anchor(
    items: Seq<ItemView>,
    hide_done: bool,
    path: Seq<u8>,
    line: nat,
    selected: Option<usize>,
    i: int,
)
    requires
        items.len() <= usize::MAX,
        0 <= i < items.len(),
        path_parts(items[i].path) == path_parts(path),
        items[i].line == line,
        forall|j: int|
            0 <= j < i ==> !(path_parts((#[trigger] items[j]).path) == path_parts(path)
                && items[j].line == line),
    ensures
        left_in(items, hide_done, i) ==> refreshed(items, hide_done, Some((path, line)), selected)
            == Some(i as usize),
        !left_in(items, hide_done, i) ==> is_first_shown(
            items,
            hide_done,
            refreshed(items, hide_done, Some((path, line)), selected),
        ),
{
    law_find_gives_the_first(items, path, line, i);
    lemma_visible(items, hide_done, i);
    lemma_ends_of_the_list(items, hide_done);
}

/// Where no new item has the path and the line of the anchor, or there is no anchor, the old
/// index stays selected, or the last one where there are fewer items now; without an old index
/// it is the first. Where the filter leaves that item out, the first item of the list is
/// selected.
pub proof fn law_refresh_keeps_the_index(
    items: Seq<ItemView>,
    hide_done: bool,
    anchor: Option<(Seq<u8>, nat)>,
    selected: Option<usize>,
    k: int,
)
    requires
        items.len() <= usize::MAX,
        anchor matches Some(at) ==> forall|j: int|
            0 <= j < items.len() ==> !(path_parts((#[trigger] items[j]).path) == path_parts(at.0)
                && items[j].line == at.1),
        0 <= k < items.len(),
        match selected {
            Some(old) => k == old || (old >= items.len() && k == items.len() - 1),
            None => k == 0,
        },
    ensures
        left_in(items, hide_done, k) ==> refreshed(items, hide_done, anchor, selected) == Some(
            k as usize,
        ),
        !left_in(items, hide_done, k) ==> is_first_shown(
            items,
            hide_done,
            refreshed(items, hide_done, anchor, selected),
        ),
{
    if let Some(at) = anchor {
        lemma_find(items, at.0, at.1);
        if let Some(i) = find(items, at.0, at.1) {
            assert(path_parts(items[i].path) == path_parts(at.0));
        }
    }
    lemma_ends_of_the_list(items, hide_done);
    lemma_visible(items, hide_done, k);
}

/// A refresh that finds no items selects none.
pub proof fn law_refresh_without_items(
    hide_done: bool,
    anchor: Option<(Seq<u8>, nat)>,
    selected: Option<usize>,
)
    ensures
        refreshed(Seq::empty(), hide_done, anchor, selected) is None,
{
    if let Some(at) = anchor {
        lemma_find(Seq::empty(), at.0, at.1);
    }
}

/// A refresh starts unless one is running. It notes path and line of the selected item, whatever
/// kind it is of, and changes nothing else that is shown.
pub proof fn law_a_refresh_notes_the_selected_item(before: App, after: App, start: bool)
    requires
        starts_refresh(before, after, start),
    ensures
        start == !before.refreshing,
        before.refreshing ==> after == before,
        after.refreshing,
        after.items == before.items,
        after.state == before.state,
        after.status == before.status,
        after.hide_done == before.hide_done,
        !before.refreshing ==> match before.state.selected {
            Some(i) => if i < before.items@.len() {
                after.pending_anchor matches Some(at) && at.0@ == before.items@[i as int].path@
                    && at.1 == before.items@[i as int].line
            } else {
                after.pending_anchor is None
            },
            None => after.pending_anchor is None,
        },
{
    assert(before.views().len() == before.items@.len());
}

/// At the start all items are there, the first of them is selected if there is one, and there is
/// no filter, no error and no scan.
pub proof fn law_how_the_program_starts(items: Vec<Item>, app: App)
    requires
        call_ensures(App::new, (items,), app),
    ensures
        app.items == items,
        items@.len() > 0 ==> app.state.selected == Some(0usize),
        items@.len() == 0 ==> app.state.selected is None,
        app.state.offset == 0,
        app.status is None,
        !app.hide_done,
        !app.refreshing,
        app.pending_anchor is None,
{
}

/// The selected item is the one at the selected index, if there is one there.
pub proof fn law_the_selected_item_is_at_its_index(app: App, item: Option<&Item>)
    requires
        call_ensures(App::selected, (&app,), item),
    ensures
        item is Some <==> app.state.selected is Some && app.state.selected->0 < app.items@.len(),
        item is Some ==> *item->0 == app.items@[app.state.selected->0 as int],
{
}

/// The place of an index is the first at which it stands.
pub proof fn law_positions_are_the_first(vis: Seq<usize>, index: usize, p: int)
    ensures
        position(vis, index) == Some(p) <==> 0 <= p < vis.len() && vis[p] == index && forall|q: int|
            0 <= q < p ==> #[trigger] vis[q] != index,
    decreases vis.len(),
{
    if vis.len() > 0 {
        let before = vis.drop_last();
        law_positions_are_the_first(before, index, p);
        lemma_position(before, index);
        if p == vis.len() - 1 && position(before, index) is None {
            assert forall|q: int| 0 <= q < p implies #[trigger] vis[q] != index by {
                assert(before[q] == vis[q]);
                assert(!before.contains(index));
            }
        }
        if 0 <= p < before.len() {
            assert(before[p] == vis[p]);
            assert(forall|q: int| 0 <= q < p ==> before[q] == vis[q]);
        }
        if let Some(k) = position(before, index) {
            law_positions_are_the_first(before, index, k);
            assert(vis[k] == index);
        }
    }
}

/// An anchor is its path and its line.
pub proof fn law_anchors_are_what_they_hold(anchor: (Vec<u8>, usize))
    ensures
        anchor_view(Some(anchor)) == Some((anchor.0@, anchor.1 as nat)),
        anchor_view(None) is None,
{
}

/// What is learned of a scan ends the refresh, unless it is that the scan is still running. New
/// items take the place of the old ones and clear the error. Without new items the old ones
/// stay, with the selection, and the error is shown. Without a refresh nothing changes.
pub proof fn law_what_a_scan_comes_to(before: App, after: App, outcome: ScanOutcome)
    requires
        takes_in(before, after, outcome),
    ensures
        !before.refreshing ==> after == before,
        outcome is Pending ==> after == before,
        after.hide_done == before.hide_done,
        before.refreshing && outcome !is Pending ==> !after.refreshing && after.pending_anchor
            is None,
        before.refreshing ==> match outcome {
            ScanOutcome::Finished(Ok(items)) => after.items == items && after.status is None,
            ScanOutcome::Finished(Err(e)) => {
                &&& after.items == before.items
                &&& after.state == before.state
                &&& after.status is Some
                &&& after.status->0@ == "刷新失败: "@ + e@
            },
            ScanOutcome::Disconnected => {
                &&& after.items == before.items
                &&& after.state == before.state
                &&& after.status is Some
                &&& after.status->0@ == "刷新线程意外退出"@
            },
            ScanOutcome::Pending => true,
        },
{
}

/// From the start of a refresh to its end: the item that was selected when it started is selected
/// when it ends, wherever it stands now, whatever was selected in between.
pub proof fn law_a_refresh_brings_the_selection_back(
    start: App,
    running: App,
    end: App,
    items: Vec<Item>,
    s: usize,
    i: int,
)
    requires
        !start.refreshing,
        s < start.items@.len(),
        start.state.selected == Some(s),
        exists|noted: App| #[trigger]
            starts_refresh(start, noted, true) && noted.pending_anchor == running.pending_anchor,
        running.refreshing,
        takes_in(running, end, ScanOutcome::Finished(Ok(items))),
        0 <= i < items@.len(),
        path_parts(items@[i].path@) == path_parts(start.items@[s as int].path@),
        items@[i].line == start.items@[s as int].line,
        forall|j: int|
            0 <= j < i ==> !(path_parts((#[trigger] items@[j]).path@) == path_parts(
                start.items@[s as int].path@,
            ) && items@[j].line == start.items@[s as int].line),
    ensures
        end.items == items,
        left_in(item_views(items@), running.hide_done, i) ==> end.state.selected == Some(
            i as usize,
        ) && end.state.offset == running.state.offset,
        !left_in(item_views(items@), running.hide_done, i) ==> is_first_shown(
            item_views(items@),
            running.hide_done,
            end.state.selected,
        ),
{
    let noted = choose|noted: App| #[trigger]
        starts_refresh(start, noted, true) && noted.pending_anchor == running.pending_anchor;
    law_a_refresh_notes_the_selected_item(start, noted, true);
    let views = item_views(items@);
    let path = start.items@[s as int].path@;
    let line = start.items@[s as int].line as nat;
    assert(views.len() == items.len());
    assert forall|j: int| 0 <= j < i implies !(path_parts((#[trigger] views[j]).path) == path_parts(
        path,
    ) && views[j].line == line) by {
        assert(views[j] == items@[j]@);
    }
    assert(views[i] == items@[i]@);
    assert(anchor_view(running.pending_anchor) == Some((path, line)));
    law_refresh_goes_to_the_anchor(
        views,
        running.hide_done,
        path,
        line,
        running.state.selected,
        i,
    );
}

} // verus!
