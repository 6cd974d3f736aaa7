//! The state of the program: the items, the selection, the filter, and the refresh that may
//! be running.
use vstd::prelude::*;
use vstd::string::StringExecFns;

use crate::item::{copy_bytes, Item, ItemKind};
#[allow(unused_imports)]
use crate::item::{item_views, ItemView, KindView};
use crate::list::ListState;
#[allow(unused_imports)]
use crate::list::selecting;
use crate::order::same_path;
#[allow(unused_imports)]
use crate::path::same_parts;

verus! {

/// What the list is browsed with.
pub struct App {
    pub items: Vec<Item>,
    /// The selection is an index into `items`.
    pub state: ListState,
    /// An error to show. Where all goes well there is none.
    pub status: Option<String>,
    /// Whether tasks that are done are left out of the list.
    pub hide_done: bool,
    /// Whether a scan is running in the background.
    pub refreshing: bool,
    /// Path and line of the item that was selected when the scan started, which is selected
    /// again when it ends.
    pub pending_anchor: Option<(Vec<u8>, usize)>,
}

/// What can be learned of a scan that runs in the background.
pub enum ScanOutcome {
    /// It came to an end, with the items or an error.
    Finished(Result<Vec<Item>, String>),
    /// It is still running.
    Pending,
    /// It broke off without a word.
    Disconnected,
}

/// Whether an item is in the list: the filter leaves out tasks that are done, and nothing else.
pub open spec fn shown(item: ItemView, hide_done: bool) -> bool {
    !(hide_done && (item.kind matches KindView::Task { done, .. } && done))
}

/// The indices of the items that are in the list, in order.
pub open spec fn visible(items: Seq<ItemView>, hide_done: bool) -> Seq<usize>
    decreases items.len(),
{
    if items.len() == 0 {
        Seq::empty()
    } else {
        let before = visible(items.drop_last(), hide_done);
        if shown(items.last(), hide_done) {
            before.push((items.len() - 1) as usize)
        } else {
            before
        }
    }
}

/// The first place of an index in the list of visible ones.
pub open spec fn position(vis: Seq<usize>, index: usize) -> Option<int>
    decreases vis.len(),
{
    if vis.len() == 0 {
        None
    } else {
        match position(vis.drop_last(), index) {
            Some(p) => Some(p),
            None => if vis.last() == index {
                Some(vis.len() - 1)
            } else {
                None
            },
        }
    }
}

/// The place of the selection in the list of visible ones, if it is there.
pub open spec fn place(vis: Seq<usize>, selected: Option<usize>) -> Option<int> {
    match selected {
        Some(index) => position(vis, index),
        None => None,
    }
}

/// The first visible index.
pub open spec fn first_of(vis: Seq<usize>) -> Option<usize> {
    if vis.len() == 0 {
        None
    } else {
        Some(vis[0])
    }
}

/// The last visible index.
pub open spec fn last_of(vis: Seq<usize>) -> Option<usize> {
    if vis.len() == 0 {
        None
    } else {
        Some(vis.last())
    }
}

/// The visible index after the selection; after the last comes the first. Where the
/// selection is not visible, the first.
pub open spec fn next_of(vis: Seq<usize>, selected: Option<usize>) -> Option<usize> {
    if vis.len() == 0 {
        None
    } else {
        match place(vis, selected) {
            Some(p) => Some(vis[(p + 1) % vis.len() as int]),
            None => Some(vis[0]),
        }
    }
}

/// The visible index before the selection; before the first comes the last. Where the
/// selection is not visible, the last.
pub open spec fn prev_of(vis: Seq<usize>, selected: Option<usize>) -> Option<usize> {
    if vis.len() == 0 {
        None
    } else {
        match place(vis, selected) {
            Some(p) => if p == 0 {
                Some(vis.last())
            } else {
                Some(vis[p - 1])
            },
            None => Some(vis.last()),
        }
    }
}

/// A number, or the nearest to it from `low` to `high`.
pub open spec fn clamp(n: int, low: int, high: int) -> int {
    if n < low {
        low
    } else if n > high {
        high
    } else {
        n
    }
}

/// The visible index `delta` places from the selection, or the first or last one where
/// there are fewer. Where the selection is not visible, the places count from the first.
pub open spec fn step_of(vis: Seq<usize>, selected: Option<usize>, delta: int) -> Option<usize> {
    if vis.len() == 0 {
        None
    } else {
        let from = match place(vis, selected) {
            Some(p) => p,
            None => 0,
        };
        Some(vis[clamp(from + delta, 0, vis.len() - 1)])
    }
}

/// The selection, if it is visible; else the first visible index.
pub open spec fn kept_or_first(vis: Seq<usize>, selected: Option<usize>) -> Option<usize> {
    if selected is Some && vis.contains(selected->0) {
        selected
    } else {
        first_of(vis)
    }
}

/// The first item with this path and this line.
pub open spec fn find(items: Seq<ItemView>, path: Seq<u8>, line: nat) -> Option<int>
    decreases items.len(),
{
    if items.len() == 0 {
        None
    } else {
        match find(items.drop_last(), path, line) {
            Some(i) => Some(i),
            None => if same_parts(items.last().path, path) && items.last().line == line {
                Some(items.len() - 1)
            } else {
                None
            },
        }
    }
}

/// The index to select among new items: that of the anchor, if it is among them; else the
/// old index, or the last one where there are fewer items.
pub open spec fn restored(
    items: Seq<ItemView>,
    anchor: Option<(Seq<u8>, nat)>,
    selected: Option<usize>,
) -> Option<usize> {
    let found = match anchor {
        Some((path, line)) => find(items, path, line),
        None => None,
    };
    match found {
        Some(i) => Some(i as usize),
        None => if items.len() == 0 {
            None
        } else {
            let from = match selected {
                Some(i) => i as int,
                None => 0,
            };
            Some(clamp(from, 0, items.len() - 1) as usize)
        },
    }
}

/// The selection among new items: the index to select, or the first visible one where the
/// filter leaves that out.
pub open spec fn refreshed(
    items: Seq<ItemView>,
    hide_done: bool,
    anchor: Option<(Seq<u8>, nat)>,
    selected: Option<usize>,
) -> Option<usize> {
    match restored(items, anchor, selected) {
        Some(index) => kept_or_first(visible(items, hide_done), Some(index)),
        None => None,
    }
}

/// Path and line as sequences and numbers.
pub open spec fn anchor_view(anchor: Option<(Vec<u8>, usize)>) -> Option<(Seq<u8>, nat)> {
    match anchor {
        Some((path, line)) => Some((path@, line as nat)),
        None => None,
    }
}

/// The same program with another selection.
pub open spec fn with_state(app: App, state: ListState) -> App {
    App {
        items: app.items,
        state,
        status: app.status,
        hide_done: app.hide_done,
        refreshing: app.refreshing,
        pending_anchor: app.pending_anchor,
    }
}

/// What turning the filter on or off does.
pub open spec fn toggles(before: App, after: App) -> bool {
    let vis = visible(before.views(), !before.hide_done);
    &&& after.items == before.items
    &&& after.hide_done == !before.hide_done
    &&& after.state == selecting(before.state, kept_or_first(vis, before.state.selected))
    &&& after.status == before.status
    &&& after.refreshing == before.refreshing
    &&& after.pending_anchor == before.pending_anchor
}

/// Path and line of the selected item.
pub open spec fn selected_anchor(app: App) -> Option<(Seq<u8>, nat)> {
    match app.state.selected {
        Some(index) => if index < app.views().len() {
            Some((app.views()[index as int].path, app.views()[index as int].line))
        } else {
            None
        },
        None => None,
    }
}

/// What the start of a scan does, and whether one is to be started.
pub open spec fn starts_refresh(before: App, after: App, start: bool) -> bool {
    &&& start == !before.refreshing
    &&& !start ==> after == before
    &&& start ==> {
        &&& after.items == before.items
        &&& after.state == before.state
        &&& after.status == before.status
        &&& after.hide_done == before.hide_done
        &&& after.refreshing
        &&& anchor_view(after.pending_anchor) == selected_anchor(before)
    }
}

/// What is done with what is learned of a scan.
pub open spec fn takes_in(before: App, after: App, outcome: ScanOutcome) -> bool {
    if !before.refreshing || outcome is Pending {
        after == before
    } else {
        &&& after.hide_done == before.hide_done
        &&& !after.refreshing
        &&& after.pending_anchor is None
        &&& match outcome {
            ScanOutcome::Finished(Ok(items)) => {
                let selected = refreshed(
                    item_views(items@),
                    before.hide_done,
                    anchor_view(before.pending_anchor),
                    before.state.selected,
                );
                &&& after.items == items
                &&& after.state == selecting(before.state, selected)
                &&& after.status is None
            },
            ScanOutcome::Finished(Err(e)) => {
                &&& after.items == before.items
                &&& after.state == before.state
                &&& after.status matches Some(text) && text@ == "刷新失败: "@ + e@
            },
            _ => {
                &&& after.items == before.items
                &&& after.state == before.state
                &&& after.status matches Some(text) && text@ == "刷新线程意外退出"@
            },
        }
    }
}

proof fn lemma_visible_bound(items: Seq<ItemView>, hide_done: bool)
    ensures
        visible(items, hide_done).len() <= items.len(),
    decreases items.len(),
{
    if items.len() > 0 {
        lemma_visible_bound(items.drop_last(), hide_done);
    }
}

/// The visible indices are those of the items shown.
pub proof fn lemma_visible(items: Seq<ItemView>, hide_done: bool, i: int)
    requires
        items.len() <= usize::MAX,
    ensures
        visible(items, hide_done).contains(i as usize) && 0 <= i <= usize::MAX <==> 0 <= i
            < items.len() && shown(items[i], hide_done),
    decreases items.len(),
{
    let vis = visible(items, hide_done);
    if items.len() > 0 {
        let last = items.len() - 1;
        let before = visible(items.drop_last(), hide_done);
        lemma_visible(items.drop_last(), hide_done, i);
        if 0 <= i < last {
            assert(items.drop_last()[i] == items[i]);
        }
        if shown(items.last(), hide_done) {
            assert(vis == before.push(last as usize));
            assert(vis[before.len() as int] == last as usize);
            if before.contains(i as usize) {
                let k = choose|k: int| 0 <= k < before.len() && before[k] == i as usize;
                assert(vis[k] == i as usize);
            }
            if vis.contains(i as usize) && 0 <= i <= usize::MAX {
                let k = choose|k: int| 0 <= k < vis.len() && vis[k] == i as usize;
                if k < before.len() {
                    assert(before[k] == i as usize);
                }
            }
        }
    }
}

/// The visible indices increase.
pub proof fn lemma_visible_increases(items: Seq<ItemView>, hide_done: bool, j: int, k: int)
    requires
        items.len() <= usize::MAX,
        0 <= j < k < visible(items, hide_done).len(),
    ensures
        visible(items, hide_done)[j] < visible(items, hide_done)[k],
    decreases items.len(),
{
    let before = visible(items.drop_last(), hide_done);
    if k < before.len() {
        lemma_visible_increases(items.drop_last(), hide_done, j, k);
    } else {
        lemma_visible_in_range(items.drop_last(), hide_done, j);
    }
}

pub proof fn lemma_visible_in_range(items: Seq<ItemView>, hide_done: bool, k: int)
    requires
        items.len() <= usize::MAX,
        0 <= k < visible(items, hide_done).len(),
    ensures
        visible(items, hide_done)[k] < items.len(),
{
    let vis = visible(items, hide_done);
    assert(vis.contains(vis[k]));
    lemma_visible(items, hide_done, vis[k] as int);
}

/// A place in a list is where the index stands, and every index that stands there has one.
pub proof fn lemma_position(vis: Seq<usize>, index: usize)
    ensures
        position(vis, index) matches Some(p) ==> 0 <= p < vis.len() && vis[p] == index,
        position(vis, index) is Some <==> vis.contains(index),
    decreases vis.len(),
{
    if vis.len() > 0 {
        let before = vis.drop_last();
        lemma_position(before, index);
        if before.contains(index) {
            let k = choose|k: int| 0 <= k < before.len() && before[k] == index;
            assert(vis[k] == index);
        }
        if vis.contains(index) {
            let k = choose|k: int| 0 <= k < vis.len() && vis[k] == index;
            if k < before.len() {
                assert(before[k] == index);
            }
        }
        if vis.last() == index {
            assert(vis[vis.len() - 1] == index);
        }
    }
}

/// An item that is found is in the list, and has the path and the line.
pub proof fn lemma_find(items: Seq<ItemView>, path: Seq<u8>, line: nat)
    ensures
        find(items, path, line) matches Some(i) ==> 0 <= i < items.len() && same_parts(
            items[i].path,
            path,
        ) && items[i].line == line,
        find(items, path, line) is None ==> forall|i: int|
            0 <= i < items.len() ==> !(same_parts((#[trigger] items[i]).path, path)
                && items[i].line == line),
    decreases items.len(),
{
    if items.len() > 0 {
        lemma_find(items.drop_last(), path, line);
        if find(items, path, line) is None {
            assert forall|i: int| 0 <= i < items.len() implies !(same_parts(
                (#[trigger] items[i]).path,
                path,
            ) && items[i].line == line) by {
                if i < items.len() - 1 {
                    assert(items.drop_last()[i] == items[i]);
                }
            }
        }
    }
}

/// The place of an index in a list.
pub fn position_of(vis: &Vec<usize>, index: usize) -> (p: Option<usize>)
    ensures
        position(vis@, index) == match p {
            Some(k) => Some(k as int),
            None => None,
        },
        p matches Some(k) ==> k < vis@.len(),
{
    let mut k: usize = 0;
    while k < vis.len()
        invariant
            k <= vis@.len(),
            position(vis@.take(k as int), index) is None,
        decreases vis.len() - k,
    {
        assert(vis@.take(k + 1).drop_last() == vis@.take(k as int));
        if vis[k] == index {
            proof {
                lemma_first_place_stays(vis@, index, k + 1);
            }
            return Some(k);
        }
        k += 1;
    }
    assert(vis@.take(vis@.len() as int) == vis@);
    None
}

proof fn lemma_first_place_stays(vis: Seq<usize>, index: usize, n: int)
    requires
        0 <= n <= vis.len(),
        position(vis.take(n), index) is Some,
    ensures
        position(vis, index) == position(vis.take(n), index),
    decreases vis.len(),
{
    if n < vis.len() {
        assert(vis.drop_last().take(n) == vis.take(n));
        lemma_first_place_stays(vis.drop_last(), index, n);
    } else {
        assert(vis.take(n) == vis);
    }
}

proof fn lemma_first_found_stays(items: Seq<ItemView>, path: Seq<u8>, line: nat, n: int)
    requires
        0 <= n <= items.len(),
        find(items.take(n), path, line) is Some,
    ensures
        find(items, path, line) == find(items.take(n), path, line),
    decreases items.len(),
{
    if n < items.len() {
        assert(items.drop_last().take(n) == items.take(n));
        lemma_first_found_stays(items.drop_last(), path, line, n);
    } else {
        assert(items.take(n) == items);
    }
}

/// The index of the first item with this path and this line.
pub fn find_item(items: &Vec<Item>, path: &[u8], line: usize) -> (found: Option<usize>)
    ensures
        find(item_views(items@), path@, line as nat) == match found {
            Some(i) => Some(i as int),
            None => None,
        },
        found matches Some(i) ==> i < items@.len(),
{
    let ghost views = item_views(items@);
    let mut i: usize = 0;
    while i < items.len()
        invariant
            views == item_views(items@),
            i <= items@.len(),
            find(views.take(i as int), path@, line as nat) is None,
        decreases items.len() - i,
    {
        assert(views.take(i + 1).drop_last() == views.take(i as int));
        assert(views.take(i + 1).last() == items@[i as int]@);
        if items[i].line == line && same_path(items[i].path.as_slice(), path) {
            proof {
                lemma_first_found_stays(views, path@, line as nat, i + 1);
            }
            return Some(i);
        }
        i += 1;
    }
    assert(views.take(views.len() as int) == views);
    None
}

/// The first of some indices.
fn first_index(vis: &Vec<usize>) -> (index: Option<usize>)
    ensures
        index == first_of(vis@),
{
    if vis.len() == 0 {
        None
    } else {
        Some(vis[0])
    }
}

/// The last of some indices.
fn last_index(vis: &Vec<usize>) -> (index: Option<usize>)
    ensures
        index == last_of(vis@),
{
    if vis.len() == 0 {
        None
    } else {
        Some(vis[vis.len() - 1])
    }
}

impl App {
    /// What the items are.
    pub open spec fn views(&self) -> Seq<ItemView> {
        item_views(self.items@)
    }

    /// The indices of the items in the list.
    pub open spec fn visible(&self) -> Seq<usize> {
        visible(self.views(), self.hide_done)
    }

    /// What holds of the program at all times: an item of the list is selected whenever
    /// there is one, and nothing else ever is; an anchor is kept only while a scan is running.
    pub open spec fn wf(&self) -> bool {
        &&& match self.state.selected {
            Some(index) => self.visible().contains(index),
            None => self.visible().len() == 0,
        }
        &&& self.pending_anchor is Some ==> self.refreshing
    }

    /// The program at its start: everything is in the list, and the first item is selected.
    pub fn new(items: Vec<Item>) -> (app: App)
        ensures
            app.items == items,
            app.state == (ListState {
                selected: if items@.len() == 0 {
                    None
                } else {
                    Some(0)
                },
                offset: 0,
            }),
            app.status is None,
            !app.hide_done,
            !app.refreshing,
            app.pending_anchor is None,
            app.wf(),
    {
        let mut state = ListState::new();
        if items.len() > 0 {
            state.select(Some(0));
        }
        proof {
            if items@.len() > 0 {
                lemma_visible(item_views(items@), false, 0);
            }
        }
        App {
            items,
            state,
            status: None,
            hide_done: false,
            refreshing: false,
            pending_anchor: None,
        }
    }

    /// The indices of the items in the list.
    pub fn visible_indices(&self) -> (vis: Vec<usize>)
        ensures
            vis@ == self.visible(),
    {
        let ghost views = self.views();
        let mut vis: Vec<usize> = Vec::new();
        let mut i: usize = 0;
        while i < self.items.len()
            invariant
                views == item_views(self.items@),
                i <= self.items@.len(),
                vis@ == visible(views.take(i as int), self.hide_done),
            decreases self.items.len() - i,
        {
            assert(views.take(i + 1).drop_last() == views.take(i as int));
            assert(views.take(i + 1).last() == self.items@[i as int]@);
            let left_out = self.hide_done && (match &self.items[i].kind {
                ItemKind::Task { done, .. } => *done,
                ItemKind::Heading(_, _) => false,
            });
            if !left_out {
                vis.push(i);
            }
            i += 1;
        }
        assert(views.take(views.len() as int) == views);
        vis
    }

    /// The selected item.
    pub fn selected(&self) -> (item: Option<&Item>)
        ensures
            item == match self.state.selected {
                Some(index) => if index < self.items@.len() {
                    Some(&self.items@[index as int])
                } else {
                    None
                },
                None => None,
            },
    {
        match self.state.selected {
            Some(index) => if index < self.items.len() {
                Some(&self.items[index])
            } else {
                None
            },
            None => None,
        }
    }

    /// The place of the selection in the list.
    fn selected_place(&self, vis: &Vec<usize>) -> (p: Option<usize>)
        ensures
            place(vis@, self.state.selected) == match p {
                Some(k) => Some(k as int),
                None => None,
            },
            p matches Some(k) ==> k < vis@.len(),
    {
        match self.state.selected {
            Some(index) => position_of(vis, index),
            None => None,
        }
    }

    /// Notes how far the list is scrolled, so that the next drawing goes on from there.
    pub fn scrolled(&mut self, offset: usize)
        ensures
            *final(self) == with_state(
                *old(self),
                (ListState { selected: old(self).state.selected, offset }),
            ),
            old(self).wf() ==> final(self).wf(),
    {
        self.state.offset = offset;
    }

    /// Selects the next item of the list; after the last comes the first.
    pub fn next(&mut self)
        ensures
            *final(self) == with_state(
                *old(self),
                selecting(old(self).state, next_of(old(self).visible(), old(self).state.selected)),
            ),
            old(self).wf() ==> final(self).wf(),
    {
        let vis = self.visible_indices();
        if vis.len() == 0 {
            self.state.select(None);
            return;
        }
        let p: usize = match self.selected_place(&vis) {
            Some(k) => if k + 1 == vis.len() {
                0
            } else {
                k + 1
            },
            None => 0,
        };
        proof {
            if let Some(k) = place(vis@, self.state.selected) {
                if k + 1 < vis@.len() {
                    vstd::arithmetic::div_mod::lemma_small_mod((k + 1) as nat, vis@.len());
                } else {
                    vstd::arithmetic::div_mod::lemma_mod_self_0(vis@.len() as int);
                }
            }
            assert(vis@.contains(vis@[p as int]));
        }
        self.state.select(Some(vis[p]));
    }

    /// Selects the previous item of the list; before the first comes the last.
    pub fn prev(&mut self)
        ensures
            *final(self) == with_state(
                *old(self),
                selecting(old(self).state, prev_of(old(self).visible(), old(self).state.selected)),
            ),
            old(self).wf() ==> final(self).wf(),
    {
        let vis = self.visible_indices();
        if vis.len() == 0 {
            self.state.select(None);
            return;
        }
        let p: usize = match self.selected_place(&vis) {
            Some(k) => if k == 0 {
                vis.len() - 1
            } else {
                k - 1
            },
            None => vis.len() - 1,
        };
        assert(vis@.contains(vis@[p as int]));
        self.state.select(Some(vis[p]));
    }

    /// Selects the first item of the list.
    pub fn first(&mut self)
        ensures
            *final(self) == with_state(
                *old(self),
                selecting(old(self).state, first_of(old(self).visible())),
            ),
            old(self).wf() ==> final(self).wf(),
    {
        let vis = self.visible_indices();
        assert(vis@.len() > 0 ==> vis@.contains(vis@[0]));
        self.state.select(first_index(&vis));
    }

    /// Selects the last item of the list.
    pub fn last(&mut self)
        ensures
            *final(self) == with_state(
                *old(self),
                selecting(old(self).state, last_of(old(self).visible())),
            ),
            old(self).wf() ==> final(self).wf(),
    {
        let vis = self.visible_indices();
        assert(vis@.len() > 0 ==> vis@.contains(vis@[vis@.len() - 1]));
        self.state.select(last_index(&vis));
    }

    /// Moves the selection by `delta` items of the list, and stops at its ends.
    pub fn step(&mut self, delta: isize)
        ensures
            *final(self) == with_state(
                *old(self),
                selecting(
                    old(self).state,
                    step_of(old(self).visible(), old(self).state.selected, delta as int),
                ),
            ),
            old(self).wf() ==> final(self).wf(),
    {
        let vis = self.visible_indices();
        if vis.len() == 0 {
            self.state.select(None);
            return;
        }
        let from: usize = match self.selected_place(&vis) {
            Some(k) => k,
            None => 0,
        };
        let last: usize = vis.len() - 1;
        let p: usize = if delta >= 0 {
            let ahead: usize = delta as usize;
            if ahead > last - from {
                last
            } else {
                from + ahead
            }
        } else {
            // One more than `delta`, so that the smallest number has an opposite.
            let back: usize = (-(delta + 1)) as usize;
            if back >= from {
                0
            } else {
                from - back - 1
            }
        };
        assert(p == clamp(from + delta, 0, vis@.len() - 1));
        assert(vis@.contains(vis@[p as int]));
        self.state.select(Some(vis[p]));
    }

    /// Leaves the tasks that are done out of the list, or takes them in again. The selection
    /// stays where it is visible, and goes to the first item of the list where it is not.
    pub fn toggle_hide_done(&mut self)
        ensures
            toggles(*old(self), *final(self)),
            old(self).wf() ==> final(self).wf(),
    {
        self.hide_done = !self.hide_done;
        let vis = self.visible_indices();
        let still_visible = self.selected_place(&vis).is_some();
        proof {
            if let Some(index) = self.state.selected {
                lemma_position(vis@, index);
            }
            assert(vis@.len() > 0 ==> vis@.contains(vis@[0]));
        }
        if !still_visible {
            self.state.select(first_index(&vis));
        }
    }

    /// Whether a scan is running in the background.
    pub fn is_refreshing(&self) -> (b: bool)
        ensures
            b == self.refreshing,
    {
        self.refreshing
    }

    /// Notes that a scan starts, and where the selection is. Says whether one is to be
    /// started: while one is running, nothing happens.
    pub fn start_refresh(&mut self) -> (start: bool)
        ensures
            starts_refresh(*old(self), *final(self), start),
            old(self).wf() ==> final(self).wf(),
    {
        if self.refreshing {
            return false;
        }
        self.refreshing = true;
        self.pending_anchor = match self.selected() {
            Some(item) => Some((copy_bytes(item.path.as_slice()), item.line)),
            None => None,
        };
        true
    }

    /// The index to select among the new items in `self.items`.
    fn restored_index(&self, from: Option<usize>) -> (index: Option<usize>)
        ensures
            index == restored(self.views(), anchor_view(self.pending_anchor), from),
            index matches Some(i) ==> i < self.items@.len(),
            index is None <==> self.items@.len() == 0,
    {
        let found = match &self.pending_anchor {
            Some(anchor) => find_item(&self.items, anchor.0.as_slice(), anchor.1),
            None => None,
        };
        match found {
            Some(i) => Some(i),
            None => if self.items.len() == 0 {
                None
            } else {
                let old_index: usize = match from {
                    Some(i) => i,
                    None => 0,
                };
                let last: usize = self.items.len() - 1;
                Some(
                    if old_index < last {
                        old_index
                    } else {
                        last
                    },
                )
            },
        }
    }

    /// Takes in what is learned of the running scan; without a running scan nothing happens.
    /// New items replace the old ones, and the item that was selected when the scan started
    /// is selected again. An error is shown, and leaves the items as they are.
    pub fn poll_refresh(&mut self, outcome: ScanOutcome)
        ensures
            !old(self).refreshing || outcome is Pending ==> *final(self) == *old(self),
            old(self).refreshing && outcome !is Pending ==> {
                &&& final(self).hide_done == old(self).hide_done
                &&& !final(self).refreshing
                &&& final(self).pending_anchor is None
            },
            old(self).refreshing ==> match outcome {
                ScanOutcome::Finished(Ok(items)) => {
                    &&& final(self).items == items
                    &&& final(self).state == selecting(
                        old(self).state,
                        refreshed(
                            item_views(items@),
                            old(self).hide_done,
                            anchor_view(old(self).pending_anchor),
                            old(self).state.selected,
                        ),
                    )
                    &&& final(self).status is None
                },
                ScanOutcome::Finished(Err(e)) => {
                    &&& final(self).items == old(self).items
                    &&& final(self).state == old(self).state
                    &&& final(self).status matches Some(text) && text@ == "刷新失败: "@ + e@
                },
                ScanOutcome::Disconnected => {
                    &&& final(self).items == old(self).items
                    &&& final(self).state == old(self).state
                    &&& final(self).status matches Some(text) && text@ == "刷新线程意外退出"@
                },
                ScanOutcome::Pending => true,
            },
            takes_in(*old(self), *final(self), outcome),
            old(self).wf() ==> final(self).wf(),
    {
        if !self.refreshing {
            return;
        }
        match outcome {
            ScanOutcome::Finished(Ok(items)) => {
                self.items = items;
                let index = self.restored_index(self.state.selected);
                let vis = self.visible_indices();
                let ghost views = self.views();
                self.state.select(index);
                if let Some(c) = index {
                    proof {
                        lemma_position(vis@, c);
                        assert(vis@.len() > 0 ==> vis@.contains(vis@[0]));
                    }
                    if position_of(&vis, c).is_none() {
                        self.state.select(first_index(&vis));
                    }
                } else {
                    proof {
                        lemma_visible_bound(views, self.hide_done);
                    }
                }
                self.status = None;
                self.refreshing = false;
                self.pending_anchor = None;
            },
            ScanOutcome::Finished(Err(e)) => {
                self.status = Some("刷新失败: ".to_string().concat(e.as_str()));
                self.refreshing = false;
                self.pending_anchor = None;
            },
            ScanOutcome::Pending => {},
            ScanOutcome::Disconnected => {
                self.status = Some("刷新线程意外退出".to_string());
                self.refreshing = false;
                self.pending_anchor = None;
            },
        }
    }
}

} // verus!
