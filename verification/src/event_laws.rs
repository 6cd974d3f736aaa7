//! What every key does.
use vstd::prelude::*;

#[allow(unused_imports)]
use crate::app::{
    first_of, last_of, next_of, prev_of, starts_refresh, step_of, toggles, visible, App,
};
#[allow(unused_imports)]
use crate::app_laws::{
    is_first_shown, is_last_shown, law_a_step_ends_at_the_nearest_place,
    law_first_and_last_are_the_ends, law_moves_from_outside_the_list,
    law_next_and_prev_move_by_one_place,
};
#[allow(unused_imports)]
use crate::events::{
    carries_out, command_of, editor_report, goes_on, line_argument, Action, EditorExit,
    EditorReport, Event, KeyCode, KeyEventKind, EDITOR,
};
#[allow(unused_imports)]
use crate::text::decimal;
#[allow(unused_imports)]
use crate::text_laws::{law_numbers_are_written_in_base_ten, value_of};

verus! {

/// Whether an event is this key, pressed or held down.
pub open spec fn presses(event: Event, key: KeyCode) -> bool {
    event matches Event::Key { kind, code } && (kind is Press || kind is Repeat) && code == key
}

/// Whether nothing but the selection has changed, and it is `index` now. The list stays scrolled
/// as it is, but for a selection of nothing.
pub open spec fn has_selected(before: App, after: App, index: Option<usize>) -> bool {
    &&& after.state.selected == index
    &&& after.state.offset == if index is None {
        0
    } else {
        before.state.offset
    }
    &&& after.items == before.items
    &&& after.status == before.status
    &&& after.hide_done == before.hide_done
    &&& after.refreshing == before.refreshing
    &&& after.pending_anchor == before.pending_anchor
}

/// Enter opens the selected item, a heading as well as a task, in its file and at its line.
/// Without a selected item it does nothing.
pub proof fn law_enter_opens_the_selected_item(
    event: Event,
    before: App,
    after: App,
    action: Action,
)
    requires
        carries_out(command_of(event), before, after, action),
        presses(event, KeyCode::Enter),
    ensures
        after == before,
        match before.state.selected {
            Some(i) => if i < before.items@.len() {
                action matches Action::Edit { path, line } && path@
                    == before.items@[i as int].path@ && line == before.items@[i as int].line
            } else {
                action is Continue
            },
            None => action is Continue,
        },
{
    assert(before.views().len() == before.items@.len());
}

/// `q` and Esc leave the program.
pub proof fn law_q_and_esc_quit(event: Event, before: App, after: App, action: Action)
    requires
        carries_out(command_of(event), before, after, action),
        presses(event, KeyCode::Esc) || presses(event, KeyCode::Char('q')),
    ensures
        after == before,
        action is Quit,
{
}

/// `j` and the down key select the item one place further in the list, `k` and the up key the
/// one before; the list goes round. Page down selects the item fifteen places further, page up
/// the one fifteen places back, or the last or the first where there are not so many.
pub proof fn law_keys_move_through_the_list(
    event: Event,
    before: App,
    after: App,
    action: Action,
    p: int,
)
    requires
        carries_out(command_of(event), before, after, action),
        0 <= p < before.visible().len(),
        before.state.selected == Some(before.visible()[p]),
    ensures
        ({
            let vis = before.visible();
            let n = vis.len() as int;
            &&& presses(event, KeyCode::Down) || presses(event, KeyCode::Char('j')) ==> {
                &&& action is Continue
                &&& p + 1 < n ==> has_selected(before, after, Some(vis[p + 1]))
                &&& p + 1 == n ==> has_selected(before, after, Some(vis[0]))
            }
            &&& presses(event, KeyCode::Up) || presses(event, KeyCode::Char('k')) ==> {
                &&& action is Continue
                &&& p > 0 ==> has_selected(before, after, Some(vis[p - 1]))
                &&& p == 0 ==> has_selected(before, after, Some(vis[n - 1]))
            }
            &&& presses(event, KeyCode::PageDown) ==> {
                &&& action is Continue
                &&& p + 15 < n ==> has_selected(before, after, Some(vis[p + 15]))
                &&& p + 15 >= n ==> has_selected(before, after, Some(vis[n - 1]))
            }
            &&& presses(event, KeyCode::PageUp) ==> {
                &&& action is Continue
                &&& p >= 15 ==> has_selected(before, after, Some(vis[p - 15]))
                &&& p < 15 ==> has_selected(before, after, Some(vis[0]))
            }
        }),
{
    assert(before.views().len() == before.items.len());
    law_next_and_prev_move_by_one_place(before.views(), before.hide_done, p);
    law_a_step_ends_at_the_nearest_place(before.views(), before.hide_done, p, 15);
    law_a_step_ends_at_the_nearest_place(before.views(), before.hide_done, p, -15);
}

/// Where nothing of the list is selected, going on selects its first item, going back its last,
/// a page down counts from the first and a page up selects it. In an empty list nothing comes to
/// be selected.
pub proof fn law_keys_find_into_the_list(event: Event, before: App, after: App, action: Action)
    requires
        carries_out(command_of(event), before, after, action),
        before.state.selected matches Some(i) ==> !before.visible().contains(i),
        presses(event, KeyCode::Down) || presses(event, KeyCode::Char('j')) || presses(
            event,
            KeyCode::Up,
        ) || presses(event, KeyCode::Char('k')) || presses(event, KeyCode::PageDown) || presses(
            event,
            KeyCode::PageUp,
        ),
    ensures
        action is Continue,
        ({
            let vis = before.visible();
            let n = vis.len() as int;
            &&& n == 0 ==> has_selected(before, after, None)
            &&& n > 0 && (presses(event, KeyCode::Down) || presses(event, KeyCode::Char('j')))
                ==> has_selected(before, after, Some(vis[0]))
            &&& n > 0 && (presses(event, KeyCode::Up) || presses(event, KeyCode::Char('k')))
                ==> has_selected(before, after, Some(vis[n - 1]))
            &&& n > 15 && presses(event, KeyCode::PageDown) ==> has_selected(
                before,
                after,
                Some(vis[15]),
            )
            &&& 0 < n <= 15 && presses(event, KeyCode::PageDown) ==> has_selected(
                before,
                after,
                Some(vis[n - 1]),
            )
            &&& n > 0 && presses(event, KeyCode::PageUp) ==> has_selected(
                before,
                after,
                Some(vis[0]),
            )
        }),
{
    law_moves_from_outside_the_list(before.visible(), before.state.selected, 15);
    law_moves_from_outside_the_list(before.visible(), before.state.selected, -15);
}

/// `g` and Home select the first item that the filter does not leave out, `G` and End the last.
pub proof fn law_keys_go_to_the_ends(event: Event, before: App, after: App, action: Action)
    requires
        carries_out(command_of(event), before, after, action),
    ensures
        presses(event, KeyCode::Home) || presses(event, KeyCode::Char('g')) ==> {
            &&& action is Continue
            &&& has_selected(before, after, after.state.selected)
            &&& is_first_shown(before.views(), before.hide_done, after.state.selected)
        },
        presses(event, KeyCode::End) || presses(event, KeyCode::Char('G')) ==> {
            &&& action is Continue
            &&& has_selected(before, after, after.state.selected)
            &&& is_last_shown(before.views(), before.hide_done, after.state.selected)
        },
{
    assert(before.views().len() == before.items.len());
    law_first_and_last_are_the_ends(before.views(), before.hide_done);
}

/// `d` turns the filter over. `r` starts a scan, unless one is running.
pub proof fn law_d_filters_and_r_refreshes(event: Event, before: App, after: App, action: Action)
    requires
        carries_out(command_of(event), before, after, action),
    ensures
        presses(event, KeyCode::Char('d')) ==> toggles(before, after) && after.hide_done
            == !before.hide_done && action is Continue,
        presses(event, KeyCode::Char('r')) ==> {
            &&& starts_refresh(before, after, action is Scan)
            &&& !before.refreshing ==> after.refreshing && action is Scan
            &&& before.refreshing ==> after == before && action is Continue
        },
{
}

/// Nothing else does anything: no other key, no key that goes up, and no other event.
pub proof fn law_nothing_else_does_anything(
    event: Event,
    before: App,
    after: App,
    action: Action,
)
    requires
        carries_out(command_of(event), before, after, action),
        match event {
            Event::Other => true,
            Event::Key { kind, code } => kind is Release || code is Other || (code matches
                KeyCode::Char(c) && c != 'q' && c != 'j' && c != 'k' && c != 'g' && c != 'G'
                && c != 'd' && c != 'r'),
        },
    ensures
        after == before,
        action is Continue,
{
}

/// After the editor was open the files are scanned again, unless a scan is running already. Where
/// it did not start, the reason is shown and nothing else changes.
pub proof fn law_after_the_editor_comes_a_scan(
    before: App,
    after: App,
    result: Result<(), String>,
    action: Action,
)
    requires
        goes_on(before, after, result, action),
    ensures
        after.items == before.items,
        after.state == before.state,
        after.hide_done == before.hide_done,
        result is Ok ==> {
            &&& after.status == before.status
            &&& after.refreshing
            &&& !before.refreshing ==> action is Scan
            &&& before.refreshing ==> action is Continue && after == before
        },
        result matches Err(e) ==> {
            &&& after.status is Some
            &&& after.status->0@ == "nvim 启动失败: "@ + e@
            &&& after.refreshing == before.refreshing
            &&& after.pending_anchor == before.pending_anchor
            &&& action is Continue
        },
{
}

/// An editor that started is no error, however it ended; one that ended badly is worth a warning.
/// One that did not start is an error. The words of the system are passed on.
pub proof fn law_only_a_start_that_fails_is_an_error(exit: EditorExit, report: EditorReport)
    requires
        call_ensures(editor_report, (exit,), report),
    ensures
        report.result is Err <==> exit is NotLaunched,
        report.warning is Some <==> exit is Failure,
        exit matches EditorExit::Failure(status) ==> report.warning->0@
            == "nvim exited with status: "@ + status@,
        exit matches EditorExit::NotLaunched(error) ==> report.result->Err_0@
            == "failed to launch nvim: "@ + error@,
{
}

/// The argument for the editor is a plus and the digits of the line.
pub proof fn law_the_editor_is_told_the_line(line: usize, arg: String)
    requires
        call_ensures(line_argument, (line,), arg),
    ensures
        arg@.len() > 1,
        arg@[0] == '+',
        value_of(arg@.skip(1)) == line,
        forall|i: int| 1 <= i < arg@.len() ==> '0' <= #[trigger] arg@[i] <= '9',
        line > 0 ==> arg@[1] != '0',
{
    reveal_strlit("+");
    law_numbers_are_written_in_base_ten(line as nat);
    let digits = decimal(line as nat);
    assert(arg@.skip(1) == digits);
    assert forall|i: int| 1 <= i < arg@.len() implies '0' <= #[trigger] arg@[i] <= '9' by {
        assert(arg@[i] == digits[i - 1]);
    }
}

/// Files are opened with nvim.
pub proof fn law_files_are_opened_with_nvim()
    ensures
        EDITOR@ == "nvim"@,
{
}

} // verus!
