//! What the keys do, and what follows from the editor.
use vstd::prelude::*;
use vstd::string::StringExecFns;

use crate::app::App;
#[allow(unused_imports)]
use crate::app::{
    first_of, last_of, next_of, prev_of, selected_anchor, starts_refresh, step_of, toggles,
    with_state,
};
use crate::item::copy_bytes;
#[allow(unused_imports)]
use crate::list::selecting;
#[allow(unused_imports)]
use crate::text::decimal;
use crate::text::number;

verus! {

/// How many items a page is.
pub const PAGE: isize = 15;

/// The editor that files are opened with.
pub const EDITOR: &'static str = "nvim";

/// A key.
#[derive(Debug, Clone, Copy)]
pub enum KeyCode {
    Char(char),
    Esc,
    Up,
    Down,
    Home,
    End,
    PageUp,
    PageDown,
    Enter,
    Other,
}

/// What happened to a key.
#[derive(Debug, Clone, Copy)]
pub enum KeyEventKind {
    Press,
    Repeat,
    Release,
}

/// An event of the terminal.
#[derive(Debug, Clone, Copy)]
pub enum Event {
    Key { kind: KeyEventKind, code: KeyCode },
    Other,
}

/// What an event asks for.
#[derive(Debug, Clone, Copy)]
pub enum Command {
    Quit,
    Next,
    Prev,
    First,
    Last,
    PageDown,
    PageUp,
    ToggleHideDone,
    Refresh,
    Open,
    Nothing,
}

/// What is to be done outside after an event.
#[derive(Debug)]
pub enum Action {
    /// Nothing: wait for the next event.
    Continue,
    /// Leave the program.
    Quit,
    /// Start a scan in the background.
    Scan,
    /// Open the editor on this file, at this line.
    Edit { path: Vec<u8>, line: usize },
}

/// What a key asks for when it is pressed.
pub open spec fn command_of_key(code: KeyCode) -> Command {
    match code {
        KeyCode::Esc => Command::Quit,
        KeyCode::Down => Command::Next,
        KeyCode::Up => Command::Prev,
        KeyCode::Home => Command::First,
        KeyCode::End => Command::Last,
        KeyCode::PageDown => Command::PageDown,
        KeyCode::PageUp => Command::PageUp,
        KeyCode::Enter => Command::Open,
        KeyCode::Other => Command::Nothing,
        KeyCode::Char(c) => if c == 'q' {
            Command::Quit
        } else if c == 'j' {
            Command::Next
        } else if c == 'k' {
            Command::Prev
        } else if c == 'g' {
            Command::First
        } else if c == 'G' {
            Command::Last
        } else if c == 'd' {
            Command::ToggleHideDone
        } else if c == 'r' {
            Command::Refresh
        } else {
            Command::Nothing
        },
    }
}

/// What an event asks for: a key asks when it goes down or repeats, not when it goes up.
pub open spec fn command_of(event: Event) -> Command {
    match event {
        Event::Key { kind, code } => if kind is Release {
            Command::Nothing
        } else {
            command_of_key(code)
        },
        Event::Other => Command::Nothing,
    }
}

/// What a command does to the program, and what is to be done outside.
pub open spec fn carries_out(command: Command, before: App, after: App, action: Action) -> bool {
    let vis = before.visible();
    let at = before.state.selected;
    match command {
        Command::Quit => after == before && action is Quit,
        Command::Next => after == with_state(before, selecting(before.state, next_of(vis, at)))
            && action is Continue,
        Command::Prev => after == with_state(before, selecting(before.state, prev_of(vis, at)))
            && action is Continue,
        Command::First => after == with_state(before, selecting(before.state, first_of(vis)))
            && action is Continue,
        Command::Last => after == with_state(before, selecting(before.state, last_of(vis)))
            && action is Continue,
        Command::PageDown => after == with_state(
            before,
            selecting(before.state, step_of(vis, at, PAGE as int)),
        ) && action is Continue,
        Command::PageUp => after == with_state(
            before,
            selecting(before.state, step_of(vis, at, -(PAGE as int))),
        ) && action is Continue,
        Command::ToggleHideDone => toggles(before, after) && action is Continue,
        Command::Refresh => starts_refresh(before, after, action is Scan) && (action is Scan
            || action is Continue),
        Command::Open => after == before && match selected_anchor(before) {
            Some((p, l)) => action matches Action::Edit { path, line } && path@ == p && line == l,
            None => action is Continue,
        },
        Command::Nothing => after == before && action is Continue,
    }
}

/// What is done after the editor, and what is to be done outside.
pub open spec fn goes_on(
    before: App,
    after: App,
    result: Result<(), String>,
    action: Action,
) -> bool {
    match result {
        Ok(_) => starts_refresh(before, after, action is Scan) && (action is Scan
            || action is Continue),
        Err(e) => {
            &&& action is Continue
            &&& after.status matches Some(text) && text@ == "nvim 启动失败: "@ + e@
            &&& after.items == before.items
            &&& after.state == before.state
            &&& after.hide_done == before.hide_done
            &&& after.refreshing == before.refreshing
            &&& after.pending_anchor == before.pending_anchor
        },
    }
}

/// What a key asks for when it is pressed.
fn key_command(code: KeyCode) -> (command: Command)
    ensures
        command == command_of_key(code),
{
    match code {
        KeyCode::Esc => Command::Quit,
        KeyCode::Down => Command::Next,
        KeyCode::Up => Command::Prev,
        KeyCode::Home => Command::First,
        KeyCode::End => Command::Last,
        KeyCode::PageDown => Command::PageDown,
        KeyCode::PageUp => Command::PageUp,
        KeyCode::Enter => Command::Open,
        KeyCode::Other => Command::Nothing,
        KeyCode::Char('q') => Command::Quit,
        KeyCode::Char('j') => Command::Next,
        KeyCode::Char('k') => Command::Prev,
        KeyCode::Char('g') => Command::First,
        KeyCode::Char('G') => Command::Last,
        KeyCode::Char('d') => Command::ToggleHideDone,
        KeyCode::Char('r') => Command::Refresh,
        KeyCode::Char(_) => Command::Nothing,
    }
}

/// What an event asks for.
pub fn command(event: Event) -> (command: Command)
    ensures
        command == command_of(event),
{
    match event {
        Event::Key { kind: KeyEventKind::Release, .. } => Command::Nothing,
        Event::Key { code, .. } => key_command(code),
        Event::Other => Command::Nothing,
    }
}

/// Does what an event asks for, and says what is to be done outside.
pub fn handle_event(app: &mut App, event: Event) -> (action: Action)
    ensures
        carries_out(command_of(event), *old(app), *final(app), action),
        event matches Event::Key { kind, code } && kind !is Release && code is Enter
            ==> *final(app) == *old(app) && match old(app).state.selected {
            Some(i) => if i < old(app).items@.len() {
                action matches Action::Edit { path, line } && path@
                    == old(app).items@[i as int].path@ && line == old(app).items@[i as int].line
            } else {
                action is Continue
            },
            None => action is Continue,
        },
        old(app).wf() ==> final(app).wf(),
{
    match command(event) {
        Command::Quit => Action::Quit,
        Command::Next => {
            app.next();
            Action::Continue
        },
        Command::Prev => {
            app.prev();
            Action::Continue
        },
        Command::First => {
            app.first();
            Action::Continue
        },
        Command::Last => {
            app.last();
            Action::Continue
        },
        Command::PageDown => {
            app.step(PAGE);
            Action::Continue
        },
        Command::PageUp => {
            app.step(-PAGE);
            Action::Continue
        },
        Command::ToggleHideDone => {
            app.toggle_hide_done();
            Action::Continue
        },
        Command::Refresh => if app.start_refresh() {
            Action::Scan
        } else {
            Action::Continue
        },
        Command::Open => match app.selected() {
            Some(item) => Action::Edit { path: copy_bytes(item.path.as_slice()), line: item.line },
            None => Action::Continue,
        },
        Command::Nothing => Action::Continue,
    }
}

/// The argument that makes the editor go to a line.
pub fn line_argument(line: usize) -> (arg: String)
    ensures
        arg@ == "+"@ + decimal(line as nat),
{
    "+".to_string().concat(number(line).as_str())
}

/// How a run of the editor ended; the texts are those of the exit status and of the error.
#[derive(Debug)]
pub enum EditorExit {
    Success,
    Failure(String),
    NotLaunched(String),
}

/// What a run of the editor comes to.
#[derive(Debug)]
pub struct EditorReport {
    /// Something to print.
    pub warning: Option<String>,
    /// Whether the file was open in the editor, or why not.
    pub result: Result<(), String>,
}

/// What a run of the editor comes to: that it ended badly is only worth a warning, that it
/// did not start is an error.
pub fn editor_report(exit: EditorExit) -> (report: EditorReport)
    ensures
        match exit {
            EditorExit::Success => report.warning is None && report.result is Ok,
            EditorExit::Failure(status) => {
                &&& report.warning matches Some(text) && text@ == "nvim exited with status: "@
                    + status@
                &&& report.result is Ok
            },
            EditorExit::NotLaunched(error) => {
                &&& report.warning is None
                &&& report.result matches Err(text) && text@ == "failed to launch nvim: "@ + error@
            },
        },
{
    match exit {
        EditorExit::Success => EditorReport { warning: None, result: Ok(()) },
        EditorExit::Failure(status) => EditorReport {
            warning: Some("nvim exited with status: ".to_string().concat(status.as_str())),
            result: Ok(()),
        },
        EditorExit::NotLaunched(error) => EditorReport {
            warning: None,
            result: Err("failed to launch nvim: ".to_string().concat(error.as_str())),
        },
    }
}

/// Goes on after the editor: the files are scanned again, or the error is shown.
pub fn after_edit(app: &mut App, result: Result<(), String>) -> (action: Action)
    ensures
        match result {
            Ok(_) => starts_refresh(*old(app), *final(app), action is Scan) && (action is Scan
                || action is Continue),
            Err(e) => {
                &&& action is Continue
                &&& final(app).items == old(app).items
                &&& final(app).state == old(app).state
                &&& final(app).status matches Some(text) && text@ == "nvim 启动失败: "@ + e@
                &&& final(app).hide_done == old(app).hide_done
                &&& final(app).refreshing == old(app).refreshing
                &&& final(app).pending_anchor == old(app).pending_anchor
            },
        },
        goes_on(*old(app), *final(app), result, action),
        old(app).wf() ==> final(app).wf(),
{
    match result {
        Ok(_) => if app.start_refresh() {
            Action::Scan
        } else {
            Action::Continue
        },
        Err(e) => {
            app.status = Some("nvim 启动失败: ".to_string().concat(e.as_str()));
            Action::Continue
        },
    }
}

} // verus!
