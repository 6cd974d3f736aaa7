use md_scan::app::{find_item, position_of, App, ScanOutcome};
use md_scan::events::{
    after_edit, command, editor_report, handle_event, line_argument, Action, Command, EditorExit,
    Event, KeyCode, KeyEventKind, EDITOR,
};
use md_scan::item::{Item, ItemKind};
use md_scan::list::ListState;
use md_scan::render::render_list;

fn heading(path: &str, line: usize) -> Item {
    Item {
        path: path.as_bytes().to_vec(),
        line,
        kind: ItemKind::Heading(1, format!("h{line}")),
    }
}

fn task(path: &str, line: usize, done: bool) -> Item {
    Item {
        path: path.as_bytes().to_vec(),
        line,
        kind: ItemKind::Task { done, indent: 0, body: format!("t{line}") },
    }
}

/// A heading, an open task, a done task, a heading, a done task.
fn sample() -> Vec<Item> {
    vec![
        heading("a.md", 1),
        task("a.md", 2, false),
        task("a.md", 3, true),
        heading("b.md", 1),
        task("b.md", 5, true),
    ]
}

fn press(code: KeyCode) -> Event {
    Event::Key { kind: KeyEventKind::Press, code }
}

#[test]
fn starts_on_the_first_item() {
    let app = App::new(sample());
    assert_eq!(app.state.selected, Some(0));
    assert_eq!(app.state.offset, 0);
    assert!(!app.hide_done && !app.is_refreshing());
    assert!(app.status.is_none() && app.pending_anchor.is_none());
    let app = App::new(Vec::new());
    assert_eq!(app.state.selected, None);
    assert!(app.selected().is_none());
}

#[test]
fn scrolling_is_noted() {
    let mut app = App::new(sample());
    app.next();
    app.toggle_hide_done();
    app.scrolled(1);
    assert_eq!((app.state.selected, app.state.offset), (Some(1), 1));
    assert_eq!(render_list(&app).offset, 1);
    assert_eq!(app.visible_indices(), vec![0, 1, 3]);
    assert!(app.status.is_none() && !app.is_refreshing() && app.pending_anchor.is_none());
    app.next();
    assert_eq!((app.state.selected, app.state.offset), (Some(3), 1));
}

#[test]
fn the_filter_leaves_out_done_tasks() {
    let mut app = App::new(sample());
    assert_eq!(app.visible_indices(), vec![0, 1, 2, 3, 4]);
    app.toggle_hide_done();
    assert_eq!(app.visible_indices(), vec![0, 1, 3]);
    app.toggle_hide_done();
    assert_eq!(app.visible_indices(), vec![0, 1, 2, 3, 4]);
}

#[test]
fn next_and_prev_go_round() {
    let mut app = App::new(sample());
    app.toggle_hide_done();
    let mut seen = Vec::new();
    for _ in 0..4 {
        seen.push(app.state.selected.unwrap());
        app.next();
    }
    assert_eq!(seen, vec![0, 1, 3, 0]);
    let mut app = App::new(sample());
    app.prev();
    assert_eq!(app.state.selected, Some(4));
    app.prev();
    assert_eq!(app.state.selected, Some(3));
    app.next();
    assert_eq!(app.state.selected, Some(4));
}

#[test]
fn where_the_selection_is_not_visible() {
    let mut app = App::new(sample());
    app.hide_done = true;
    app.state.selected = Some(2);
    app.next();
    assert_eq!(app.state.selected, Some(0));
    app.state.selected = Some(2);
    app.prev();
    assert_eq!(app.state.selected, Some(3));
    app.state.selected = Some(2);
    app.step(1);
    assert_eq!(app.state.selected, Some(1));
    app.state.selected = None;
    app.step(-1);
    assert_eq!(app.state.selected, Some(0));
}

#[test]
fn first_and_last() {
    let mut app = App::new(sample());
    app.last();
    assert_eq!(app.state.selected, Some(4));
    app.first();
    assert_eq!(app.state.selected, Some(0));
    app.toggle_hide_done();
    app.last();
    assert_eq!(app.state.selected, Some(3));
}

#[test]
fn steps_stop_at_the_ends() {
    let mut app = App::new(sample());
    app.step(2);
    assert_eq!(app.state.selected, Some(2));
    app.step(-1);
    assert_eq!(app.state.selected, Some(1));
    app.step(0);
    assert_eq!(app.state.selected, Some(1));
    app.step(15);
    assert_eq!(app.state.selected, Some(4));
    app.step(-15);
    assert_eq!(app.state.selected, Some(0));
    app.step(isize::MAX);
    assert_eq!(app.state.selected, Some(4));
    app.step(isize::MIN);
    assert_eq!(app.state.selected, Some(0));
}

#[test]
fn opposite_steps_undo_each_other() {
    let mut app = App::new(sample());
    app.step(1);
    app.step(3);
    assert_eq!(app.state.selected, Some(4));
    app.step(-3);
    assert_eq!(app.state.selected, Some(1));
    app.toggle_hide_done();
    app.step(1);
    assert_eq!(app.state.selected, Some(3));
    app.step(-1);
    assert_eq!(app.state.selected, Some(1));
}

#[test]
fn an_empty_list_selects_nothing() {
    let mut app = App::new(vec![task("a", 1, true)]);
    app.state.offset = 7;
    app.toggle_hide_done();
    assert_eq!(app.state.selected, None);
    assert_eq!(app.state.offset, 0);
    app.next();
    app.prev();
    app.first();
    app.last();
    app.step(3);
    assert_eq!(app.state.selected, None);
    app.toggle_hide_done();
    assert_eq!(app.state.selected, Some(0));
}

#[test]
fn the_filter_keeps_a_visible_selection() {
    let mut app = App::new(sample());
    app.state.select(Some(3));
    app.state.offset = 2;
    app.toggle_hide_done();
    assert_eq!(app.state.selected, Some(3));
    assert_eq!(app.state.offset, 2);
    app.toggle_hide_done();
    assert_eq!(app.state.selected, Some(3));
    app.state.select(Some(2));
    app.toggle_hide_done();
    assert_eq!(app.state.selected, Some(0));
}

#[test]
fn selecting_nothing_scrolls_to_the_top() {
    let mut state = ListState::new();
    state.offset = 9;
    state.select(Some(3));
    assert_eq!((state.selected, state.offset), (Some(3), 9));
    state.select(None);
    assert_eq!((state.selected, state.offset), (None, 0));
}

#[test]
fn only_one_scan_at_a_time() {
    let mut app = App::new(sample());
    app.next();
    assert!(app.start_refresh());
    assert!(app.is_refreshing());
    assert_eq!(app.pending_anchor, Some((b"a.md".to_vec(), 2)));
    app.next();
    assert!(!app.start_refresh());
    assert_eq!(app.pending_anchor, Some((b"a.md".to_vec(), 2)));
}

#[test]
fn a_scan_brings_the_selection_back() {
    let mut app = App::new(sample());
    app.state.select(Some(3));
    app.status = Some("old".to_string());
    app.start_refresh();
    app.poll_refresh(ScanOutcome::Pending);
    assert!(app.is_refreshing());
    app.next();
    let mut new = sample();
    new.insert(0, heading("0.md", 1));
    app.poll_refresh(ScanOutcome::Finished(Ok(new)));
    assert_eq!(app.items.len(), 6);
    assert_eq!(app.state.selected, Some(4));
    assert!(app.status.is_none() && !app.is_refreshing() && app.pending_anchor.is_none());
}

#[test]
fn a_scan_without_the_selected_item() {
    let mut app = App::new(sample());
    app.last();
    app.start_refresh();
    app.poll_refresh(ScanOutcome::Finished(Ok(vec![heading("x", 1), heading("y", 2)])));
    assert_eq!(app.state.selected, Some(1));
    app.start_refresh();
    app.poll_refresh(ScanOutcome::Finished(Ok(Vec::new())));
    assert_eq!(app.state.selected, None);
    app.start_refresh();
    assert_eq!(app.pending_anchor, None);
    app.poll_refresh(ScanOutcome::Finished(Ok(sample())));
    assert_eq!(app.state.selected, Some(0));
}

#[test]
fn a_scan_whose_item_is_now_left_out() {
    let mut app = App::new(sample());
    app.toggle_hide_done();
    app.state.select(Some(1));
    app.start_refresh();
    let mut new = sample();
    new[1] = task("a.md", 2, true);
    app.poll_refresh(ScanOutcome::Finished(Ok(new)));
    assert_eq!(app.state.selected, Some(0));
    app.start_refresh();
    app.poll_refresh(ScanOutcome::Finished(Ok(vec![task("a.md", 1, true)])));
    assert_eq!(app.state.selected, None);
}

#[test]
fn a_scan_that_finds_the_same_changes_nothing() {
    for i in 0..5 {
        let mut app = App::new(sample());
        app.state.select(Some(i));
        app.start_refresh();
        app.poll_refresh(ScanOutcome::Finished(Ok(sample())));
        assert_eq!(app.state.selected, Some(i));
    }
}

#[test]
fn scans_that_fail() {
    let mut app = App::new(sample());
    app.next();
    app.start_refresh();
    app.poll_refresh(ScanOutcome::Finished(Err("oops".to_string())));
    assert_eq!(app.status, Some("刷新失败: oops".to_string()));
    assert!(!app.is_refreshing() && app.pending_anchor.is_none());
    assert_eq!((app.items.len(), app.state.selected), (5, Some(1)));
    app.start_refresh();
    app.poll_refresh(ScanOutcome::Disconnected);
    assert_eq!(app.status, Some("刷新线程意外退出".to_string()));
    assert!(!app.is_refreshing());
}

#[test]
fn without_a_scan_nothing_is_taken_in() {
    let mut app = App::new(sample());
    app.poll_refresh(ScanOutcome::Finished(Ok(Vec::new())));
    app.poll_refresh(ScanOutcome::Disconnected);
    assert_eq!(app.items.len(), 5);
    assert!(app.status.is_none());
}

#[test]
fn keys_ask_for_commands() {
    let c = |code| command(press(code));
    assert!(matches!(c(KeyCode::Char('q')), Command::Quit));
    assert!(matches!(c(KeyCode::Esc), Command::Quit));
    assert!(matches!(c(KeyCode::Char('j')), Command::Next));
    assert!(matches!(c(KeyCode::Down), Command::Next));
    assert!(matches!(c(KeyCode::Char('k')), Command::Prev));
    assert!(matches!(c(KeyCode::Up), Command::Prev));
    assert!(matches!(c(KeyCode::Char('g')), Command::First));
    assert!(matches!(c(KeyCode::Home), Command::First));
    assert!(matches!(c(KeyCode::Char('G')), Command::Last));
    assert!(matches!(c(KeyCode::End), Command::Last));
    assert!(matches!(c(KeyCode::PageDown), Command::PageDown));
    assert!(matches!(c(KeyCode::PageUp), Command::PageUp));
    assert!(matches!(c(KeyCode::Char('d')), Command::ToggleHideDone));
    assert!(matches!(c(KeyCode::Char('r')), Command::Refresh));
    assert!(matches!(c(KeyCode::Enter), Command::Open));
    assert!(matches!(c(KeyCode::Char('Q')), Command::Nothing));
    assert!(matches!(c(KeyCode::Other), Command::Nothing));
    assert!(matches!(command(Event::Other), Command::Nothing));
}

#[test]
fn keys_count_when_they_go_down() {
    let code = KeyCode::Char('j');
    let up = Event::Key { kind: KeyEventKind::Release, code };
    let again = Event::Key { kind: KeyEventKind::Repeat, code };
    assert!(matches!(command(up), Command::Nothing));
    assert!(matches!(command(again), Command::Next));
}

#[test]
fn events_change_the_program() {
    let mut app = App::new(sample());
    assert!(matches!(handle_event(&mut app, press(KeyCode::Down)), Action::Continue));
    assert_eq!(app.state.selected, Some(1));
    assert!(matches!(handle_event(&mut app, press(KeyCode::Up)), Action::Continue));
    assert_eq!(app.state.selected, Some(0));
    handle_event(&mut app, press(KeyCode::PageDown));
    assert_eq!(app.state.selected, Some(4));
    handle_event(&mut app, press(KeyCode::PageUp));
    assert_eq!(app.state.selected, Some(0));
    handle_event(&mut app, press(KeyCode::End));
    assert_eq!(app.state.selected, Some(4));
    handle_event(&mut app, press(KeyCode::Home));
    handle_event(&mut app, press(KeyCode::Char('d')));
    assert!(app.hide_done);
    assert!(matches!(handle_event(&mut app, press(KeyCode::Char('r'))), Action::Scan));
    assert!(matches!(handle_event(&mut app, press(KeyCode::Char('r'))), Action::Continue));
    assert!(matches!(handle_event(&mut app, press(KeyCode::Char('q'))), Action::Quit));
}

#[test]
fn a_page_is_fifteen_items() {
    let items: Vec<Item> = (1..=40).map(|n| heading("a", n)).collect();
    let mut app = App::new(items);
    handle_event(&mut app, press(KeyCode::PageDown));
    assert_eq!(app.state.selected, Some(15));
    handle_event(&mut app, press(KeyCode::PageDown));
    handle_event(&mut app, press(KeyCode::PageUp));
    assert_eq!(app.state.selected, Some(15));
}

#[test]
fn enter_opens_the_selected_item() {
    let mut app = App::new(sample());
    app.last();
    match handle_event(&mut app, press(KeyCode::Enter)) {
        Action::Edit { path, line } => assert_eq!((path, line), (b"b.md".to_vec(), 5)),
        _ => panic!("nothing opened"),
    }
    let mut empty = App::new(Vec::new());
    assert!(matches!(handle_event(&mut empty, press(KeyCode::Enter)), Action::Continue));
}

#[test]
fn after_the_editor() {
    let mut app = App::new(sample());
    assert!(matches!(after_edit(&mut app, Ok(())), Action::Scan));
    assert!(app.is_refreshing());
    assert!(matches!(after_edit(&mut app, Ok(())), Action::Continue));
    assert!(matches!(after_edit(&mut app, Err("no tty".to_string())), Action::Continue));
    assert_eq!(app.status, Some("nvim 启动失败: no tty".to_string()));
}

#[test]
fn what_the_editor_is_told_and_tells() {
    assert_eq!(EDITOR, "nvim");
    assert_eq!(line_argument(42), "+42");
    let r = editor_report(EditorExit::Success);
    assert!(r.warning.is_none() && r.result.is_ok());
    let r = editor_report(EditorExit::Failure("exit status: 1".to_string()));
    assert_eq!(r.warning, Some("nvim exited with status: exit status: 1".to_string()));
    assert!(r.result.is_ok());
    let r = editor_report(EditorExit::NotLaunched("not found".to_string()));
    assert!(r.warning.is_none());
    assert_eq!(r.result, Err("failed to launch nvim: not found".to_string()));
}

#[test]
fn finding_items_and_places() {
    let items = sample();
    assert_eq!(find_item(&items, b"b.md", 5), Some(4));
    assert_eq!(find_item(&items, b"b.md/", 1), Some(3));
    assert_eq!(find_item(&items, b"b.md", 2), None);
    assert_eq!(position_of(&vec![2, 5, 7], 5), Some(1));
    assert_eq!(position_of(&vec![2, 5, 7], 6), None);
}
