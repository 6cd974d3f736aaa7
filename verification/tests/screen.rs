use md_scan::app::App;
use md_scan::item::{Item, ItemKind};
use md_scan::layout::{band_heights, screen_of, ui, Area, Height};
use md_scan::render::{
    border_style, heading_color, highlight_style, item_to_line, percentage, place_label,
    render_footer, render_header, render_list, HIGHLIGHT_SYMBOL,
};
use md_scan::style::{bold, colored, dim, plain, Color, Span, Style};

fn heading(level: u8, text: &str) -> Item {
    Item {
        path: b"dir/a.md".to_vec(),
        line: 12,
        kind: ItemKind::Heading(level, text.to_string()),
    }
}

fn task(done: bool, indent: usize, body: &str) -> Item {
    Item {
        path: b"dir/a.md".to_vec(),
        line: 3,
        kind: ItemKind::Task { done, indent, body: body.to_string() },
    }
}

fn pairs(line: Vec<Span>) -> Vec<(String, Style)> {
    line.into_iter().map(|s| (s.text, s.style)).collect()
}

fn text(line: Vec<Span>) -> String {
    line.into_iter().map(|s| s.text).collect()
}

fn want(spans: &[(&str, Style)]) -> Vec<(String, Style)> {
    spans.iter().map(|(t, s)| (t.to_string(), *s)).collect()
}

#[test]
fn colors_of_headings() {
    assert_eq!(heading_color(1), Color::LightRed);
    assert_eq!(heading_color(2), Color::LightYellow);
    assert_eq!(heading_color(3), Color::LightGreen);
    assert_eq!(heading_color(4), Color::LightCyan);
    assert_eq!(heading_color(5), Color::LightBlue);
    assert_eq!(heading_color(6), Color::LightMagenta);
    assert_eq!(heading_color(0), Color::White);
    assert_eq!(heading_color(7), Color::White);
}

#[test]
fn first_level_shows_its_place() {
    let style = bold(Color::LightRed);
    assert_eq!(
        pairs(item_to_line(&heading(1, "Title"))),
        want(&[
            ("#", style),
            (" ", plain()),
            ("Title", style),
            ("  ", plain()),
            ("dir/a.md:12", colored(Color::DarkGray)),
        ])
    );
}

#[test]
fn other_levels_do_not() {
    let style = bold(Color::LightGreen);
    assert_eq!(
        pairs(item_to_line(&heading(3, "T"))),
        want(&[("###", style), (" ", plain()), ("T", style)])
    );
}

#[test]
fn rows_of_tasks() {
    assert_eq!(
        pairs(item_to_line(&task(true, 2, "done"))),
        want(&[
            ("  ", plain()),
            ("[x]", colored(Color::Green)),
            (" ", plain()),
            ("done", dim()),
        ])
    );
    assert_eq!(
        pairs(item_to_line(&task(false, 0, "open"))),
        want(&[
            ("", plain()),
            ("[ ]", colored(Color::Red)),
            (" ", plain()),
            ("open", colored(Color::White)),
        ])
    );
}

#[test]
fn indentation_has_a_limit() {
    assert_eq!(item_to_line(&task(false, 24, ""))[0].text.len(), 24);
    assert_eq!(item_to_line(&task(false, 23, ""))[0].text.len(), 23);
    assert_eq!(item_to_line(&task(false, 100, ""))[0].text.len(), 24);
}

#[test]
fn places() {
    assert_eq!(place_label(b"a/b.md", 7), "a/b.md:7");
    assert_eq!(place_label("笔记.md".as_bytes(), 10), "笔记.md:10");
    assert_eq!(place_label(b"a\xffb", 1), "a\u{fffd}b:1");
}

#[test]
fn header_counts() {
    let app = App::new(vec![
        heading(1, "a"),
        task(true, 0, "b"),
        task(false, 0, "c"),
        task(true, 0, "d"),
    ]);
    let line = pairs(render_header(&app));
    let name = Style { fg: Some(Color::Black), bg: Some(Color::Cyan), bold: true, dim: false };
    assert_eq!(
        line,
        want(&[
            (" md-scan ", name),
            (" ", plain()),
            ("Total 4", colored(Color::White)),
            ("  ", plain()),
            ("Heading 1", colored(Color::Yellow)),
            ("  ", plain()),
            ("Task 2/3 (66%)", colored(Color::Green)),
        ])
    );
}

#[test]
fn header_counts_what_the_filter_leaves_out() {
    let mut app = App::new(vec![task(true, 0, "b"), task(true, 0, "d")]);
    app.toggle_hide_done();
    assert_eq!(text(render_header(&app)), " md-scan  Total 2  Heading 0  Task 2/2 (100%)");
    assert_eq!(
        text(render_header(&App::new(Vec::new()))),
        " md-scan  Total 0  Heading 0  Task 0/0 (0%)"
    );
}

#[test]
fn percentages() {
    assert_eq!(percentage(0, 0), 0);
    assert_eq!(percentage(0, 3), 0);
    assert_eq!(percentage(1, 3), 33);
    assert_eq!(percentage(199, 200), 99);
    assert_eq!(percentage(200, 200), 100);
    assert_eq!(percentage(usize::MAX, usize::MAX), 100);
}

#[test]
fn the_list_translates_the_selection() {
    let mut app = App::new(vec![task(true, 0, "x"), heading(2, "h"), task(false, 0, "y")]);
    app.last();
    app.state.offset = 1;
    let list = render_list(&app);
    assert_eq!((list.rows.len(), list.selected, list.offset), (3, Some(2), 1));
    app.toggle_hide_done();
    let list = render_list(&app);
    assert_eq!((list.rows.len(), list.selected), (2, Some(1)));
    assert_eq!(app.state.selected, Some(2));
    let rows: Vec<String> = list.rows.into_iter().map(text).collect();
    assert_eq!(rows, vec!["## h", "[ ] y"]);
    app.state.selected = Some(0);
    assert_eq!(render_list(&app).selected, None);
}

#[test]
fn styles_of_the_list() {
    assert_eq!(border_style(), colored(Color::DarkGray));
    assert_eq!(
        highlight_style(),
        Style { fg: None, bg: Some(Color::Rgb(36, 44, 60)), bold: true, dim: false }
    );
    assert_eq!(HIGHLIGHT_SYMBOL, "> ");
}

const KEYS: &str = "j/k · PgUp/PgDn · g/G · Enter 编辑 · d 过滤 · r 刷新 · q 退出";

#[test]
fn footer_of_a_selection() {
    let app = App::new(vec![heading(1, "a")]);
    let line = render_footer(&app);
    assert_eq!(line[0].text, " dir/a.md:12 ");
    assert_eq!(line[0].style, colored(Color::Cyan));
    assert_eq!(text(line), format!(" dir/a.md:12   {KEYS}"));
}

#[test]
fn footer_shows_what_is_on() {
    let mut app = App::new(vec![heading(1, "a")]);
    let off = render_footer(&app);
    assert_eq!(off[3].style, colored(Color::DarkGray));
    assert_eq!(off[5].style, colored(Color::DarkGray));
    app.toggle_hide_done();
    app.start_refresh();
    let on = render_footer(&app);
    assert_eq!(on[3].text, "d 过滤");
    assert_eq!(on[3].style, bold(Color::Yellow));
    assert_eq!(on[5].text, "r 刷新");
    assert_eq!(on[5].style, bold(Color::Yellow));
    assert_eq!(on[6].style, colored(Color::DarkGray));
}

#[test]
fn footer_of_an_error() {
    let mut app = App::new(vec![heading(1, "a")]);
    app.status = Some("oops".to_string());
    let line = render_footer(&app);
    assert_eq!(line[1].style, colored(Color::LightYellow));
    assert_eq!(text(line), format!(" oops  {KEYS}"));
}

#[test]
fn footer_of_nothing() {
    let app = App::new(Vec::new());
    assert_eq!(
        pairs(render_footer(&app)),
        want(&[(" 没有找到任何标题或任务", colored(Color::DarkGray))])
    );
}

#[test]
fn the_screen_has_three_bands() {
    assert_eq!(
        band_heights(),
        vec![Height::Exactly(1), Height::AtLeast(1), Height::Exactly(1)]
    );
    let screen = ui(Area { x: 2, y: 3, width: 80, height: 24 });
    assert_eq!(screen.header, Area { x: 2, y: 3, width: 80, height: 1 });
    assert_eq!(screen.list, Area { x: 2, y: 4, width: 80, height: 22 });
    assert_eq!(screen.footer, Area { x: 2, y: 26, width: 80, height: 1 });
}

#[test]
fn the_list_has_what_the_two_lines_leave() {
    for height in 3..300u16 {
        for y in [0u16, 1, 7, 1000] {
            let screen = ui(Area { x: 4, y, width: 33, height });
            assert_eq!(screen.header, Area { x: 4, y, width: 33, height: 1 });
            assert_eq!(screen.list, Area { x: 4, y: y + 1, width: 33, height: height - 2 });
            let last = y + height - 1;
            assert_eq!(screen.footer, Area { x: 4, y: last, width: 33, height: 1 });
        }
    }
    let high = ui(Area { x: 0, y: 0, width: 10, height: 32767 });
    assert_eq!((high.list.height, high.footer.y), (32765, 32766));
}

#[test]
fn a_screen_that_is_too_low() {
    for height in 0..3u16 {
        for y in (0..65000u16).step_by(97).chain([1, 2, 65533]) {
            let screen = ui(Area { x: 1, y, width: 9, height });
            let parts = [screen.header, screen.list, screen.footer];
            let mut top = y;
            for part in parts {
                assert_eq!((part.x, part.y, part.width), (1, top, 9));
                top += part.height;
            }
            assert_eq!(top, y + height);
            assert_eq!(screen.list.height, height.min(1));
        }
    }
}

#[test]
fn a_screen_that_is_very_high_or_far_down() {
    for (y, height) in [(0u16, 65535u16), (1, 32767), (1, 65534), (40000, 100), (65532, 3)] {
        let screen = ui(Area { x: 0, y, width: 2, height });
        assert_eq!(screen.header, Area { x: 0, y, width: 2, height: 1 });
        assert_eq!(screen.list, Area { x: 0, y: y + 1, width: 2, height: height - 2 });
        let last = y + (height - 1);
        assert_eq!(screen.footer, Area { x: 0, y: last, width: 2, height: 1 });
    }
}

#[test]
fn rows_are_counted_up_to_the_last() {
    let screen = ui(Area { x: 0, y: 60000, width: 2, height: 10000 });
    assert_eq!((screen.header.y, screen.header.height), (60000, 1));
    assert_eq!((screen.list.y, screen.list.height), (60001, 5533));
    assert_eq!((screen.footer.y, screen.footer.height), (65534, 1));
    let screen = ui(Area { x: 0, y: 65535, width: 2, height: 5 });
    for part in [screen.header, screen.list, screen.footer] {
        assert_eq!((part.y, part.height), (65535, 0));
    }
}

#[test]
fn bands_in_their_order() {
    let band = |y: u16| Area { x: 0, y, width: 1, height: 1 };
    let screen = screen_of(&vec![band(5), band(6), band(7)]);
    assert_eq!((screen.header, screen.list, screen.footer), (band(5), band(6), band(7)));
}
