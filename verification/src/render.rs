//! What stands on the screen: the header, the rows of the list and the footer.
use vstd::prelude::*;
use vstd::string::StringExecFns;

use crate::app::{position_of, App};
#[allow(unused_imports)]
use crate::app::{lemma_visible_in_range, place, selected_anchor, visible};
use crate::item::{Item, ItemKind};
#[allow(unused_imports)]
use crate::item::{item_views, ItemView, KindView};
use crate::path::lossy_text;
#[allow(unused_imports)]
use crate::path::path_text;
use crate::style::{add_span, bold, colored, dim, plain, Color, Span, Style};
#[allow(unused_imports)]
use crate::style::{bold_style, color_style, dim_style, plain_style, span_views, SpanView};
#[allow(unused_imports)]
use crate::text::decimal;
use crate::text::{number, repeated};

verus! {

/// The widest indentation that is shown.
pub const MAX_INDENT: usize = 24;

/// What stands in front of the selected row.
pub const HIGHLIGHT_SYMBOL: &'static str = "> ";

/// The colour of headings of a level.
pub open spec fn color_of_level(level: int) -> Color {
    if level == 1 {
        Color::LightRed
    } else if level == 2 {
        Color::LightYellow
    } else if level == 3 {
        Color::LightGreen
    } else if level == 4 {
        Color::LightCyan
    } else if level == 5 {
        Color::LightBlue
    } else if level == 6 {
        Color::LightMagenta
    } else {
        Color::White
    }
}

pub open spec fn span(text: Seq<char>, style: Style) -> SpanView {
    SpanView { text, style }
}

/// `count` copies of a character.
pub open spec fn copies(c: char, count: nat) -> Seq<char> {
    Seq::new(count, |i: int| c)
}

/// A path and a line, as `path:line`.
pub open spec fn place_text(path: Seq<u8>, line: nat) -> Seq<char> {
    path_text(path) + ":"@ + decimal(line)
}

/// The row of an item. A heading shows its hashes and its title, and where it stands if it
/// is of the first level; a task shows its box and its text behind its indentation.
pub open spec fn item_spans(item: ItemView) -> Seq<SpanView> {
    match item.kind {
        KindView::Heading(level, text) => {
            let style = bold_style(color_of_level(level as int));
            let title = seq![
                span(copies('#', level), style),
                span(" "@, plain_style()),
                span(text, style),
            ];
            if level == 1 {
                title + seq![
                    span("  "@, plain_style()),
                    span(place_text(item.path, item.line), color_style(Color::DarkGray)),
                ]
            } else {
                title
            }
        },
        KindView::Task { done, indent, body } => {
            let pad = if indent < MAX_INDENT {
                indent
            } else {
                MAX_INDENT as nat
            };
            seq![
                span(copies(' ', pad), plain_style()),
                if done {
                    span("[x]"@, color_style(Color::Green))
                } else {
                    span("[ ]"@, color_style(Color::Red))
                },
                span(" "@, plain_style()),
                span(
                    body,
                    if done {
                        dim_style()
                    } else {
                        color_style(Color::White)
                    },
                ),
            ]
        },
    }
}

/// How many items are headings.
pub open spec fn heading_count(items: Seq<ItemView>) -> nat
    decreases items.len(),
{
    if items.len() == 0 {
        0
    } else {
        heading_count(items.drop_last()) + if items.last().kind is Heading {
            1nat
        } else {
            0nat
        }
    }
}

/// How many items are tasks.
pub open spec fn task_count(items: Seq<ItemView>) -> nat
    decreases items.len(),
{
    if items.len() == 0 {
        0
    } else {
        task_count(items.drop_last()) + if items.last().kind is Task {
            1nat
        } else {
            0nat
        }
    }
}

/// How many items are tasks that are done.
pub open spec fn done_count(items: Seq<ItemView>) -> nat
    decreases items.len(),
{
    if items.len() == 0 {
        0
    } else {
        done_count(items.drop_last()) + if items.last().kind matches KindView::Task { done, .. }
            && done {
            1nat
        } else {
            0nat
        }
    }
}

/// The hundredths of `tasks` that `done` are, rounded down; none of no tasks.
pub open spec fn percent(done: nat, tasks: nat) -> nat {
    if tasks == 0 {
        0
    } else {
        done * 100 / tasks
    }
}

/// The header: the name of the program and what it counts, of all items, in the list or not.
pub open spec fn header_spans(items: Seq<ItemView>) -> Seq<SpanView> {
    let tasks = task_count(items);
    let done = done_count(items);
    seq![
        span(
            " md-scan "@,
            Style { fg: Some(Color::Black), bg: Some(Color::Cyan), bold: true, dim: false },
        ),
        span(" "@, plain_style()),
        span("Total "@ + decimal(items.len()), color_style(Color::White)),
        span("  "@, plain_style()),
        span("Heading "@ + decimal(heading_count(items)), color_style(Color::Yellow)),
        span("  "@, plain_style()),
        span(
            "Task "@ + decimal(done) + "/"@ + decimal(tasks) + " ("@ + decimal(
                percent(done, tasks),
            ) + "%)"@,
            color_style(Color::Green),
        ),
    ]
}

/// The style of a key whose function is on, or off.
pub open spec fn key_style(on: bool) -> Style {
    if on {
        bold_style(Color::Yellow)
    } else {
        color_style(Color::DarkGray)
    }
}

/// The keys and what they do.
pub open spec fn key_spans(hide_done: bool, refreshing: bool) -> Seq<SpanView> {
    seq![
        span("j/k · PgUp/PgDn · g/G · Enter 编辑 · "@, color_style(Color::DarkGray)),
        span("d 过滤"@, key_style(hide_done)),
        span(" · "@, color_style(Color::DarkGray)),
        span("r 刷新"@, key_style(refreshing)),
        span(" · q 退出"@, color_style(Color::DarkGray)),
    ]
}

/// The footer: an error, if there is one, or where the selected item stands, and the keys;
/// where nothing is selected, that nothing was found.
pub open spec fn footer_spans(app: App) -> Seq<SpanView> {
    let keys = key_spans(app.hide_done, app.refreshing);
    match app.status {
        Some(message) => seq![
            span(" "@, plain_style()),
            span(message@, color_style(Color::LightYellow)),
            span("  "@, plain_style()),
        ] + keys,
        None => match selected_anchor(app) {
            Some((path, line)) => seq![
                span(" "@ + place_text(path, line) + " "@, color_style(Color::Cyan)),
                span("  "@, plain_style()),
            ] + keys,
            None => seq![span(" 没有找到任何标题或任务"@, color_style(Color::DarkGray))],
        },
    }
}

/// The list as it is drawn: its rows, which of them is selected, and the first on the screen.
pub struct ListRows {
    pub rows: Vec<Vec<Span>>,
    pub selected: Option<usize>,
    pub offset: usize,
}

/// The colour of headings of a level.
pub fn heading_color(level: u8) -> (color: Color)
    ensures
        color == color_of_level(level as int),
{
    match level {
        1 => Color::LightRed,
        2 => Color::LightYellow,
        3 => Color::LightGreen,
        4 => Color::LightCyan,
        5 => Color::LightBlue,
        6 => Color::LightMagenta,
        _ => Color::White,
    }
}

/// A path and a line, as `path:line`.
pub fn place_label(path: &[u8], line: usize) -> (s: String)
    ensures
        s@ == place_text(path@, line as nat),
{
    lossy_text(path).concat(":").concat(number(line).as_str())
}

/// The row of an item.
pub fn item_to_line(item: &Item) -> (line: Vec<Span>)
    ensures
        span_views(line@) == item_spans(item@),
{
    let mut line: Vec<Span> = Vec::new();
    match &item.kind {
        ItemKind::Heading(level, text) => {
            let style = bold(heading_color(*level));
            add_span(&mut line, repeated('#', *level as usize), style);
            add_span(&mut line, " ".to_string(), plain());
            add_span(&mut line, text.clone(), style);
            if *level == 1 {
                add_span(&mut line, "  ".to_string(), plain());
                add_span(
                    &mut line,
                    place_label(item.path.as_slice(), item.line),
                    colored(Color::DarkGray),
                );
            }
        },
        ItemKind::Task { done, indent, body } => {
            let pad: usize = if *indent < MAX_INDENT {
                *indent
            } else {
                MAX_INDENT
            };
            add_span(&mut line, repeated(' ', pad), plain());
            if *done {
                add_span(&mut line, "[x]".to_string(), colored(Color::Green));
                add_span(&mut line, " ".to_string(), plain());
                add_span(&mut line, body.clone(), dim());
            } else {
                add_span(&mut line, "[ ]".to_string(), colored(Color::Red));
                add_span(&mut line, " ".to_string(), plain());
                add_span(&mut line, body.clone(), colored(Color::White));
            }
        },
    }
    assert(span_views(line@) =~= item_spans(item@));
    line
}

/// How many of the items are headings, tasks, and tasks that are done.
fn count_items(items: &Vec<Item>) -> (counts: (usize, usize, usize))
    ensures
        counts.0 == heading_count(item_views(items@)),
        counts.1 == task_count(item_views(items@)),
        counts.2 == done_count(item_views(items@)),
        counts.2 <= counts.1,
{
    let ghost views = item_views(items@);
    let mut headings: usize = 0;
    let mut tasks: usize = 0;
    let mut done: usize = 0;
    let mut i: usize = 0;
    while i < items.len()
        invariant
            views == item_views(items@),
            i <= items@.len(),
            headings == heading_count(views.take(i as int)),
            tasks == task_count(views.take(i as int)),
            done == done_count(views.take(i as int)),
            headings <= i,
            done <= tasks <= i,
        decreases items.len() - i,
    {
        assert(views.take(i + 1).drop_last() == views.take(i as int));
        assert(views.take(i + 1).last() == items@[i as int]@);
        match &items[i].kind {
            ItemKind::Heading(_, _) => {
                headings += 1;
            },
            ItemKind::Task { done: d, .. } => {
                tasks += 1;
                if *d {
                    done += 1;
                }
            },
        }
        i += 1;
    }
    assert(views.take(views.len() as int) == views);
    (headings, tasks, done)
}

/// The hundredths of `tasks` that `done` are.
pub fn percentage(done: usize, tasks: usize) -> (p: usize)
    requires
        done <= tasks,
    ensures
        p == percent(done as nat, tasks as nat),
        p <= 100,
{
    if tasks == 0 {
        return 0;
    }
    let hundredths: u128 = done as u128 * 100;
    let p: u128 = hundredths / (tasks as u128);
    proof {
        assert(p <= 100) by (nonlinear_arith)
            requires
                p == (done * 100) / (tasks as int),
                0 <= done <= tasks,
                tasks > 0,
        ;
    }
    p as usize
}

/// The header.
pub fn render_header(app: &App) -> (line: Vec<Span>)
    ensures
        span_views(line@) == header_spans(app.views()),
{
    let (headings, tasks, done) = count_items(&app.items);
    let p = percentage(done, tasks);
    let mut line: Vec<Span> = Vec::new();
    add_span(
        &mut line,
        " md-scan ".to_string(),
        Style { fg: Some(Color::Black), bg: Some(Color::Cyan), bold: true, dim: false },
    );
    add_span(&mut line, " ".to_string(), plain());
    add_span(
        &mut line,
        "Total ".to_string().concat(number(app.items.len()).as_str()),
        colored(Color::White),
    );
    add_span(&mut line, "  ".to_string(), plain());
    add_span(
        &mut line,
        "Heading ".to_string().concat(number(headings).as_str()),
        colored(Color::Yellow),
    );
    add_span(&mut line, "  ".to_string(), plain());
    add_span(
        &mut line,
        "Task ".to_string().concat(number(done).as_str()).concat("/").concat(
            number(tasks).as_str(),
        ).concat(" (").concat(number(p).as_str()).concat("%)"),
        colored(Color::Green),
    );
    assert(span_views(line@) =~= header_spans(app.views()));
    line
}

/// The rows of the list, with the selection as a place among the rows.
pub fn render_list(app: &App) -> (list: ListRows)
    ensures
        list.rows@.len() == app.visible().len(),
        forall|k: int|
            0 <= k < list.rows@.len() ==> span_views((#[trigger] list.rows@[k])@) == item_spans(
                app.views()[app.visible()[k] as int],
            ),
        place(app.visible(), app.state.selected) == match list.selected {
            Some(k) => Some(k as int),
            None => None,
        },
        list.offset == app.state.offset,
{
    let vis = app.visible_indices();
    let mut rows: Vec<Vec<Span>> = Vec::new();
    let mut k: usize = 0;
    while k < vis.len()
        invariant
            k <= vis@.len(),
            vis@ == app.visible(),
            rows@.len() == k,
            forall|j: int|
                0 <= j < k ==> span_views((#[trigger] rows@[j])@) == item_spans(
                    app.views()[app.visible()[j] as int],
                ),
        decreases vis.len() - k,
    {
        proof {
            assert(app.views().len() == app.items.len());
            lemma_visible_in_range(app.views(), app.hide_done, k as int);
        }
        rows.push(item_to_line(&app.items[vis[k]]));
        k += 1;
    }
    let selected = match app.state.selected {
        Some(index) => position_of(&vis, index),
        None => None,
    };
    ListRows { rows, selected, offset: app.state.offset }
}

/// The style of the frame round the list.
pub fn border_style() -> (style: Style)
    ensures
        style == color_style(Color::DarkGray),
{
    colored(Color::DarkGray)
}

/// The style of the selected row.
pub fn highlight_style() -> (style: Style)
    ensures
        style == (Style { fg: None, bg: Some(Color::Rgb(36, 44, 60)), bold: true, dim: false }),
{
    Style { fg: None, bg: Some(Color::Rgb(36, 44, 60)), bold: true, dim: false }
}

fn style_of_key(on: bool) -> (style: Style)
    ensures
        style == key_style(on),
{
    if on {
        bold(Color::Yellow)
    } else {
        colored(Color::DarkGray)
    }
}

/// Adds the keys to a line.
fn add_keys(line: &mut Vec<Span>, hide_done: bool, refreshing: bool)
    ensures
        span_views(final(line)@) == span_views(old(line)@) + key_spans(hide_done, refreshing),
{
    let ghost before = span_views(line@);
    add_span(
        line,
        "j/k · PgUp/PgDn · g/G · Enter 编辑 · ".to_string(),
        colored(Color::DarkGray),
    );
    add_span(line, "d 过滤".to_string(), style_of_key(hide_done));
    add_span(line, " · ".to_string(), colored(Color::DarkGray));
    add_span(line, "r 刷新".to_string(), style_of_key(refreshing));
    add_span(line, " · q 退出".to_string(), colored(Color::DarkGray));
    assert(span_views(line@) =~= before + key_spans(hide_done, refreshing));
}

/// The footer.
pub fn render_footer(app: &App) -> (line: Vec<Span>)
    ensures
        span_views(line@) == footer_spans(*app),
{
    let mut line: Vec<Span> = Vec::new();
    let refreshing = app.is_refreshing();
    if let Some(message) = &app.status {
        add_span(&mut line, " ".to_string(), plain());
        add_span(&mut line, message.clone(), colored(Color::LightYellow));
        add_span(&mut line, "  ".to_string(), plain());
        add_keys(&mut line, app.hide_done, refreshing);
    } else if let Some(item) = app.selected() {
        add_span(
            &mut line,
            " ".to_string().concat(place_label(item.path.as_slice(), item.line).as_str()).concat(
                " ",
            ),
            colored(Color::Cyan),
        );
        add_span(&mut line, "  ".to_string(), plain());
        add_keys(&mut line, app.hide_done, refreshing);
    } else {
        add_span(&mut line, " 没有找到任何标题或任务".to_string(), colored(Color::DarkGray));
    }
    assert(span_views(line@) =~= footer_spans(*app));
    line
}

} // verus!
