//! What holds of everything that is shown.
use vstd::prelude::*;

#[allow(unused_imports)]
use crate::app::{lemma_position, lemma_visible, lemma_visible_in_range, place, shown, App};
#[allow(unused_imports)]
use crate::app_laws::done_task;
#[allow(unused_imports)]
use crate::item::{item_views, Item, ItemView, KindView};
#[allow(unused_imports)]
use crate::path::path_text;
#[allow(unused_imports)]
use crate::render::{
    border_style, color_of_level, done_count, footer_spans, header_spans, heading_count,
    highlight_style, item_spans, item_to_line, percent, place_text, render_footer, render_header,
    render_list, task_count, ListRows, HIGHLIGHT_SYMBOL,
};
#[allow(unused_imports)]
use crate::style::{
    bold_style, color_style, dim_style, plain_style, span_views, Color, Span, SpanView, Style,
};
#[allow(unused_imports)]
use crate::text::decimal;

verus! {

/// Every item is counted once, as a heading or as a task, and no more tasks are done than
/// there are.
pub proof fn law_counts_add_up(items: Seq<ItemView>)
    ensures
        heading_count(items) + task_count(items) == items.len(),
        done_count(items) <= task_count(items),
    decreases items.len(),
{
    if items.len() > 0 {
        law_counts_add_up(items.drop_last());
    }
}

/// The share of tasks that are done is at most 100 percent, and is 100 percent only when
/// all of them are done.
pub proof fn law_percent(items: Seq<ItemView>)
    ensures
        percent(done_count(items), task_count(items)) <= 100,
        percent(done_count(items), task_count(items)) == 100 <==> task_count(items) > 0
            && done_count(items) == task_count(items),
{
    law_counts_add_up(items);
    let done = done_count(items) as int;
    let tasks = task_count(items) as int;
    if tasks > 0 {
        assert(done * 100 / tasks <= 100) by (nonlinear_arith)
            requires
                0 <= done <= tasks,
                tasks > 0,
        ;
        assert(done * 100 / tasks == 100 <==> done == tasks) by (nonlinear_arith)
            requires
                0 <= done <= tasks,
                tasks > 0,
        ;
    }
}

/// The row that is highlighted is that of the selected item, and there is one whenever the
/// list has rows.
pub proof fn law_highlight_is_on_the_selection(app: App)
    requires
        app.wf(),
    ensures
        app.visible().len() > 0 <==> place(app.visible(), app.state.selected) is Some,
        place(app.visible(), app.state.selected) matches Some(row) ==> 0 <= row
            < app.visible().len() && app.state.selected == Some(app.visible()[row]),
{
    if let Some(index) = app.state.selected {
        lemma_position(app.visible(), index);
    }
}

/// The selected item exists, and the filter does not leave it out.
pub proof fn law_selection_is_an_item(app: App)
    requires
        app.wf(),
    ensures
        app.state.selected matches Some(index) ==> index < app.views().len() && shown(
            app.views()[index as int],
            app.hide_done,
        ),
{
    if let Some(index) = app.state.selected {
        assert(app.views().len() == app.items.len());
        lemma_visible(app.views(), app.hide_done, index as int);
    }
}

/// What is counted are the headings, the tasks, and the tasks that are done, of all items.
pub proof fn law_counts_are_of_all_items(items: Seq<ItemView>)
    ensures
        heading_count(items) == items.filter(|x: ItemView| x.kind is Heading).len(),
        task_count(items) == items.filter(|x: ItemView| x.kind is Task).len(),
        done_count(items) == items.filter(|x: ItemView| done_task(x)).len(),
    decreases items.len(),
{
    reveal(Seq::filter);
    if items.len() > 0 {
        law_counts_are_of_all_items(items.drop_last());
    }
}

/// The share of tasks that are done is the greatest number of hundredths of the tasks that is not
/// more than them.
pub proof fn law_percent_is_rounded_down(done: nat, tasks: nat)
    ensures
        tasks > 0 ==> percent(done, tasks) * tasks <= done * 100 < (percent(done, tasks) + 1)
            * tasks,
        tasks == 0 ==> percent(done, tasks) == 0,
{
    if tasks > 0 {
        let x = (done * 100) as int;
        let t = tasks as int;
        let p = x / t;
        vstd::arithmetic::div_mod::lemma_fundamental_div_mod(x, t);
        vstd::arithmetic::div_mod::lemma_mod_bound(x, t);
        assert(p * t == t * p && (p + 1) * t == t * p + t) by (nonlinear_arith);
        assert(p >= 0) by (nonlinear_arith)
            requires
                p == x / t,
                x >= 0,
                t > 0,
        ;
        assert(percent(done, tasks) == p);
    }
}

/// A style has the colour that it is named after, and is bold or dim as it says.
pub proof fn law_styles_are_what_they_say(color: Color)
    ensures
        plain_style() == (Style { fg: None, bg: None, bold: false, dim: false }),
        color_style(color) == (Style { fg: Some(color), bg: None, bold: false, dim: false }),
        bold_style(color) == (Style { fg: Some(color), bg: None, bold: true, dim: false }),
        dim_style() == (Style { fg: None, bg: None, bold: false, dim: true }),
{
}

/// Each level of headings has its colour.
pub proof fn law_levels_have_their_colors(level: int)
    ensures
        color_of_level(1) == Color::LightRed,
        color_of_level(2) == Color::LightYellow,
        color_of_level(3) == Color::LightGreen,
        color_of_level(4) == Color::LightCyan,
        color_of_level(5) == Color::LightBlue,
        color_of_level(6) == Color::LightMagenta,
        level < 1 || level > 6 ==> color_of_level(level) == Color::White,
{
}

/// A place is shown as the path, a colon, and the line in base ten.
pub proof fn law_places_are_path_and_line(path: Seq<u8>, line: nat)
    ensures
        place_text(path, line) == path_text(path) + ":"@ + decimal(line),
{
}

/// The row of a heading is as many hashes as its level, a space and its title, all but the space
/// bold and in the colour of the level. For the first level, and no other, two spaces and the
/// place of the item follow in grey.
pub proof fn law_the_row_of_a_heading(path: Seq<u8>, line: nat, level: nat, title: Seq<char>)
    ensures
        ({
            let row = item_spans(ItemView { path, line, kind: KindView::Heading(level, title) });
            let grey = Style { fg: Some(Color::DarkGray), bg: None, bold: false, dim: false };
            &&& row.len() == if level == 1 {
                5
            } else {
                3int
            }
            &&& row[0].text.len() == level
            &&& forall|i: int| 0 <= i < level ==> #[trigger] row[0].text[i] == '#'
            &&& row[0].style == (Style {
                fg: Some(color_of_level(level as int)),
                bg: None,
                bold: true,
                dim: false,
            })
            &&& row[1].text == " "@ && row[1].style == plain_style()
            &&& row[2].text == title && row[2].style == row[0].style
            &&& level == 1 ==> row[3].text == "  "@ && row[3].style == plain_style()
            &&& level == 1 ==> row[4].text == path_text(path) + ":"@ + decimal(line)
                && row[4].style == grey
        }),
{
}

/// The row of a task is as many spaces as it is indented, but no more than 24, its box, a space
/// and its text. A task that is done has a crossed box in green and a dim text, an open one an
/// empty box in red and a white text.
pub proof fn law_the_row_of_a_task(
    path: Seq<u8>,
    line: nat,
    done: bool,
    indent: nat,
    body: Seq<char>,
)
    ensures
        ({
            let kind = KindView::Task { done, indent, body };
            let row = item_spans(ItemView { path, line, kind });
            &&& row.len() == 4
            &&& row[0].text.len() <= 24
            &&& indent <= 24 ==> row[0].text.len() == indent
            &&& indent > 24 ==> row[0].text.len() == 24
            &&& forall|i: int| 0 <= i < row[0].text.len() ==> #[trigger] row[0].text[i] == ' '
            &&& row[0].style == plain_style()
            &&& row[2].text == " "@ && row[2].style == plain_style()
            &&& row[3].text == body
            &&& done ==> {
                &&& row[1].text == "[x]"@
                &&& row[1].style.fg == Some(Color::Green)
                &&& row[3].style == (Style { fg: None, bg: None, bold: false, dim: true })
            }
            &&& !done ==> {
                &&& row[1].text == "[ ]"@
                &&& row[1].style.fg == Some(Color::Red)
                &&& row[3].style.fg == Some(Color::White) && !row[3].style.dim
            }
            &&& row[1].style.bg is None && !row[1].style.bold && !row[1].style.dim
            &&& row[3].style.bg is None && !row[3].style.bold
        }),
{
}

/// The header reads `md-scan`, how many items there are, how many headings, and how many tasks
/// are done of how many, with the share of them; all items count, whether the filter leaves them
/// out or not.
pub proof fn law_what_the_header_reads(items: Seq<ItemView>)
    ensures
        ({
            let row = header_spans(items);
            let tasks = items.filter(|x: ItemView| x.kind is Task).len();
            let done = items.filter(|x: ItemView| done_task(x)).len();
            &&& row.len() == 7
            &&& row[0].text == " md-scan "@
            &&& row[0].style == (Style {
                fg: Some(Color::Black),
                bg: Some(Color::Cyan),
                bold: true,
                dim: false,
            })
            &&& row[1].text == " "@ && row[3].text == "  "@ && row[5].text == "  "@
            &&& row[1].style == plain_style() && row[3].style == plain_style() && row[5].style
                == plain_style()
            &&& row[2].text == "Total "@ + decimal(items.len())
            &&& row[2].style == (Style {
                fg: Some(Color::White),
                bg: None,
                bold: false,
                dim: false,
            })
            &&& row[4].text == "Heading "@ + decimal(
                items.filter(|x: ItemView| x.kind is Heading).len(),
            )
            &&& row[4].style == (Style {
                fg: Some(Color::Yellow),
                bg: None,
                bold: false,
                dim: false,
            })
            &&& row[6].text == "Task "@ + decimal(done) + "/"@ + decimal(tasks) + " ("@ + decimal(
                percent(done, tasks),
            ) + "%)"@
            &&& row[6].style == (Style {
                fg: Some(Color::Green),
                bg: None,
                bold: false,
                dim: false,
            })
        }),
{
    law_counts_are_of_all_items(items);
}

/// Whether these are the keys: grey, but for the filter and the refresh while they are on, which
/// are bold and yellow.
pub open spec fn are_the_keys(row: Seq<SpanView>, hide_done: bool, refreshing: bool) -> bool {
    let grey = Style { fg: Some(Color::DarkGray), bg: None, bold: false, dim: false };
    let on = Style { fg: Some(Color::Yellow), bg: None, bold: true, dim: false };
    &&& row.len() == 5
    &&& row[0].text == "j/k · PgUp/PgDn · g/G · Enter 编辑 · "@ && row[0].style == grey
    &&& row[1].text == "d 过滤"@
    &&& row[1].style == if hide_done {
        on
    } else {
        grey
    }
    &&& row[2].text == " · "@ && row[2].style == grey
    &&& row[3].text == "r 刷新"@
    &&& row[3].style == if refreshing {
        on
    } else {
        grey
    }
    &&& row[4].text == " · q 退出"@ && row[4].style == grey
}

/// The footer reads the error, if there is one, and else the path and the line of the selected
/// item, of whichever kind; the keys follow. Where there is neither, it reads that nothing was
/// found.
pub proof fn law_what_the_footer_reads(app: App)
    ensures
        ({
            let row = footer_spans(app);
            let at = app.state.selected;
            match app.status {
                Some(message) => {
                    &&& row.len() == 8
                    &&& row[0].text == " "@ && row[0].style == plain_style()
                    &&& row[1].text == message@
                    &&& row[1].style == (Style {
                        fg: Some(Color::LightYellow),
                        bg: None,
                        bold: false,
                        dim: false,
                    })
                    &&& row[2].text == "  "@ && row[2].style == plain_style()
                    &&& are_the_keys(row.skip(3), app.hide_done, app.refreshing)
                },
                None => if at is Some && at->0 < app.items@.len() {
                    let item = app.items@[at->0 as int];
                    &&& row.len() == 7
                    &&& row[0].text == " "@ + (path_text(item.path@) + ":"@ + decimal(
                        item.line as nat,
                    )) + " "@
                    &&& row[0].style == (Style {
                        fg: Some(Color::Cyan),
                        bg: None,
                        bold: false,
                        dim: false,
                    })
                    &&& row[1].text == "  "@ && row[1].style == plain_style()
                    &&& are_the_keys(row.skip(2), app.hide_done, app.refreshing)
                } else {
                    &&& row.len() == 1
                    &&& row[0].text == " 没有找到任何标题或任务"@
                    &&& row[0].style == (Style {
                        fg: Some(Color::DarkGray),
                        bg: None,
                        bold: false,
                        dim: false,
                    })
                },
            }
        }),
{
    assert(app.views().len() == app.items@.len());
}

/// A piece of text is its text and its style, and a row its pieces in order.
pub proof fn law_rows_are_their_pieces(row: Seq<Span>)
    ensures
        span_views(row).len() == row.len(),
        forall|i: int|
            0 <= i < row.len() ==> (#[trigger] span_views(row)[i]).text == row[i].text@
                && span_views(row)[i].style == row[i].style,
{
}

/// The list shows one row for each item that the filter leaves in, in the order of the items, and
/// highlights the row of the selected item, if it has one. It goes on from where it was scrolled
/// to.
pub proof fn law_what_the_list_shows(app: App, list: ListRows)
    requires
        call_ensures(render_list, (&app,), list),
    ensures
        list.rows@.len() == app.visible().len(),
        forall|k: int|
            0 <= k < list.rows@.len() ==> span_views((#[trigger] list.rows@[k])@) == item_spans(
                app.items@[app.visible()[k] as int]@,
            ),
        list.selected matches Some(k) ==> k < app.visible().len() && app.state.selected == Some(
            app.visible()[k as int],
        ),
        list.selected is None ==> app.state.selected is None || !app.visible().contains(
            app.state.selected->0,
        ),
        list.offset == app.state.offset,
{
    assert(app.views().len() == app.items.len());
    if let Some(index) = app.state.selected {
        lemma_position(app.visible(), index);
    }
    assert forall|k: int| 0 <= k < list.rows@.len() implies span_views((#[trigger] list.rows@[k])@)
        == item_spans(app.items@[app.visible()[k] as int]@) by {
        lemma_visible_in_range(app.views(), app.hide_done, k);
    }
}

/// The frame is grey, the selected row bold on dark blue, with a mark in front.
pub proof fn law_how_the_list_is_framed(frame: Style, highlight: Style)
    requires
        call_ensures(border_style, (), frame),
        call_ensures(highlight_style, (), highlight),
    ensures
        frame == (Style { fg: Some(Color::DarkGray), bg: None, bold: false, dim: false }),
        highlight == (Style {
            fg: None,
            bg: Some(Color::Rgb(36, 44, 60)),
            bold: true,
            dim: false,
        }),
        HIGHLIGHT_SYMBOL@ == "> "@,
{
}

/// What is drawn of an item, of the header and of the footer are their rows.
pub proof fn law_rows_are_drawn_as_they_read(
    app: App,
    item: Item,
    row: Vec<Span>,
    header: Vec<Span>,
    footer: Vec<Span>,
)
    requires
        call_ensures(item_to_line, (&item,), row),
        call_ensures(render_header, (&app,), header),
        call_ensures(render_footer, (&app,), footer),
    ensures
        span_views(row@) == item_spans(item@),
        span_views(header@) == header_spans(item_views(app.items@)),
        span_views(footer@) == footer_spans(app),
{
}

} // verus!
