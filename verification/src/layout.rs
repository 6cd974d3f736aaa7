//! Where on the screen the header, the list and the footer stand.
use ratatui::layout::{Constraint, Direction, Layout, Rect};
use vstd::prelude::*;

verus! {

/// A rectangle of the screen.
#[derive(Debug, Clone, Copy, PartialEq, Eq, Structural)]
pub struct Area {
    pub x: u16,
    pub y: u16,
    pub width: u16,
    pub height: u16,
}

/// How high a band of the screen is to be.
#[derive(Debug, Clone, Copy, PartialEq, Eq, Structural)]
pub enum Height {
    /// As many rows.
    Exactly(u16),
    /// As many rows, or more where there are more.
    AtLeast(u16),
}

/// The parts of the screen.
#[derive(Debug, Clone, Copy, PartialEq, Eq, Structural)]
pub struct Screen {
    pub header: Area,
    pub list: Area,
    pub footer: Area,
}

/// The rows that a band needs.
pub open spec fn rows_needed(height: Height) -> int {
    match height {
        Height::Exactly(n) => n as int,
        Height::AtLeast(n) => n as int,
    }
}

/// The rows that all bands need together.
pub open spec fn all_rows_needed(heights: Seq<Height>) -> int
    decreases heights.len(),
{
    if heights.len() == 0 {
        0
    } else {
        all_rows_needed(heights.drop_last()) + rows_needed(heights.last())
    }
}

/// The row below an area; rows are counted up to `u16::MAX`.
pub open spec fn bottom(area: Area) -> int {
    if area.y + area.height <= u16::MAX {
        area.y + area.height
    } else {
        u16::MAX as int
    }
}

/// How many rows an area has.
pub open spec fn rows(area: Area) -> int {
    bottom(area) - area.y
}

/// Whether these are a few bands, at most one of which can take spare rows.
pub open spec fn few_bands(heights: Seq<Height>) -> bool {
    &&& heights.len() <= 3
    &&& forall|i: int|
        0 <= i < heights.len() ==> (#[trigger] heights[i] matches Height::AtLeast(n) ==> n
            <= i16::MAX)
    &&& forall|i: int, j: int|
        0 <= i < j < heights.len() ==> !(#[trigger] heights[i] is AtLeast
            && #[trigger] heights[j] is AtLeast)
}

/// The row at which a band starts: the first at the top, and each where the one before ends.
pub open spec fn top(area: Area, bands: Seq<Area>, i: int) -> int {
    if i == 0 {
        area.y as int
    } else {
        bands[i - 1].y + bands[i - 1].height
    }
}

/// Whether a band is as high as it is to be.
pub open spec fn high_enough(height: Height, band: Area) -> bool {
    match height {
        Height::Exactly(n) => band.height == n,
        Height::AtLeast(n) => band.height >= n,
    }
}

/// `Layout::split` of the `ratatui` crate, for a few bands from top to bottom: one rectangle
/// for each height, all as wide as the area and as far to the right. The first starts at the
/// top and each starts where the one before ends; with a `Min` among them the last ends where
/// the area ends, for a `Min` takes the spare rows. Where there is room for all, a `Length` is
/// met exactly and a `Min` at least. Where there is not, the `Min` comes first: it gets its
/// rows, as far as there are any, and no more. How the others share what is left then is not
/// said here.
#[verifier::external_body]
pub(crate) fn split_bands(area: Area, heights: &Vec<Height>) -> (bands: Vec<Area>)
    requires
        few_bands(heights@),
    ensures
        bands@.len() == heights@.len(),
        forall|i: int|
            0 <= i < bands@.len() ==> (#[trigger] bands@[i]).x == area.x && bands@[i].width
                == area.width,
        forall|i: int| 0 <= i < bands@.len() ==> (#[trigger] bands@[i]).y == top(area, bands@, i),
        (exists|k: int| 0 <= k < heights@.len() && #[trigger] heights@[k] is AtLeast)
            ==> bands@.last().y + bands@.last().height == bottom(area),
        all_rows_needed(heights@) <= rows(area) ==> forall|i: int|
            0 <= i < bands@.len() ==> high_enough(heights@[i], #[trigger] bands@[i]),
        all_rows_needed(heights@) > rows(area) ==> forall|i: int|
            0 <= i < bands@.len() ==> (heights@[i] matches Height::AtLeast(n) ==> (
            #[trigger] bands@[i]).height == if n <= rows(area) {
                n as int
            } else {
                rows(area)
            }),
{
    let constraints = heights.iter().map(
        |h| match h {
            Height::Exactly(n) => Constraint::Length(*n),
            Height::AtLeast(n) => Constraint::Min(*n),
        },
    );
    let Area { x, y, width, height } = area;
    let layout = Layout::default().direction(Direction::Vertical).constraints(constraints);
    let rects = layout.split(Rect { x, y, width, height });
    rects.iter().map(|r| Area { x: r.x, y: r.y, width: r.width, height: r.height }).collect()
}

/// The heights of the header, the list and the footer: the list has what the two lines leave.
pub fn band_heights() -> (heights: Vec<Height>)
    ensures
        heights@ == seq![Height::Exactly(1), Height::AtLeast(1), Height::Exactly(1)],
{
    let mut heights: Vec<Height> = Vec::new();
    heights.push(Height::Exactly(1));
    heights.push(Height::AtLeast(1));
    heights.push(Height::Exactly(1));
    heights
}

/// The parts of the screen, from top to bottom.
pub fn screen_of(bands: &Vec<Area>) -> (screen: Screen)
    requires
        bands@.len() == 3,
    ensures
        screen.header == bands@[0],
        screen.list == bands@[1],
        screen.footer == bands@[2],
{
    Screen { header: bands[0], list: bands[1], footer: bands[2] }
}

/// The parts of the screen, one below the other from its top to its bottom. Where it has three
/// rows or more, the header is its first row, the footer its last, and the list has all rows
/// between. Where it has fewer, the list has one as long as there is one, and the other, if
/// there is another, is the header or the footer.
pub fn ui(area: Area) -> (screen: Screen)
    ensures
        screen.header.x == area.x && screen.header.width == area.width,
        screen.list.x == area.x && screen.list.width == area.width,
        screen.footer.x == area.x && screen.footer.width == area.width,
        screen.header.y == area.y,
        screen.list.y == screen.header.y + screen.header.height,
        screen.footer.y == screen.list.y + screen.list.height,
        screen.footer.y + screen.footer.height == bottom(area),
        rows(area) >= 3 ==> {
            &&& screen.header.height == 1
            &&& screen.list.height == rows(area) - 2
            &&& screen.footer.height == 1
        },
        1 <= rows(area) < 3 ==> screen.list.height == 1,
{
    let heights = band_heights();
    proof {
        assert(heights@[0] is Exactly && heights@[1] is AtLeast && heights@[2] is Exactly);
        reveal_with_fuel(all_rows_needed, 4);
        assert(all_rows_needed(heights@) == 3);
    }
    let bands = split_bands(area, &heights);
    proof {
        assert(bands@[0].y == top(area, bands@, 0));
        assert(bands@[1].y == top(area, bands@, 1));
        assert(bands@[2].y == top(area, bands@, 2));
        if rows(area) >= 3 {
            assert(high_enough(heights@[0], bands@[0]));
            assert(high_enough(heights@[2], bands@[2]));
        }
    }
    screen_of(&bands)
}

/// The screen is the header, the list and the footer, one below the other and all as wide as the
/// screen; on three rows or more the header and the footer have one row each.
pub proof fn law_the_screen_has_three_parts(area: Area, screen: Screen)
    requires
        call_ensures(ui, (area,), screen),
        area.y + area.height <= u16::MAX,
    ensures
        screen.header.x == area.x && screen.list.x == area.x && screen.footer.x == area.x,
        screen.header.width == area.width && screen.list.width == area.width
            && screen.footer.width == area.width,
        screen.header.y == area.y,
        screen.list.y == area.y + screen.header.height,
        screen.footer.y == screen.list.y + screen.list.height,
        screen.header.height + screen.list.height + screen.footer.height == area.height,
        area.height >= 3 ==> screen.header.height == 1 && screen.footer.height == 1,
        1 <= area.height < 3 ==> screen.list.height == 1,
{
}

} // verus!
