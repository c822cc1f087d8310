//! Where everything stands on the volume bar and on the LCD of a dial.
//!
//! The volume bar spans two keys, one above the other. The LCD has the icon on its
//! left, and on its right the title, a horizontal volume bar and the percentage.

use super::pixmap::{Pixmap, PixmapView, Rgba};
use super::shape::{
    law_distance_from_a_rounded_rectangle, law_pointer_by_the_distance,
    law_rounded_rectangles_are_symmetric, law_shapes_by_the_distance, zone_at, RoundRect, Shape,
    Zone,
};
use crate::text::{decimal, decimal_text, law_decimal_is_read_back, lemma_decimal, parsed_u32};
use vstd::prelude::*;
use vstd::string::*;

verus! {

/// The width and the height of a key.
pub const ICON_SIZE: u32 = 144;

/// The height of the volume bar's picture.
pub const TOTAL_HEIGHT: u32 = 288;

/// The column of the volume bar's left side.
pub const BAR_LEFT: u32 = 59;

/// The row of the volume bar's upper end.
pub const BAR_TOP: u32 = 24;

/// The width of the volume bar.
pub const BAR_WIDTH: u32 = 26;

/// The height of the volume bar.
pub const BAR_HEIGHT: u32 = 240;

/// The radius of the volume bar's pointer.
pub const POINTER_RADIUS: u32 = 20;

/// The thickness of the volume bar's outline and of its pointer's.
pub const OUTLINE_THICKNESS: u32 = 6;

/// The row of the volume bar's lower end.
pub const BAR_BOTTOM: u32 = 264;

/// The width of the LCD.
pub const LCD_WIDTH: u32 = 200;

/// The height of the LCD.
pub const LCD_HEIGHT: u32 = 100;

/// The largest width and height of the icon on the LCD.
pub const LCD_ICON_SIZE: u32 = 96;

/// The column and the row of the icon on the LCD.
pub const LCD_ICON_OFFSET: u32 = 2;

/// The column at which the title and the percentage begin.
pub const TITLE_LEFT: u32 = 106;

/// The width of the title and of the percentage.
pub const TITLE_WIDTH: u32 = 88;

/// The row at which the title begins.
pub const TITLE_TOP: u32 = 4;

/// The row at which the percentage begins.
pub const PERCENT_TOP: u32 = 68;

/// The column of the LCD's volume bar.
pub const LCD_BAR_LEFT: u32 = 108;

/// The width of the LCD's volume bar.
pub const LCD_BAR_WIDTH: u32 = 84;

/// A colour that hides what is under it.
pub open spec fn opaque(r: u8, g: u8, b: u8) -> Rgba {
    Rgba { r, g, b, a: 255 }
}

/// The colour of nothing.
pub open spec fn transparent() -> Rgba {
    Rgba { r: 0, g: 0, b: 0, a: 0 }
}

/// An empty picture for the volume bar.
pub fn blank_bar() -> (r: Pixmap)
    ensures
        r@ == PixmapView::filled(ICON_SIZE, TOTAL_HEIGHT, transparent()),
{
    Pixmap::filled(ICON_SIZE, TOTAL_HEIGHT, Rgba { r: 0, g: 0, b: 0, a: 0 })
}

/// The outline of the volume bar, in the middle of its picture.
pub open spec fn outline_shape() -> Shape {
    Shape::Outline {
        rect: RoundRect {
            x: ((ICON_SIZE - BAR_WIDTH) / 2) as u32,
            y: ((TOTAL_HEIGHT - BAR_HEIGHT) / 2) as u32,
            width: BAR_WIDTH,
            height: BAR_HEIGHT,
            radius: BAR_WIDTH / 2,
        },
        thickness: OUTLINE_THICKNESS,
        color: opaque(255, 255, 255),
    }
}

/// The outline of the volume bar, in the middle of its picture.
pub fn bar_outline() -> (r: Shape)
    ensures
        r == outline_shape(),
{
    Shape::Outline {
        rect: RoundRect {
            x: BAR_LEFT,
            y: BAR_TOP,
            width: BAR_WIDTH,
            height: BAR_HEIGHT,
            radius: BAR_WIDTH / 2,
        },
        thickness: OUTLINE_THICKNESS,
        color: Rgba { r: 255, g: 255, b: 255, a: 255 },
    }
}

/// The row at which the filled part of the volume bar begins: at the height of the
/// fill, but within the outline. A fill no higher than the outline is thick is not
/// seen.
pub open spec fn fill_top(fill_height: u32) -> int {
    if fill_height <= OUTLINE_THICKNESS {
        BAR_BOTTOM - OUTLINE_THICKNESS
    } else if BAR_BOTTOM - fill_height < BAR_TOP + OUTLINE_THICKNESS {
        BAR_TOP + OUTLINE_THICKNESS
    } else {
        BAR_BOTTOM - fill_height
    }
}

/// The filled part of the volume bar.
pub open spec fn fill_shape(fill_height: u32) -> Shape {
    Shape::Block {
        left: (BAR_LEFT + OUTLINE_THICKNESS) as u32,
        right: (BAR_LEFT + BAR_WIDTH - OUTLINE_THICKNESS + 1) as u32,
        top: fill_top(fill_height) as u32,
        bottom: (BAR_BOTTOM - OUTLINE_THICKNESS) as u32,
        color: opaque(255, 255, 255),
    }
}

/// The filled part of the volume bar. `fill_height` is how much of the bar's
/// height is filled.
pub fn bar_fill(fill_height: u32) -> (r: Shape)
    requires
        fill_height <= BAR_BOTTOM,
    ensures
        r == fill_shape(fill_height),
{
    let fill_y: u32 = BAR_BOTTOM - fill_height;
    let end: u32 = BAR_BOTTOM - OUTLINE_THICKNESS;
    let top: u32 = if fill_height <= OUTLINE_THICKNESS {
        end
    } else if fill_y < BAR_TOP + OUTLINE_THICKNESS {
        BAR_TOP + OUTLINE_THICKNESS
    } else {
        fill_y
    };
    Shape::Block {
        left: BAR_LEFT + OUTLINE_THICKNESS,
        right: BAR_LEFT + BAR_WIDTH - OUTLINE_THICKNESS + 1,
        top,
        bottom: end,
        color: Rgba { r: 255, g: 255, b: 255, a: 255 },
    }
}

/// The louder of two volumes fills every pixel that the other one fills.
pub proof fn law_fill_grows_with_the_volume(low: u32, high: u32, x: int, y: int)
    requires
        low <= high <= BAR_BOTTOM,
        zone_at(fill_shape(low), x, y) !is Keep,
    ensures
        zone_at(fill_shape(high), x, y) == zone_at(fill_shape(low), x, y),
{
}

/// The volume bar's pointer, at the upper end of the fill.
pub open spec fn pointer_shape(fill_height: u32) -> Shape {
    Shape::Pointer {
        x: ICON_SIZE / 2,
        y: (BAR_BOTTOM - fill_height) as u32,
        radius: POINTER_RADIUS,
        thickness: OUTLINE_THICKNESS,
        fill: opaque(0, 0, 0),
        outline: opaque(255, 255, 255),
    }
}

/// The volume bar's pointer, at the upper end of the fill.
pub fn bar_pointer(fill_height: u32) -> (r: Shape)
    requires
        fill_height <= BAR_BOTTOM,
    ensures
        r == pointer_shape(fill_height),
{
    Shape::Pointer {
        x: BAR_LEFT + BAR_WIDTH / 2,
        y: BAR_BOTTOM - fill_height,
        radius: POINTER_RADIUS,
        thickness: OUTLINE_THICKNESS,
        fill: Rgba { r: 0, g: 0, b: 0, a: 255 },
        outline: Rgba { r: 255, g: 255, b: 255, a: 255 },
    }
}

/// What the volume bar is made of, in the order in which it is drawn.
pub fn bar_shapes(fill_height: u32) -> (r: Vec<Shape>)
    requires
        fill_height <= BAR_BOTTOM,
    ensures
        r@ == seq![outline_shape(), fill_shape(fill_height), pointer_shape(fill_height)],
{
    let mut shapes: Vec<Shape> = Vec::new();
    shapes.push(bar_outline());
    shapes.push(bar_fill(fill_height));
    shapes.push(bar_pointer(fill_height));
    assert(shapes@ =~= seq![
        outline_shape(),
        fill_shape(fill_height),
        pointer_shape(fill_height),
    ]);
    shapes
}

/// The volume bar's picture as two pictures, one for each key.
pub fn split_bar(full: &Pixmap) -> (r: (Pixmap, Pixmap))
    requires
        full@.width == ICON_SIZE,
        full@.height == TOTAL_HEIGHT,
    ensures
        r.0@ == full@.row_range(0, ICON_SIZE),
        r.1@ == full@.row_range(ICON_SIZE as int, ICON_SIZE),
{
    (full.rows(0, ICON_SIZE), full.rows(ICON_SIZE, ICON_SIZE))
}

/// The two halves of the volume bar, put one above the other, are the whole of it.
pub proof fn law_halves_make_the_whole(full: PixmapView)
    requires
        full.is_complete(),
        full.width == ICON_SIZE,
        full.height == TOTAL_HEIGHT,
    ensures
        full.row_range(0, ICON_SIZE).is_complete(),
        full.row_range(ICON_SIZE as int, ICON_SIZE).is_complete(),
        full.row_range(0, ICON_SIZE).pixels + full.row_range(ICON_SIZE as int, ICON_SIZE).pixels
            == full.pixels,
        forall|x: int, y: int|
            0 <= x < ICON_SIZE && 0 <= y < ICON_SIZE ==> #[trigger] full.row_range(
                ICON_SIZE as int,
                ICON_SIZE,
            ).at(x, y) == full.at(x, y + ICON_SIZE),
{
    assert(full.row_range(0, ICON_SIZE).pixels + full.row_range(
        ICON_SIZE as int,
        ICON_SIZE,
    ).pixels =~= full.pixels);
}

/// The LCD before anything is drawn.
pub fn lcd_background() -> (r: Pixmap)
    ensures
        r@ == PixmapView::filled(LCD_WIDTH, LCD_HEIGHT, opaque(18, 18, 18)),
{
    Pixmap::filled(LCD_WIDTH, LCD_HEIGHT, Rgba { r: 18, g: 18, b: 18, a: 255 })
}

/// The LCD's volume bar, filled up to the column before `fill_end`: green, or grey
/// if muted.
pub open spec fn lcd_bar_shape(fill_end: u32, muted: bool) -> Shape {
    Shape::Bar {
        rect: RoundRect { x: LCD_BAR_LEFT, y: 44, width: LCD_BAR_WIDTH, height: 20, radius: 10 },
        fill_end,
        fill: if muted {
            opaque(90, 90, 90)
        } else {
            opaque(80, 200, 120)
        },
        track: opaque(40, 40, 40),
    }
}

/// The LCD's volume bar, filled up to the column before `fill_end`: green, or grey
/// if muted.
pub fn lcd_bar(fill_end: u32, muted: bool) -> (r: Shape)
    ensures
        r == lcd_bar_shape(fill_end, muted),
{
    Shape::Bar {
        rect: RoundRect { x: LCD_BAR_LEFT, y: 44, width: LCD_BAR_WIDTH, height: 20, radius: 10 },
        fill_end,
        fill: if muted {
            Rgba { r: 90, g: 90, b: 90, a: 255 }
        } else {
            Rgba { r: 80, g: 200, b: 120, a: 255 }
        },
        track: Rgba { r: 40, g: 40, b: 40, a: 255 },
    }
}

/// The light rounded border around the LCD.
pub open spec fn lcd_border_shape() -> Shape {
    Shape::Outline {
        rect: RoundRect { x: 0, y: 0, width: LCD_WIDTH, height: LCD_HEIGHT, radius: 12 },
        thickness: 2,
        color: opaque(200, 200, 200),
    }
}

/// The light rounded border around the LCD.
pub fn lcd_border() -> (r: Shape)
    ensures
        r == lcd_border_shape(),
{
    Shape::Outline {
        rect: RoundRect { x: 0, y: 0, width: LCD_WIDTH, height: LCD_HEIGHT, radius: 12 },
        thickness: 2,
        color: Rgba { r: 200, g: 200, b: 200, a: 255 },
    }
}

/// Everything outside of the LCD's border.
pub open spec fn lcd_surroundings_shape() -> Shape {
    Shape::Surroundings {
        rect: RoundRect { x: 0, y: 0, width: LCD_WIDTH, height: LCD_HEIGHT, radius: 12 },
    }
}

/// Everything outside of the LCD's border.
pub fn lcd_surroundings() -> (r: Shape)
    ensures
        r == lcd_surroundings_shape(),
{
    Shape::Surroundings {
        rect: RoundRect { x: 0, y: 0, width: LCD_WIDTH, height: LCD_HEIGHT, radius: 12 },
    }
}

/// One step of drawing the LCD.
#[derive(Debug)]
pub enum LcdStep {
    /// The title, at [`TITLE_TOP`].
    Title,
    /// The icon, at [`LCD_ICON_OFFSET`].
    Icon,
    /// A shape.
    Draw(Shape),
    /// The percentage, at [`PERCENT_TOP`].
    Percent(String),
    /// Dims everything that was drawn.
    Dim,
}

/// The mathematical content of an [`LcdStep`].
#[verifier::ext_equal]
pub enum LcdStepView {
    Title,
    Icon,
    Draw(Shape),
    Percent(Seq<char>),
    Dim,
}

impl View for LcdStep {
    type V = LcdStepView;

    open spec fn view(&self) -> LcdStepView {
        match self {
            LcdStep::Title => LcdStepView::Title,
            LcdStep::Icon => LcdStepView::Icon,
            LcdStep::Draw(shape) => LcdStepView::Draw(*shape),
            LcdStep::Percent(text) => LcdStepView::Percent(text@),
            LcdStep::Dim => LcdStepView::Dim,
        }
    }
}

/// The steps of drawing the LCD. What is outside of the border is cleared last,
/// and everything is dimmed before that if muted.
pub open spec fn lcd_plan(percent: i32, fill_end: u32, muted: bool) -> Seq<LcdStepView> {
    let content = seq![
        LcdStepView::Title,
        LcdStepView::Icon,
        LcdStepView::Draw(lcd_bar_shape(fill_end, muted)),
        LcdStepView::Percent(percent_text(percent)),
        LcdStepView::Draw(lcd_border_shape()),
    ];
    let shown = if muted {
        content.push(LcdStepView::Dim)
    } else {
        content
    };
    shown.push(LcdStepView::Draw(lcd_surroundings_shape()))
}

/// The steps of drawing the LCD, in order. `percent` is the volume, and the bar is
/// filled up to the column before `fill_end`.
pub fn lcd_steps(percent: i32, fill_end: u32, muted: bool) -> (r: Vec<LcdStep>)
    ensures
        r@.map_values(|s: LcdStep| s@) == lcd_plan(percent, fill_end, muted),
{
    let mut steps: Vec<LcdStep> = Vec::new();
    steps.push(LcdStep::Title);
    steps.push(LcdStep::Icon);
    steps.push(LcdStep::Draw(lcd_bar(fill_end, muted)));
    steps.push(LcdStep::Percent(percent_label(percent)));
    steps.push(LcdStep::Draw(lcd_border()));
    if muted {
        steps.push(LcdStep::Dim);
    }
    steps.push(LcdStep::Draw(lcd_surroundings()));
    assert(steps@.map_values(|s: LcdStep| s@) =~= lcd_plan(percent, fill_end, muted));
    steps
}

/// A whole number of percent, as it is shown.
pub open spec fn percent_text(percent: i32) -> Seq<char> {
    if percent < 0 {
        "-"@ + decimal((-percent) as nat) + "%"@
    } else {
        decimal(percent as nat) + "%"@
    }
}

/// A whole number of percent, as it is shown.
pub fn percent_label(percent: i32) -> (r: String)
    ensures
        r@ == percent_text(percent),
{
    if percent < 0 {
        let size: u32 = (-(percent as i64)) as u32;
        "-".to_owned().concat(&decimal_text(size)).concat("%")
    } else {
        decimal_text(percent as u32).concat("%")
    }
}

/// How much of a text is shown, if `fits` tells of each number of characters
/// whether the text fits when cut down to that many: the largest such number, or
/// nothing.
pub open spec fn fitting_length(fits: Seq<bool>, n: int) -> int
    decreases n,
{
    if n <= 0 {
        0
    } else if n < fits.len() && fits[n] {
        n
    } else {
        fitting_length(fits, n - 1)
    }
}

/// A text, cut down from its end until it fits. `fits` tells of each number of
/// characters whether the text fits when cut down to that many.
pub fn fit_text<'a>(text: &'a str, fits: &[bool]) -> (r: &'a str)
    ensures
        r@ == text@.take(fitting_length(fits@, text@.len() as int)),
{
    let mut n: usize = text.unicode_len();
    let ghost whole = fitting_length(fits@, n as int);
    while n > 0 && !(n < fits.len() && fits[n])
        invariant
            n <= text@.len(),
            fitting_length(fits@, n as int) == whole,
        decreases n,
    {
        n -= 1;
    }
    assert(text@.subrange(0, n as int) =~= text@.take(n as int));
    text.substring_char(0, n)
}

/// A text that fits is shown whole. What is shown fits, unless it is empty, and
/// nothing longer would.
pub proof fn law_longest_fitting_start_is_shown(fits: Seq<bool>, n: int)
    requires
        0 <= n,
    ensures
        0 <= fitting_length(fits, n) <= n,
        n < fits.len() && fits[n] ==> fitting_length(fits, n) == n,
        fitting_length(fits, n) > 0 ==> fits[fitting_length(fits, n)],
        forall|k: int| fitting_length(fits, n) < k <= n && k < fits.len() ==> !#[trigger] fits[k],
    decreases n,
{
    if n > 0 && !(n < fits.len() && fits[n]) {
        law_longest_fitting_start_is_shown(fits, n - 1);
    }
}

/// The volume bar stands in the middle of its two keys, and its ends are round.
pub proof fn law_bar_stands_in_the_middle()
    ensures
        outline_shape() matches Shape::Outline { rect, thickness, color } && {
            &&& rect.x + rect.width + rect.x == 144
            &&& rect.y + rect.height + rect.y == 288
            &&& rect.width == 26
            &&& rect.height == 240
            &&& 2 * rect.radius == rect.width
            &&& thickness == 6
            &&& color == Rgba { r: 255, g: 255, b: 255, a: 255 }
        },
{
}

/// The fill is white between the sides of the bar's outline, from its lower end up to
/// the height of the volume, as far as the outline leaves room.
pub proof fn law_fill_is_as_high_as_the_volume(fill_height: u32, x: int, y: int)
    requires
        fill_height <= 264,
    ensures
        zone_at(fill_shape(fill_height), x, y) == (if 65 <= x < 80 && 30 <= y < 258 && y >= 264
            - fill_height {
            Zone::Solid(Rgba { r: 255, g: 255, b: 255, a: 255 })
        } else {
            Zone::Keep
        }),
{
}

/// The pointer is a black disc with a white rim around the upper end of the fill.
pub proof fn law_pointer_stands_at_the_volume(fill_height: u32, x: int, y: int)
    requires
        fill_height <= 264,
    ensures
        ({
            let zone = zone_at(pointer_shape(fill_height), x, y);
            let down = y - (264 - fill_height);
            let square = (x - 72) * (x - 72) + down * down;
            let black = Rgba { r: 0, g: 0, b: 0, a: 255 };
            let white = Rgba { r: 255, g: 255, b: 255, a: 255 };
            &&& square < 169 ==> zone == Zone::Solid(black)
            &&& 169 <= square < 196 ==> zone == Zone::Edge(black)
            &&& 196 < square < 225 ==> zone == Zone::Edge(white)
            &&& 225 <= square <= 361 ==> zone == Zone::Solid(white)
            &&& 361 < square < 400 ==> zone == Zone::Edge(white)
            &&& square >= 400 || square == 196 ==> zone is Keep
        }),
{
    let black = Rgba { r: 0, g: 0, b: 0, a: 255 };
    let white = Rgba { r: 255, g: 255, b: 255, a: 255 };
    let row = (264 - fill_height) as u32;
    assert(row == 264 - fill_height);
    assert(13int * 13 == 169 && 14int * 14 == 196 && 15int * 15 == 225 && 19int * 19 == 361 && 20int
        * 20 == 400) by (nonlinear_arith);
    assert(pointer_shape(fill_height) == (Shape::Pointer {
        x: 72,
        y: row,
        radius: 20,
        thickness: 6,
        fill: black,
        outline: white,
    }));
    law_pointer_by_the_distance(72, row, 20, 6, black, white, x, y);
}

/// The straight part of the LCD's bar is green up to the column before `fill_end`, or
/// grey if muted, and dark from there on. Above and below nothing is drawn.
pub proof fn law_lcd_bar_is_filled_up_to_its_end(fill_end: u32, muted: bool, x: int, y: int)
    requires
        118 <= x < 182,
    ensures
        ({
            let zone = zone_at(lcd_bar_shape(fill_end, muted), x, y);
            &&& 44 <= y < 64 ==> zone == Zone::Solid(
                if x >= fill_end {
                    Rgba { r: 40, g: 40, b: 40, a: 255 }
                } else if muted {
                    Rgba { r: 90, g: 90, b: 90, a: 255 }
                } else {
                    Rgba { r: 80, g: 200, b: 120, a: 255 }
                },
            )
            &&& y < 43 || y > 64 ==> zone is Keep
        }),
{
    let rect = RoundRect { x: 108, y: 44, width: 84, height: 20, radius: 10 };
    let dark = Rgba { r: 40, g: 40, b: 40, a: 255 };
    law_shapes_by_the_distance(rect, 0, fill_end, dark, dark, x, y);
    law_distance_from_a_rounded_rectangle(rect, 2 * x + 1, 2 * y + 1, 1, false);
    law_distance_from_a_rounded_rectangle(rect, 2 * x + 1, 2 * y + 1, -1, false);
    law_distance_from_a_rounded_rectangle(rect, 2 * x + 1, 215 - 2 * y, 1, false);
    law_distance_from_a_rounded_rectangle(rect, 2 * x + 1, 215 - 2 * y, -1, false);
    law_rounded_rectangles_are_symmetric(rect, 2 * x + 1, 2 * y + 1, 1, false);
    law_rounded_rectangles_are_symmetric(rect, 2 * x + 1, 2 * y + 1, -1, false);
}

/// Whatever the volume, the border is drawn over the icon, the title, the bar and the
/// percentage, the LCD is dimmed after all of them exactly if muted, and what is
/// outside of the border is cleared last.
pub proof fn law_order_of_drawing_the_lcd(percent: i32, fill_end: u32, muted: bool)
    ensures
        ({
            let plan = lcd_plan(percent, fill_end, muted);
            let border = RoundRect { x: 0, y: 0, width: 200, height: 100, radius: 12 };
            let gray = Rgba { r: 200, g: 200, b: 200, a: 255 };
            &&& plan.len() == if muted { 7int } else { 6int }
            &&& plan[0] == LcdStepView::Title
            &&& plan[1] == LcdStepView::Icon
            &&& plan[2] == LcdStepView::Draw(lcd_bar_shape(fill_end, muted))
            &&& plan[3] == LcdStepView::Percent(percent_text(percent))
            &&& plan[4] == LcdStepView::Draw(
                Shape::Outline { rect: border, thickness: 2, color: gray },
            )
            &&& muted ==> plan[5] == LcdStepView::Dim
            &&& plan.last() == LcdStepView::Draw(Shape::Surroundings { rect: border })
        }),
{
}

/// A number of percent is shown as its digits and a percent sign, with a minus sign
/// before a negative one: reading the digits gives the number.
pub proof fn law_percentage_is_read_back(percent: i32)
    ensures
        ({
            let text = percent_text(percent);
            let size = (if percent < 0 {
                -percent
            } else {
                percent as int
            }) as u32;
            &&& text.len() > 1
            &&& text.last() == '%'
            &&& percent >= 0 ==> parsed_u32(text.drop_last()) == Some(size)
            &&& percent < 0 ==> text[0] == '-' && parsed_u32(text.drop_last().skip(1)) == Some(size)
        }),
{
    reveal_strlit("%");
    reveal_strlit("-");
    let text = percent_text(percent);
    let size = (if percent < 0 {
        -percent
    } else {
        percent as int
    }) as u32;
    law_decimal_is_read_back(size);
    lemma_decimal(size as nat);
    if percent < 0 {
        assert(text.drop_last().skip(1) =~= decimal(size as nat));
    } else {
        assert(text.drop_last() =~= decimal(size as nat));
    }
}

} // verus!
