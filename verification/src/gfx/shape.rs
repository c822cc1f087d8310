//! Shapes, and which pixels they cover whole and which in part.
//!
//! Distances are counted in half pixels, so that the corner of a pixel and its
//! middle both have whole coordinates. Whether a distance is at most some number
//! is then a question about squares of whole numbers.

use super::pixmap::{law_position_of_pixel, Pixmap, PixmapView, Rgba};
use vstd::arithmetic::div_mod::lemma_fundamental_div_mod;
use vstd::prelude::*;

verus! {

/// A rectangle with rounded corners.
#[derive(Clone, Copy, PartialEq, Eq, Structural, Debug)]
pub struct RoundRect {
    pub x: u32,
    pub y: u32,
    pub width: u32,
    pub height: u32,
    pub radius: u32,
}

/// Something to be drawn.
#[derive(Clone, Copy, Debug)]
pub enum Shape {
    /// The columns from `left` to before `right` in the rows from `top` to before
    /// `bottom`.
    Block { left: u32, right: u32, top: u32, bottom: u32, color: Rgba },
    /// The outline of a rounded rectangle. A pixel counts by its corner.
    Outline { rect: RoundRect, thickness: u32, color: Rgba },
    /// A rounded rectangle that has one colour up to the column before `fill_end`
    /// and another from there on. A pixel counts by its middle.
    Bar { rect: RoundRect, fill_end: u32, fill: Rgba, track: Rgba },
    /// A disc with an outline. A pixel counts by its corner.
    Pointer { x: u32, y: u32, radius: u32, thickness: u32, fill: Rgba, outline: Rgba },
    /// Everything outside of a rounded rectangle, made transparent. A pixel counts
    /// by its middle.
    Surroundings { rect: RoundRect },
}

/// What a shape does to a pixel: nothing, cover it, or cover it in part.
#[derive(Clone, Copy, PartialEq, Eq, Structural, Debug)]
pub enum Zone {
    Keep,
    Solid(Rgba),
    Edge(Rgba),
}

/// How far a point lies beyond the straight part of a side, twice over. `at2` is
/// twice the coordinate of the point, and the side begins at `start`.
pub open spec fn beyond(at2: int, start: int, size: int, radius: int) -> int {
    let from_middle = at2 - 2 * start - size;
    (if from_middle < 0 {
        -from_middle
    } else {
        from_middle
    }) - (size - 2 * radius)
}

/// The square of the positive part of a number.
pub open spec fn positive_square(v: int) -> int {
    if v > 0 {
        v * v
    } else {
        0
    }
}

/// Whether twice the signed distance from a point to a rounded rectangle is at
/// most `limit`, or less than that if `strict`. Inside of the rectangle the
/// distance is negative. `dx` and `dy` tell how far the point lies beyond the
/// straight parts of the sides.
pub open spec fn is_near(dx: int, dy: int, radius: int, limit: int, strict: bool) -> bool {
    let reach = 2 * radius + limit;
    if dx <= 0 && dy <= 0 {
        let depth = if dx > dy {
            dx
        } else {
            dy
        };
        depth < reach || (!strict && depth == reach)
    } else {
        let square = positive_square(dx) + positive_square(dy);
        reach >= 0 && (square < reach * reach || (!strict && square == reach * reach))
    }
}

/// The same of the rectangle that lies `inset` pixels within another one.
pub open spec fn is_near_rect(
    rect: RoundRect,
    inset: int,
    x2: int,
    y2: int,
    limit: int,
    strict: bool,
) -> bool {
    let radius = if rect.radius > inset {
        rect.radius - inset
    } else {
        0
    };
    is_near(
        beyond(x2, rect.x + inset, rect.width - 2 * inset, radius),
        beyond(y2, rect.y + inset, rect.height - 2 * inset, radius),
        radius,
        limit,
        strict,
    )
}

/// Whether the distance of which `square` is the square is less than `limit`.
pub open spec fn is_closer(square: int, limit: int) -> bool {
    limit > 0 && square < limit * limit
}

/// Whether the distance of which `square` is the square is more than `limit`.
pub open spec fn is_farther(square: int, limit: int) -> bool {
    limit < 0 || square > limit * limit
}

/// Where a pixel lies in the outline of a rounded rectangle: inside of the outer
/// edge and outside of the inner one, and whole pixels away from both or not.
pub open spec fn outline_zone(
    rect: RoundRect,
    thickness: int,
    color: Rgba,
    x: int,
    y: int,
) -> Zone {
    if !is_near_rect(rect, 0, 2 * x, 2 * y, 0, true) || is_near_rect(
        rect,
        thickness,
        2 * x,
        2 * y,
        0,
        false,
    ) {
        Zone::Keep
    } else if is_near_rect(rect, 0, 2 * x, 2 * y, -2, false) && !is_near_rect(
        rect,
        thickness,
        2 * x,
        2 * y,
        2,
        true,
    ) {
        Zone::Solid(color)
    } else {
        Zone::Edge(color)
    }
}

/// Where a pixel lies in a disc with an outline, going by the square of its
/// distance from the middle.
pub open spec fn pointer_zone(
    square: int,
    radius: int,
    thickness: int,
    fill: Rgba,
    outline: Rgba,
) -> Zone {
    let inner = radius - thickness;
    if is_farther(square, radius) {
        Zone::Keep
    } else if is_closer(square, inner) {
        if is_closer(square, inner - 1) {
            Zone::Solid(fill)
        } else {
            Zone::Edge(fill)
        }
    } else if !is_closer(square, radius) || !is_farther(square, inner) {
        Zone::Keep
    } else if is_farther(square, radius - 1) || is_closer(square, inner + 1) {
        Zone::Edge(outline)
    } else {
        Zone::Solid(outline)
    }
}

/// What a shape does to the pixel in column `x` and row `y`.
pub open spec fn zone_at(shape: Shape, x: int, y: int) -> Zone {
    match shape {
        Shape::Block { left, right, top, bottom, color } => if left <= x < right && top <= y
            < bottom {
            Zone::Solid(color)
        } else {
            Zone::Keep
        },
        Shape::Outline { rect, thickness, color } => outline_zone(
            rect,
            thickness as int,
            color,
            x,
            y,
        ),
        Shape::Bar { rect, fill_end, fill, track } => {
            let color = if x < fill_end {
                fill
            } else {
                track
            };
            if !is_near_rect(rect, 0, 2 * x + 1, 2 * y + 1, 1, false) {
                Zone::Keep
            } else if is_near_rect(rect, 0, 2 * x + 1, 2 * y + 1, -1, false) {
                Zone::Solid(color)
            } else {
                Zone::Edge(color)
            }
        },
        Shape::Pointer { x: cx, y: cy, radius, thickness, fill, outline } => pointer_zone(
            (x - cx) * (x - cx) + (y - cy) * (y - cy),
            radius as int,
            thickness as int,
            fill,
            outline,
        ),
        Shape::Surroundings { rect } => if !is_near_rect(
            rect,
            0,
            2 * x + 1,
            2 * y + 1,
            1,
            true,
        ) {
            Zone::Solid(Rgba { r: 0, g: 0, b: 0, a: 0 })
        } else if !is_near_rect(rect, 0, 2 * x + 1, 2 * y + 1, -1, false) {
            Zone::Edge(Rgba { r: 0, g: 0, b: 0, a: 0 })
        } else {
            Zone::Keep
        },
    }
}

/// What is known of the sizes that are computed with.
spec fn is_small(v: int) -> bool {
    -0x40_0000_0000 <= v <= 0x40_0000_0000
}

fn beyond_side(at2: i128, start: i128, size: i128, radius: i128) -> (r: i128)
    requires
        -0x4_0000_0000 <= at2 <= 0x4_0000_0000,
        -0x4_0000_0000 <= start <= 0x4_0000_0000,
        -0x4_0000_0000 <= size <= 0x4_0000_0000,
        -0x4_0000_0000 <= radius <= 0x4_0000_0000,
    ensures
        r == beyond(at2 as int, start as int, size as int, radius as int),
        is_small(r as int),
{
    let from_middle: i128 = at2 - 2 * start - size;
    let away: i128 = if from_middle < 0 {
        -from_middle
    } else {
        from_middle
    };
    away - (size - 2 * radius)
}

fn square_of_positive(v: i128) -> (r: i128)
    requires
        is_small(v as int),
    ensures
        r == positive_square(v as int),
        0 <= r <= 0x40_0000_0000 * 0x40_0000_0000,
{
    if v > 0 {
        assert(0 <= v * v <= 0x40_0000_0000 * 0x40_0000_0000) by (nonlinear_arith)
            requires
                0 <= v <= 0x40_0000_0000,
        ;
        v * v
    } else {
        0
    }
}

fn near(dx: i128, dy: i128, radius: i128, limit: i128, strict: bool) -> (r: bool)
    requires
        is_small(dx as int),
        is_small(dy as int),
        0 <= radius <= 0xffff_ffff,
        -2 <= limit <= 2,
    ensures
        r == is_near(dx as int, dy as int, radius as int, limit as int, strict),
{
    let reach: i128 = 2 * radius + limit;
    if dx <= 0 && dy <= 0 {
        let depth: i128 = if dx > dy {
            dx
        } else {
            dy
        };
        depth < reach || (!strict && depth == reach)
    } else if reach < 0 {
        false
    } else {
        let square: i128 = square_of_positive(dx) + square_of_positive(dy);
        assert(0 <= reach * reach <= 0x4_0000_0000 * 0x4_0000_0000) by (nonlinear_arith)
            requires
                0 <= reach <= 0x4_0000_0000,
        ;
        let bound: i128 = reach * reach;
        square < bound || (!strict && square == bound)
    }
}

fn near_rect(rect: &RoundRect, inset: u32, x2: i128, y2: i128, limit: i128, strict: bool) -> (r:
    bool)
    requires
        0 <= x2 <= 0x4_0000_0000,
        0 <= y2 <= 0x4_0000_0000,
        -2 <= limit <= 2,
    ensures
        r == is_near_rect(
            *rect,
            inset as int,
            x2 as int,
            y2 as int,
            limit as int,
            strict,
        ),
{
    let radius: i128 = if rect.radius > inset {
        (rect.radius - inset) as i128
    } else {
        0
    };
    let inset: i128 = inset as i128;
    let dx: i128 = beyond_side(
        x2,
        rect.x as i128 + inset,
        rect.width as i128 - 2 * inset,
        radius,
    );
    let dy: i128 = beyond_side(
        y2,
        rect.y as i128 + inset,
        rect.height as i128 - 2 * inset,
        radius,
    );
    near(dx, dy, radius, limit, strict)
}

fn zone_in_outline(rect: &RoundRect, thickness: u32, color: Rgba, x: u32, y: u32) -> (r: Zone)
    ensures
        r == outline_zone(*rect, thickness as int, color, x as int, y as int),
{
    let x2: i128 = 2 * x as i128;
    let y2: i128 = 2 * y as i128;
    if !near_rect(rect, 0, x2, y2, 0, true) || near_rect(rect, thickness, x2, y2, 0, false) {
        Zone::Keep
    } else if near_rect(rect, 0, x2, y2, -2, false) && !near_rect(
        rect,
        thickness,
        x2,
        y2,
        2,
        true,
    ) {
        Zone::Solid(color)
    } else {
        Zone::Edge(color)
    }
}

fn closer(square: i128, limit: i128) -> (r: bool)
    requires
        -0x2_0000_0000 <= limit <= 0x2_0000_0000,
    ensures
        r == is_closer(square as int, limit as int),
{
    if limit <= 0 {
        return false;
    }
    assert(0 <= limit * limit <= 0x2_0000_0000 * 0x2_0000_0000) by (nonlinear_arith)
        requires
            0 <= limit <= 0x2_0000_0000,
    ;
    square < limit * limit
}

fn farther(square: i128, limit: i128) -> (r: bool)
    requires
        -0x2_0000_0000 <= limit <= 0x2_0000_0000,
    ensures
        r == is_farther(square as int, limit as int),
{
    if limit < 0 {
        return true;
    }
    assert(0 <= limit * limit <= 0x2_0000_0000 * 0x2_0000_0000) by (nonlinear_arith)
        requires
            0 <= limit <= 0x2_0000_0000,
    ;
    square > limit * limit
}

fn zone_in_pointer(square: i128, radius: u32, thickness: u32, fill: Rgba, outline: Rgba) -> (r: Zone)
    ensures
        r == pointer_zone(square as int, radius as int, thickness as int, fill, outline),
{
    let outer: i128 = radius as i128;
    let inner: i128 = outer - thickness as i128;
    if farther(square, outer) {
        Zone::Keep
    } else if closer(square, inner) {
        if closer(square, inner - 1) {
            Zone::Solid(fill)
        } else {
            Zone::Edge(fill)
        }
    } else if !closer(square, outer) || !farther(square, inner) {
        Zone::Keep
    } else if farther(square, outer - 1) || closer(square, inner + 1) {
        Zone::Edge(outline)
    } else {
        Zone::Solid(outline)
    }
}

fn squared_distance(x: u32, y: u32, cx: u32, cy: u32) -> (r: i128)
    ensures
        r == (x - cx) * (x - cx) + (y - cy) * (y - cy),
{
    let dx: i128 = x as i128 - cx as i128;
    let dy: i128 = y as i128 - cy as i128;
    assert(0 <= dx * dx <= 0xffff_ffff * 0xffff_ffff) by (nonlinear_arith)
        requires
            -0xffff_ffff <= dx <= 0xffff_ffff,
    ;
    assert(0 <= dy * dy <= 0xffff_ffff * 0xffff_ffff) by (nonlinear_arith)
        requires
            -0xffff_ffff <= dy <= 0xffff_ffff,
    ;
    dx * dx + dy * dy
}

impl Shape {
    /// What the shape does to the pixel in column `x` and row `y`.
    pub fn zone(&self, x: u32, y: u32) -> (r: Zone)
        ensures
            r == zone_at(*self, x as int, y as int),
    {
        let x2: i128 = 2 * x as i128 + 1;
        let y2: i128 = 2 * y as i128 + 1;
        match self {
            Shape::Block { left, right, top, bottom, color } => if *left <= x && x < *right && *top
                <= y && y < *bottom {
                Zone::Solid(*color)
            } else {
                Zone::Keep
            },
            Shape::Outline { rect, thickness, color } => zone_in_outline(
                rect,
                *thickness,
                *color,
                x,
                y,
            ),
            Shape::Bar { rect, fill_end, fill, track } => {
                let color = if x < *fill_end {
                    *fill
                } else {
                    *track
                };
                if !near_rect(rect, 0, x2, y2, 1, false) {
                    Zone::Keep
                } else if near_rect(rect, 0, x2, y2, -1, false) {
                    Zone::Solid(color)
                } else {
                    Zone::Edge(color)
                }
            },
            Shape::Pointer { x: cx, y: cy, radius, thickness, fill, outline } => zone_in_pointer(
                squared_distance(x, y, *cx, *cy),
                *radius,
                *thickness,
                *fill,
                *outline,
            ),
            Shape::Surroundings { rect } => if !near_rect(rect, 0, x2, y2, 1, true) {
                Zone::Solid(Rgba { r: 0, g: 0, b: 0, a: 0 })
            } else if !near_rect(rect, 0, x2, y2, -1, false) {
                Zone::Edge(Rgba { r: 0, g: 0, b: 0, a: 0 })
            } else {
                Zone::Keep
            },
        }
    }
}

/// A pixel that a shape covers in part, and the colour of the shape there.
#[derive(Clone, Copy, PartialEq, Eq, Structural, Debug)]
pub struct EdgePixel {
    pub x: u32,
    pub y: u32,
    pub color: Rgba,
}

/// What a pixel becomes once the shape has covered what it covers whole.
pub open spec fn stroke(zone: Zone, p: Rgba) -> Rgba {
    match zone {
        Zone::Solid(color) => color,
        _ => p,
    }
}

/// What a shape does to pixel `k` of a picture, counted row by row.
pub open spec fn zone_of(shape: Shape, width: u32, k: int) -> Zone {
    zone_at(shape, k % (width as int), k / (width as int))
}

/// A picture with all pixels covered that a shape covers whole.
pub open spec fn painted(picture: PixmapView, shape: Shape) -> PixmapView {
    PixmapView {
        pixels: Seq::new(
            picture.pixels.len(),
            |k: int| stroke(zone_of(shape, picture.width, k), picture.pixels[k]),
        ),
        ..picture
    }
}

/// The pixels, among the first `n` of a picture, that a shape covers in part.
pub open spec fn edge_pixels(shape: Shape, width: u32, n: int) -> Seq<EdgePixel>
    decreases n,
{
    if n <= 0 {
        Seq::empty()
    } else {
        match zone_of(shape, width, n - 1) {
            Zone::Edge(color) => edge_pixels(shape, width, n - 1).push(
                EdgePixel {
                    x: ((n - 1) % (width as int)) as u32,
                    y: ((n - 1) / (width as int)) as u32,
                    color,
                },
            ),
            _ => edge_pixels(shape, width, n - 1),
        }
    }
}

/// Covers all pixels that a shape covers whole, and returns those that it covers
/// in part.
pub fn paint(picture: &mut Pixmap, shape: &Shape) -> (r: Vec<EdgePixel>)
    ensures
        final(picture)@ == painted(old(picture)@, *shape),
        r@ == edge_pixels(*shape, old(picture)@.width, old(picture)@.pixels.len() as int),
{
    let ghost before = picture@;
    let ghost after = painted(picture@, *shape);
    let width: u32 = picture.width();
    let height: u32 = picture.height();
    let mut edges: Vec<EdgePixel> = Vec::new();
    let ghost mut k: int = 0;
    let mut y: u32 = 0;
    proof {
        assert(0 * width == 0) by (nonlinear_arith);
    }
    while y < height
        invariant
            y <= height,
            width == before.width,
            height == before.height,
            before.is_complete(),
            after == painted(before, *shape),
            k == y * width,
            picture@.width == width,
            picture@.height == height,
            picture@.pixels.len() == before.pixels.len(),
            forall|i: int| 0 <= i < k ==> (#[trigger] picture@.pixels[i]) == after.pixels[i],
            forall|i: int|
                k <= i < before.pixels.len() ==> (#[trigger] picture@.pixels[i])
                    == before.pixels[i],
            edges@ == edge_pixels(*shape, width, k),
        decreases height - y,
    {
        let mut x: u32 = 0;
        while x < width
            invariant
                x <= width,
                y < height,
                width == before.width,
                height == before.height,
                before.is_complete(),
                after == painted(before, *shape),
                k == y * width + x,
                picture@.width == width,
                picture@.height == height,
                picture@.pixels.len() == before.pixels.len(),
                forall|i: int| 0 <= i < k ==> (#[trigger] picture@.pixels[i]) == after.pixels[i],
                forall|i: int|
                    k <= i < before.pixels.len() ==> (#[trigger] picture@.pixels[i])
                        == before.pixels[i],
                edges@ == edge_pixels(*shape, width, k),
            decreases width - x,
        {
            proof {
                law_position_of_pixel(width as int, height as int, x as int, y as int);
                assert(before.pixels[k] == picture@.pixels[k]);
                assert(after.pixels[k] == stroke(zone_of(*shape, width, k), before.pixels[k]));
            }
            match shape.zone(x, y) {
                Zone::Keep => {},
                Zone::Solid(color) => {
                    picture.put(x, y, color);
                },
                Zone::Edge(color) => {
                    edges.push(EdgePixel { x, y, color });
                },
            }
            proof {
                k = k + 1;
            }
            x += 1;
        }
        proof {
            assert((y + 1) * width == y * width + width) by (nonlinear_arith);
        }
        y += 1;
    }
    proof {
        assert(height * width == width * height) by (nonlinear_arith);
        assert(k == before.pixels.len());
        assert(picture@ =~= after);
    }
    edges
}

/// After painting, a pixel has the colour of the shape where the shape covers it
/// whole, and is as before everywhere else.
pub proof fn law_paint_covers_the_shape(picture: PixmapView, shape: Shape, x: int, y: int)
    requires
        picture.is_complete(),
        0 <= x < picture.width,
        0 <= y < picture.height,
    ensures
        painted(picture, shape).at(x, y) == stroke(zone_at(shape, x, y), picture.at(x, y)),
{
    law_position_of_pixel(picture.width as int, picture.height as int, x, y);
}

/// A pixel is reported as covered in part exactly if it is.
pub proof fn law_edges_are_reported(picture: PixmapView, shape: Shape, x: u32, y: u32, color: Rgba)
    requires
        picture.is_complete(),
        x < picture.width,
        y < picture.height,
    ensures
        edge_pixels(shape, picture.width, picture.pixels.len() as int).contains(
            EdgePixel { x, y, color },
        ) <==> zone_at(shape, x as int, y as int) == Zone::Edge(color),
{
    law_position_of_pixel(picture.width as int, picture.height as int, x as int, y as int);
    lemma_edges(picture, shape, picture.pixels.len() as int, EdgePixel { x, y, color });
}

proof fn lemma_edges(picture: PixmapView, shape: Shape, n: int, e: EdgePixel)
    requires
        picture.is_complete(),
        0 <= n <= picture.pixels.len(),
        e.x < picture.width,
        e.y < picture.height,
    ensures
        edge_pixels(shape, picture.width, n).contains(e) <==> e.y * picture.width + e.x < n
            && zone_at(shape, e.x as int, e.y as int) == Zone::Edge(e.color),
    decreases n,
{
    let w = picture.width as int;
    if n > 0 {
        let k = n - 1;
        lemma_edges(picture, shape, k, e);
        assert(w > 0 && k % w >= 0 && k % w < w && k / w >= 0 && k / w < picture.height)
            by (nonlinear_arith)
            requires
                0 <= k < w * picture.height,
                w == picture.width,
        ;
        lemma_fundamental_div_mod(k, w);
        assert(k == (k / w) * w + k % w) by (nonlinear_arith)
            requires
                k == w * (k / w) + k % w,
        ;
        law_position_of_pixel(w, picture.height as int, e.x as int, e.y as int);
        let earlier = edge_pixels(shape, picture.width, k);
        if let Zone::Edge(color) = zone_of(shape, picture.width, k) {
            let last = EdgePixel { x: (k % w) as u32, y: (k / w) as u32, color };
            crate::text::lemma_push_contains(earlier, last, e);
        }
    } else {
        law_position_of_pixel(w, picture.height as int, e.x as int, e.y as int);
    }
}

/// An outline stays within its rectangle.
pub proof fn law_outline_stays_in_its_rectangle(
    rect: RoundRect,
    thickness: u32,
    color: Rgba,
    x: int,
    y: int,
)
    requires
        x < rect.x || x > rect.x + rect.width || y < rect.y || y > rect.y + rect.height,
    ensures
        zone_at(Shape::Outline { rect, thickness, color }, x, y) == Zone::Keep,
{
    lemma_outside(
        beyond(2 * x, rect.x as int, rect.width as int, rect.radius as int),
        beyond(2 * y, rect.y as int, rect.height as int, rect.radius as int),
        rect.radius as int,
    );
}

proof fn lemma_outside(dx: int, dy: int, radius: int)
    requires
        radius >= 0,
        dx > 2 * radius || dy > 2 * radius,
    ensures
        !is_near(dx, dy, radius, 0, true),
{
    let reach = 2 * radius;
    assert(dx > 0 ==> dx * dx > 0) by (nonlinear_arith);
    assert(dy > 0 ==> dy * dy > 0) by (nonlinear_arith);
    if dx > reach {
        assert(dx * dx > reach * reach) by (nonlinear_arith)
            requires
                dx > reach,
                reach >= 0,
        ;
    } else {
        assert(dy * dy > reach * reach) by (nonlinear_arith)
            requires
                dy > reach,
                reach >= 0,
        ;
    }
}

/// How far a point is from a rounded rectangle, told at its upper left corner. `x2` and
/// `y2` are twice the coordinates of the point. Where both fall short of the middle of
/// the corner's circle, the distance is that from the circle; beside a straight part it
/// is that from the side; and further inside the point is near in any case.
pub proof fn law_distance_from_a_rounded_rectangle(
    rect: RoundRect,
    x2: int,
    y2: int,
    limit: int,
    strict: bool,
)
    requires
        2 * rect.radius <= rect.width,
        2 * rect.radius <= rect.height,
        2 * rect.radius + limit > 0,
    ensures
        ({
            let cx = 2 * (rect.x + rect.radius);
            let cy = 2 * (rect.y + rect.radius);
            let reach = 2 * rect.radius + limit;
            let ex = 2 * (rect.x + rect.width - rect.radius);
            let ey = 2 * (rect.y + rect.height - rect.radius);
            let near = is_near_rect(rect, 0, x2, y2, limit, strict);
            let square = (cx - x2) * (cx - x2) + (cy - y2) * (cy - y2);
            &&& x2 < cx && y2 < cy ==> (near <==> if strict {
                square < reach * reach
            } else {
                square <= reach * reach
            })
            &&& x2 < cx && cy <= y2 <= ey ==> (near <==> if strict {
                cx - x2 < reach
            } else {
                cx - x2 <= reach
            })
            &&& y2 < cy && cx <= x2 <= ex ==> (near <==> if strict {
                cy - y2 < reach
            } else {
                cy - y2 <= reach
            })
            &&& cx <= x2 <= ex && cy <= y2 <= ey ==> near
        }),
{
    let cx = 2 * (rect.x + rect.radius);
    let cy = 2 * (rect.y + rect.radius);
    let reach = 2 * rect.radius + limit;
    let a = cx - x2;
    let b = cy - y2;
    if a > 0 {
        assert(beyond(x2, rect.x as int, rect.width as int, rect.radius as int) == a);
        lemma_squares_compare(a, reach);
    }
    if b > 0 {
        assert(beyond(y2, rect.y as int, rect.height as int, rect.radius as int) == b);
        lemma_squares_compare(b, reach);
    }
}

proof fn lemma_squares_compare(a: int, b: int)
    requires
        a > 0,
        b > 0,
    ensures
        a * a < b * b <==> a < b,
        a * a == b * b <==> a == b,
{
    assert(a < b ==> a * a < b * b) by (nonlinear_arith)
        requires
            a > 0,
            b > 0,
    ;
    assert(b < a ==> b * b < a * a) by (nonlinear_arith)
        requires
            a > 0,
            b > 0,
    ;
}

/// A rounded rectangle is the same from all sides: mirrored at its middle a point is as
/// far from it as before.
pub proof fn law_rounded_rectangles_are_symmetric(
    rect: RoundRect,
    x2: int,
    y2: int,
    limit: int,
    strict: bool,
)
    ensures
        is_near_rect(rect, 0, 4 * rect.x + 2 * rect.width - x2, y2, limit, strict) == is_near_rect(
            rect,
            0,
            x2,
            y2,
            limit,
            strict,
        ),
        is_near_rect(rect, 0, x2, 4 * rect.y + 2 * rect.height - y2, limit, strict) == is_near_rect(
            rect,
            0,
            x2,
            y2,
            limit,
            strict,
        ),
{
}

/// The rectangle within another one is as far from it on all sides, and its corners
/// have the same middles.
pub proof fn law_inner_rectangle(
    rect: RoundRect,
    inset: u32,
    x2: int,
    y2: int,
    limit: int,
    strict: bool,
)
    requires
        inset <= rect.radius,
        2 * rect.radius <= rect.width,
        2 * rect.radius <= rect.height,
        rect.x + inset <= u32::MAX,
        rect.y + inset <= u32::MAX,
    ensures
        is_near_rect(rect, inset as int, x2, y2, limit, strict) == is_near_rect(
            RoundRect {
                x: (rect.x + inset) as u32,
                y: (rect.y + inset) as u32,
                width: (rect.width - 2 * inset) as u32,
                height: (rect.height - 2 * inset) as u32,
                radius: (rect.radius - inset) as u32,
            },
            0,
            x2,
            y2,
            limit,
            strict,
        ),
{
}

/// What the shapes do to a pixel, by its distance from their edges. An outline covers
/// what lies at least a pixel within the outer and outside of the inner edge, in part
/// what is closer to them, and nothing else. A bar has one colour up to its end and the
/// other from there on. Surroundings are cleared where they are half a pixel away, in
/// part up to half a pixel within.
pub proof fn law_shapes_by_the_distance(
    rect: RoundRect,
    thickness: u32,
    fill_end: u32,
    one: Rgba,
    other: Rgba,
    x: int,
    y: int,
)
    ensures
        ({
            let outer = |limit: int, strict: bool|
                is_near_rect(rect, 0, 2 * x, 2 * y, limit, strict);
            let inner = |limit: int, strict: bool|
                is_near_rect(rect, thickness as int, 2 * x, 2 * y, limit, strict);
            let zone = zone_at(Shape::Outline { rect, thickness, color: one }, x, y);
            &&& !outer(0, true) || inner(0, false) <==> zone is Keep
            &&& outer(0, true) && !inner(0, false) && outer(-2, false) && !inner(2, true)
                ==> zone == Zone::Solid(one)
            &&& outer(0, true) && !inner(0, false) && !(outer(-2, false) && !inner(2, true))
                ==> zone == Zone::Edge(one)
        }),
        ({
            let middle = |limit: int, strict: bool|
                is_near_rect(rect, 0, 2 * x + 1, 2 * y + 1, limit, strict);
            let bar = zone_at(Shape::Bar { rect, fill_end, fill: one, track: other }, x, y);
            let color = if x < fill_end {
                one
            } else {
                other
            };
            let clear = Rgba { r: 0, g: 0, b: 0, a: 0 };
            let out = zone_at(Shape::Surroundings { rect }, x, y);
            &&& bar == (if !middle(1, false) {
                Zone::Keep
            } else if middle(-1, false) {
                Zone::Solid(color)
            } else {
                Zone::Edge(color)
            })
            &&& out == (if !middle(1, true) {
                Zone::Solid(clear)
            } else if middle(-1, false) {
                Zone::Keep
            } else {
                Zone::Edge(clear)
            })
        }),
{
}

/// What a pointer does to a pixel, by the square of its distance from the middle: it is
/// filled within the outline, the outline lies between the inner and the outer radius,
/// one pixel on each side of an edge is covered in part, and outside nothing is.
pub proof fn law_pointer_by_the_distance(
    cx: u32,
    cy: u32,
    radius: u32,
    thickness: u32,
    fill: Rgba,
    outline: Rgba,
    x: int,
    y: int,
)
    requires
        thickness >= 2,
        radius > thickness + 1,
    ensures
        ({
            let zone = zone_at(
                Shape::Pointer { x: cx, y: cy, radius, thickness, fill, outline },
                x,
                y,
            );
            let square = (x - cx) * (x - cx) + (y - cy) * (y - cy);
            let inner = radius - thickness;
            &&& square >= radius * radius ==> zone is Keep
            &&& square < (inner - 1) * (inner - 1) ==> zone == Zone::Solid(fill)
            &&& (inner - 1) * (inner - 1) <= square < inner * inner ==> zone == Zone::Edge(fill)
            &&& square == inner * inner ==> zone is Keep
            &&& inner * inner < square < (inner + 1) * (inner + 1) ==> zone == Zone::Edge(outline)
            &&& (inner + 1) * (inner + 1) <= square <= (radius - 1) * (radius - 1) ==> zone
                == Zone::Solid(outline)
            &&& (radius - 1) * (radius - 1) < square < radius * radius ==> zone == Zone::Edge(
                outline,
            )
        }),
{
    let inner = radius - thickness;
    let r = radius as int;
    lemma_squares_compare(inner, r);
    lemma_squares_compare(inner - 1, inner);
    lemma_squares_compare(inner, inner + 1);
    lemma_squares_compare(r - 1, r);
    lemma_squares_compare(inner + 1, r);
    if inner + 1 < r - 1 {
        lemma_squares_compare(inner + 1, r - 1);
    }
    lemma_squares_compare(inner, r - 1);
}

/// A block covers the pixels of its columns and rows, and nothing else.
pub proof fn law_blocks_cover_their_pixels(
    left: u32,
    right: u32,
    top: u32,
    bottom: u32,
    color: Rgba,
    x: int,
    y: int,
)
    ensures
        zone_at(Shape::Block { left, right, top, bottom, color }, x, y) == (if x < left || x
            >= right || y < top || y >= bottom {
            Zone::Keep
        } else {
            Zone::Solid(color)
        }),
{
}

} // verus!
