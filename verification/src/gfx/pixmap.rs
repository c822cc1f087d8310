//! Pictures made of RGBA pixels.

use vstd::arithmetic::div_mod::lemma_fundamental_div_mod_converse;
use vstd::prelude::*;

verus! {

/// One pixel.
#[derive(Clone, Copy, PartialEq, Eq, Structural, Debug)]
pub struct Rgba {
    pub r: u8,
    pub g: u8,
    pub b: u8,
    pub a: u8,
}

/// A picture, row by row from the top left.
#[derive(Debug)]
pub struct Pixmap {
    width: u32,
    height: u32,
    pixels: Vec<Rgba>,
}

/// The mathematical content of a [`Pixmap`].
#[verifier::ext_equal]
pub struct PixmapView {
    pub width: u32,
    pub height: u32,
    pub pixels: Seq<Rgba>,
}

impl View for Pixmap {
    type V = PixmapView;

    closed spec fn view(&self) -> PixmapView {
        PixmapView { width: self.width, height: self.height, pixels: self.pixels@ }
    }
}

impl PixmapView {
    /// Whether the picture has as many pixels as its size says.
    pub open spec fn is_complete(self) -> bool {
        self.pixels.len() == self.width * self.height
    }

    /// The pixel in column `x` and row `y`.
    pub open spec fn at(self, x: int, y: int) -> Rgba {
        self.pixels[y * self.width + x]
    }

    /// A picture of one colour.
    pub open spec fn filled(width: u32, height: u32, color: Rgba) -> PixmapView {
        PixmapView {
            width,
            height,
            pixels: Seq::new((width * height) as nat, |k: int| color),
        }
    }

    /// The picture with one pixel changed.
    pub open spec fn with_pixel(self, x: int, y: int, color: Rgba) -> PixmapView {
        PixmapView { pixels: self.pixels.update(y * self.width + x, color), ..self }
    }

    /// The picture with a patch laid over it, the corner of which is at `(x, y)`.
    pub open spec fn pasted(self, patch: PixmapView, x: int, y: int) -> PixmapView {
        PixmapView {
            pixels: Seq::new(
                self.pixels.len(),
                |k: int|
                    {
                        let px = k % (self.width as int) - x;
                        let py = k / (self.width as int) - y;
                        if 0 <= px < patch.width && 0 <= py < patch.height {
                            patch.at(px, py)
                        } else {
                            self.pixels[k]
                        }
                    },
            ),
            ..self
        }
    }

    /// Some rows of the picture.
    pub open spec fn row_range(self, from: int, count: u32) -> PixmapView {
        PixmapView {
            width: self.width,
            height: count,
            pixels: self.pixels.subrange(
                from * self.width,
                from * self.width + self.width * count,
            ),
        }
    }

    /// The picture with its colours dimmed to 35 percent.
    pub open spec fn dimmed(self) -> PixmapView {
        PixmapView { pixels: self.pixels.map_values(|p: Rgba| dim_pixel(p)), ..self }
    }
}

/// A pixel with its colour dimmed to 35 percent.
pub open spec fn dim_pixel(p: Rgba) -> Rgba {
    Rgba {
        r: (p.r * 7 / 20) as u8,
        g: (p.g * 7 / 20) as u8,
        b: (p.b * 7 / 20) as u8,
        a: p.a,
    }
}

/// The bytes of a row of pixels, four for each.
pub open spec fn pixel_bytes(pixels: Seq<Rgba>) -> Seq<u8>
    decreases pixels.len(),
{
    if pixels.len() == 0 {
        Seq::empty()
    } else {
        let p = pixels.last();
        pixel_bytes(pixels.drop_last()) + seq![p.r, p.g, p.b, p.a]
    }
}

proof fn lemma_pixel_bytes_len(pixels: Seq<Rgba>)
    ensures
        pixel_bytes(pixels).len() == 4 * pixels.len(),
    decreases pixels.len(),
{
    if pixels.len() > 0 {
        lemma_pixel_bytes_len(pixels.drop_last());
    }
}

/// The position of a pixel in its picture, and its column and row from there.
pub proof fn law_position_of_pixel(width: int, height: int, x: int, y: int)
    requires
        0 <= x < width,
        0 <= y < height,
    ensures
        0 <= y * width + x < width * height,
        (y * width + x) % width == x,
        (y * width + x) / width == y,
{
    assert(y * width + x < width * height && y * width >= 0) by (nonlinear_arith)
        requires
            0 <= x < width,
            0 <= y < height,
    ;
    assert(y * width + x == width * y + x) by (nonlinear_arith);
    lemma_fundamental_div_mod_converse(y * width + x, width, y, x);
}

/// Outside of the patch a paste changes nothing; inside, the patch is seen.
pub proof fn law_paste_shows_the_patch(
    picture: PixmapView,
    patch: PixmapView,
    x: int,
    y: int,
    px: int,
    py: int,
)
    requires
        picture.is_complete(),
        0 <= px < picture.width,
        0 <= py < picture.height,
    ensures
        picture.pasted(patch, x, y).at(px, py) == (if x <= px < x + patch.width && y <= py < y
            + patch.height {
            patch.at(px - x, py - y)
        } else {
            picture.at(px, py)
        }),
{
    law_position_of_pixel(picture.width as int, picture.height as int, px, py);
}

impl Pixmap {
    #[verifier::type_invariant]
    spec fn has_all_pixels(self) -> bool {
        self.pixels@.len() == self.width * self.height
    }

    /// A picture of one colour.
    pub fn filled(width: u32, height: u32, color: Rgba) -> (r: Pixmap)
        requires
            width * height <= usize::MAX,
        ensures
            r@ == PixmapView::filled(width, height, color),
    {
        assert(width * height >= 0) by (nonlinear_arith);
        let count: usize = width as usize * height as usize;
        let mut pixels: Vec<Rgba> = Vec::new();
        let mut k: usize = 0;
        while k < count
            invariant
                k <= count == width * height,
                pixels@ == Seq::new(k as nat, |i: int| color),
            decreases count - k,
        {
            pixels.push(color);
            assert(pixels@ =~= Seq::new((k + 1) as nat, |i: int| color));
            k += 1;
        }
        Pixmap { width, height, pixels }
    }

    /// How many columns the picture has.
    pub fn width(&self) -> (r: u32)
        ensures
            r == self@.width,
            self@.is_complete(),
    {
        proof {
            use_type_invariant(self);
        }
        self.width
    }

    /// How many rows the picture has.
    pub fn height(&self) -> (r: u32)
        ensures
            r == self@.height,
            self@.is_complete(),
    {
        proof {
            use_type_invariant(self);
        }
        self.height
    }

    fn index(&self, x: u32, y: u32) -> (r: usize)
        requires
            x < self@.width,
            y < self@.height,
        ensures
            r == y * self@.width + x,
            r < self.pixels@.len(),
            self@.is_complete(),
    {
        proof {
            use_type_invariant(self);
            law_position_of_pixel(self.width as int, self.height as int, x as int, y as int);
            assert(y * self.width >= 0) by (nonlinear_arith);
        }
        assert(self.pixels@.len() == self.pixels.len());
        y as usize * self.width as usize + x as usize
    }

    /// The pixel in column `x` and row `y`.
    pub fn get(&self, x: u32, y: u32) -> (r: Rgba)
        requires
            x < self@.width,
            y < self@.height,
        ensures
            r == self@.at(x as int, y as int),
    {
        self.pixels[self.index(x, y)]
    }

    /// Changes the pixel in column `x` and row `y`.
    pub fn put(&mut self, x: u32, y: u32, color: Rgba)
        requires
            x < old(self)@.width,
            y < old(self)@.height,
        ensures
            final(self)@ == old(self)@.with_pixel(x as int, y as int, color),
    {
        proof {
            use_type_invariant(&*self);
        }
        let ghost before = self@;
        let k: usize = self.index(x, y);
        let mut whole = Pixmap { width: 0, height: 0, pixels: Vec::new() };
        std::mem::swap(&mut whole, self);
        let width: u32 = whole.width;
        let height: u32 = whole.height;
        let mut pixels: Vec<Rgba> = whole.pixels;
        pixels.set(k, color);
        *self = Pixmap { width, height, pixels };
        assert(self@ =~= before.with_pixel(x as int, y as int, color));
    }

    /// Lays a patch over the picture, with its corner at `(x, y)`. What stands
    /// over the edge is cut off.
    pub fn paste(&mut self, patch: &Pixmap, x: u32, y: u32)
        ensures
            final(self)@ == old(self)@.pasted(patch@, x as int, y as int),
    {
        proof {
            use_type_invariant(&*self);
        }
        let ghost before = self@;
        let ghost after = self@.pasted(patch@, x as int, y as int);
        let width: u32 = self.width;
        let height: u32 = self.height;
        let mut pixels: Vec<Rgba> = Vec::new();
        let mut k: usize = 0;
        while k < self.pixels.len()
            invariant
                k <= self.pixels.len(),
                self@ == before,
                before.pixels == self.pixels@,
                before.is_complete(),
                width == before.width,
                after == before.pasted(patch@, x as int, y as int),
                pixels@ == after.pixels.take(k as int),
            decreases self.pixels.len() - k,
        {
            assert(width > 0) by (nonlinear_arith)
                requires
                    k < width * before.height,
                    k >= 0,
            ;
            let column: usize = k % width as usize;
            let row: usize = k / width as usize;
            proof {
                lemma_column_and_row(k as int, width as int, before.height as int);
            }
            let inside = column >= x as usize && column - (x as usize) < patch.width as usize && row
                >= y as usize && row - (y as usize) < patch.height as usize;
            let color = if inside {
                patch.get((column - x as usize) as u32, (row - y as usize) as u32)
            } else {
                self.pixels[k]
            };
            pixels.push(color);
            proof {
                assert(color == after.pixels[k as int]);
                assert(pixels@ =~= after.pixels.take(k + 1));
            }
            k += 1;
        }
        assert(pixels@ =~= after.pixels);
        *self = Pixmap { width, height, pixels };
    }

    /// Dims the colours of the picture to 35 percent.
    pub fn dim(&mut self)
        ensures
            final(self)@ == old(self)@.dimmed(),
    {
        proof {
            use_type_invariant(&*self);
        }
        let ghost before = self@;
        let width: u32 = self.width;
        let height: u32 = self.height;
        let mut pixels: Vec<Rgba> = Vec::new();
        let mut k: usize = 0;
        while k < self.pixels.len()
            invariant
                k <= self.pixels.len(),
                before.pixels == self.pixels@,
                pixels@ == before.dimmed().pixels.take(k as int),
            decreases self.pixels.len() - k,
        {
            let p = self.pixels[k];
            let dim = Rgba {
                r: (p.r as u32 * 7 / 20) as u8,
                g: (p.g as u32 * 7 / 20) as u8,
                b: (p.b as u32 * 7 / 20) as u8,
                a: p.a,
            };
            pixels.push(dim);
            assert(pixels@ =~= before.dimmed().pixels.take(k + 1));
            k += 1;
        }
        assert(pixels@ =~= before.dimmed().pixels);
        *self = Pixmap { width, height, pixels };
    }

    /// Some rows of the picture.
    pub fn rows(&self, from: u32, count: u32) -> (r: Pixmap)
        requires
            from + count <= self@.height,
        ensures
            r@ == self@.row_range(from as int, count),
    {
        proof {
            use_type_invariant(self);
            let w = self.width as int;
            assert(0 <= from * w && from * w + w * count == (from + count) * w && (from + count) * w
                <= w * self.height && w * count >= 0) by (nonlinear_arith)
                requires
                    w >= 0,
                    from + count <= self.height,
            ;
            assert(w * count == self.width * count);
        }
        assert(self.pixels@.len() == self.pixels.len());
        let start: usize = from as usize * self.width as usize;
        let end: usize = start + self.width as usize * count as usize;
        let pixels = copy_pixels(&self.pixels, start, end);
        Pixmap { width: self.width, height: count, pixels }
    }

    /// The bytes of the picture, four for each pixel.
    pub fn to_bytes(&self) -> (r: Vec<u8>)
        ensures
            r@ == pixel_bytes(self@.pixels),
            r@.len() == 4 * self@.width * self@.height,
    {
        proof {
            use_type_invariant(self);
            lemma_pixel_bytes_len(self.pixels@);
            assert(4 * self.width * self.height == 4 * (self.width * self.height))
                by (nonlinear_arith);
        }
        let mut out: Vec<u8> = Vec::new();
        let mut k: usize = 0;
        assert(self.pixels@.take(0) =~= Seq::empty());
        while k < self.pixels.len()
            invariant
                k <= self.pixels.len(),
                out@ == pixel_bytes(self.pixels@.take(k as int)),
            decreases self.pixels.len() - k,
        {
            let ghost before = out@;
            let p = self.pixels[k];
            out.push(p.r);
            out.push(p.g);
            out.push(p.b);
            out.push(p.a);
            proof {
                let longer = self.pixels@.take(k + 1);
                assert(longer.drop_last() =~= self.pixels@.take(k as int));
                assert(longer.last() == p);
                assert(out@ =~= before + seq![p.r, p.g, p.b, p.a]);
            }
            k += 1;
        }
        assert(self.pixels@.take(self.pixels@.len() as int) =~= self.pixels@);
        out
    }

    /// The picture that some bytes stand for, four for each pixel; none if there
    /// are too many or too few of them.
    pub fn from_bytes(width: u32, height: u32, bytes: &[u8]) -> (r: Option<Pixmap>)
        ensures
            r is Some <==> bytes@.len() == 4 * width * height,
            r matches Some(p) ==> p@.width == width && p@.height == height && pixel_bytes(
                p@.pixels,
            ) == bytes@,
    {
        let ghost area = width * height;
        proof {
            assert(4 * width * height == 4 * area && area >= 0 && area <= 0xffff_ffff * 0xffff_ffff)
                by (nonlinear_arith)
                requires
                    area == width * height,
            ;
        }
        let count: u64 = width as u64 * height as u64;
        if bytes.len() % 4 != 0 || (bytes.len() / 4) as u64 != count {
            return None;
        }
        let mut pixels: Vec<Rgba> = Vec::new();
        let mut k: usize = 0;
        assert(bytes@.take(0) =~= Seq::empty());
        while k < bytes.len()
            invariant
                k <= bytes.len(),
                k % 4 == 0,
                bytes.len() % 4 == 0,
                4 * pixels@.len() == k,
                pixel_bytes(pixels@) == bytes@.take(k as int),
            decreases bytes.len() - k,
        {
            let ghost before = pixels@;
            let p = Rgba { r: bytes[k], g: bytes[k + 1], b: bytes[k + 2], a: bytes[k + 3] };
            pixels.push(p);
            proof {
                assert(pixels@.drop_last() =~= before);
                assert(pixel_bytes(pixels@) =~= bytes@.take(k + 4));
            }
            k += 4;
        }
        assert(bytes@.take(bytes@.len() as int) =~= bytes@);
        Some(Pixmap { width, height, pixels })
    }
}

proof fn lemma_column_and_row(k: int, width: int, height: int)
    requires
        0 <= k < width * height,
        width > 0,
    ensures
        0 <= k % width < width,
        0 <= k / width < height,
{
    assert(0 <= k % width < width && k / width >= 0 && k / width < height) by (nonlinear_arith)
        requires
            0 <= k < width * height,
            width > 0,
    ;
}

fn copy_pixels(pixels: &Vec<Rgba>, from: usize, to: usize) -> (r: Vec<Rgba>)
    requires
        from <= to <= pixels@.len(),
    ensures
        r@ == pixels@.subrange(from as int, to as int),
{
    let mut out: Vec<Rgba> = Vec::new();
    let mut k: usize = from;
    while k < to
        invariant
            from <= k <= to <= pixels@.len(),
            out@ == pixels@.subrange(from as int, k as int),
        decreases to - k,
    {
        out.push(pixels[k]);
        assert(out@ =~= pixels@.subrange(from as int, k + 1));
        k += 1;
    }
    out
}

/// The bytes of a picture are the red, green, blue and alpha of its pixels, one pixel
/// after the other.
pub proof fn law_bytes_of_a_picture(pixels: Seq<Rgba>, k: int)
    requires
        0 <= k < pixels.len(),
    ensures
        pixel_bytes(pixels).len() == 4 * pixels.len(),
        pixel_bytes(pixels)[4 * k] == pixels[k].r,
        pixel_bytes(pixels)[4 * k + 1] == pixels[k].g,
        pixel_bytes(pixels)[4 * k + 2] == pixels[k].b,
        pixel_bytes(pixels)[4 * k + 3] == pixels[k].a,
    decreases pixels.len(),
{
    lemma_pixel_bytes_len(pixels);
    lemma_pixel_bytes_len(pixels.drop_last());
    if k < pixels.len() - 1 {
        law_bytes_of_a_picture(pixels.drop_last(), k);
    }
}

/// Dimming leaves 35 percent of each colour, rounded down, and all of the alpha.
pub proof fn law_dimming_leaves_a_part_of_the_light(picture: PixmapView, x: int, y: int)
    requires
        picture.is_complete(),
        0 <= x < picture.width,
        0 <= y < picture.height,
    ensures
        ({
            let p = picture.at(x, y);
            let d = picture.dimmed().at(x, y);
            &&& 100 * d.r <= 35 * p.r < 100 * (d.r + 1)
            &&& 100 * d.g <= 35 * p.g < 100 * (d.g + 1)
            &&& 100 * d.b <= 35 * p.b < 100 * (d.b + 1)
            &&& d.a == p.a
        }),
        picture.dimmed().width == picture.width,
        picture.dimmed().height == picture.height,
        picture.dimmed().is_complete(),
{
    law_position_of_pixel(picture.width as int, picture.height as int, x, y);
}

/// A filled picture has its colour everywhere.
pub proof fn law_filled_pictures_have_one_color(
    width: u32,
    height: u32,
    color: Rgba,
    x: int,
    y: int,
)
    requires
        0 <= x < width,
        0 <= y < height,
    ensures
        PixmapView::filled(width, height, color).width == width,
        PixmapView::filled(width, height, color).height == height,
        PixmapView::filled(width, height, color).is_complete(),
        PixmapView::filled(width, height, color).at(x, y) == color,
{
    law_position_of_pixel(width as int, height as int, x, y);
}

/// Changing a pixel changes that one alone.
pub proof fn law_one_pixel_is_changed(
    picture: PixmapView,
    x: int,
    y: int,
    color: Rgba,
    px: int,
    py: int,
)
    requires
        picture.is_complete(),
        0 <= x < picture.width,
        0 <= y < picture.height,
        0 <= px < picture.width,
        0 <= py < picture.height,
    ensures
        picture.with_pixel(x, y, color).at(px, py) == (if px == x && py == y {
            color
        } else {
            picture.at(px, py)
        }),
        picture.with_pixel(x, y, color).is_complete(),
{
    law_position_of_pixel(picture.width as int, picture.height as int, x, y);
    law_position_of_pixel(picture.width as int, picture.height as int, px, py);
}

/// Some rows of a picture show what the picture shows there.
pub proof fn law_rows_show_their_part(
    picture: PixmapView,
    from: u32,
    count: u32,
    x: int,
    y: int,
)
    requires
        picture.is_complete(),
        from + count <= picture.height,
        0 <= x < picture.width,
        0 <= y < count,
    ensures
        picture.row_range(from as int, count).width == picture.width,
        picture.row_range(from as int, count).height == count,
        picture.row_range(from as int, count).at(x, y) == picture.at(x, from + y),
{
    let w = picture.width as int;
    law_position_of_pixel(w, count as int, x, y);
    assert(0 <= from * w && from * w + w * count <= w * picture.height && w * count >= 0)
        by (nonlinear_arith)
        requires
            w >= 0,
            from >= 0,
            from + count <= picture.height,
    ;
    assert(from * w + (y * w + x) == (from + y) * w + x) by (nonlinear_arith);
}

} // verus!
