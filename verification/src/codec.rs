//! Calls into the `base64` and `image` crates.

use crate::text::opt_bytes;
use crate::webp::{has_unfit_alpha_frame, runs_lossless_part};
use base64::Engine;
use vstd::prelude::*;
use vstd::utf8::{decode_utf8, valid_utf8};

verus! {

/// The padded standard-alphabet base64 text of some bytes.
pub uninterp spec fn base64_text(data: Seq<u8>) -> Seq<char>;

/// The bytes that a padded standard-alphabet base64 text stands for, if it is one.
pub uninterp spec fn base64_bytes(text: Seq<char>) -> Option<Seq<u8>>;

/// The PNG file that the `image` crate writes for an RGBA picture, if it can.
pub uninterp spec fn png_file(width: u32, height: u32, rgba: Seq<u8>) -> Option<Seq<u8>>;

/// The width, the height and the RGBA bytes of the picture that the `image` crate
/// decodes a file to, if it can.
pub uninterp spec fn decoded_image(file: Seq<u8>) -> Option<(u32, u32, Seq<u8>)>;

/// The PNG file that the `image` crate makes of a picture file, if it can.
pub uninterp spec fn as_png_file(file: Seq<u8>) -> Option<Seq<u8>>;

/// What [`String::from_utf8_lossy`] makes of bytes that are not valid UTF-8.
pub uninterp spec fn repaired_text(bytes: Seq<u8>) -> Seq<char>;

/// The text that some bytes stand for, with invalid UTF-8 repaired.
pub open spec fn lossy_text(bytes: Seq<u8>) -> Seq<char> {
    if valid_utf8(bytes) {
        decode_utf8(bytes)
    } else {
        repaired_text(bytes)
    }
}

/// Calls `encode` of the `base64` crate's `STANDARD` engine. Claimed of it: the
/// text depends on the bytes alone, and decoding it gives the bytes back. It
/// panics where the length of the text overflows, which the bound rules out.
#[verifier::external_body]
pub(crate) fn base64_encode(data: &[u8]) -> (r: String)
    requires
        4 * data@.len() <= usize::MAX,
    ensures
        r@ == base64_text(data@),
        base64_bytes(r@) == Some(data@),
{
    base64::engine::general_purpose::STANDARD.encode(data)
}

/// Calls `decode` of the `base64` crate's `STANDARD` engine. Claimed of it: the
/// outcome depends on the text alone, and only the very text that encoding gives
/// decodes: the engine wants canonical padding and no stray bits.
#[verifier::external_body]
pub(crate) fn base64_decode(text: &str) -> (r: Option<Vec<u8>>)
    ensures
        opt_bytes(r) == base64_bytes(text@),
        r matches Some(data) ==> base64_text(data@) == text@,
{
    base64::engine::general_purpose::STANDARD.decode(text).ok()
}

/// Calls `write_to` of the `image` crate with the PNG format, on the picture
/// that `RgbaImage::from_raw` holds. Claimed of it: the outcome depends on the
/// size and the pixels alone.
#[verifier::external_body]
pub(crate) fn write_png(width: u32, height: u32, rgba: Vec<u8>) -> (r: Option<Vec<u8>>)
    requires
        rgba@.len() == 4 * width * height,
    ensures
        opt_bytes(r) == png_file(width, height, rgba@),
{
    let img = image::RgbaImage::from_raw(width, height, rgba)?;
    let mut buf = Vec::new();
    img.write_to(&mut std::io::Cursor::new(&mut buf), image::ImageFormat::Png).ok()?;
    Some(buf)
}

/// Whether `part` is `whole / divisor` rounded to the nearest number, and no less
/// than one. Half-way cases may be rounded either way.
pub open spec fn rounded_share(part: int, whole: int, divisor: int) -> bool {
    if whole < divisor {
        part == 1
    } else {
        -divisor <= 2 * (part * divisor - whole) <= divisor
    }
}

/// Whether a picture of one size has another once it is scaled, sides in
/// proportion, to the largest that bounds have room for.
pub open spec fn scaled_size(
    width: u32,
    height: u32,
    bound_width: u32,
    bound_height: u32,
    scaled_width: u32,
    scaled_height: u32,
) -> bool {
    if width * bound_height >= height * bound_width {
        &&& scaled_width == bound_width
        &&& rounded_share(scaled_height as int, height * bound_width, width as int)
    } else {
        &&& scaled_height == bound_height
        &&& rounded_share(scaled_width as int, width * bound_height, height as int)
    }
}

/// A picture that fits its bounds and reaches one of them keeps its size.
pub proof fn law_fitting_pictures_keep_their_size(
    width: u32,
    height: u32,
    bound_width: u32,
    bound_height: u32,
    scaled_width: u32,
    scaled_height: u32,
)
    requires
        0 < width <= bound_width,
        0 < height <= bound_height,
        width == bound_width || height == bound_height,
        scaled_size(width, height, bound_width, bound_height, scaled_width, scaled_height),
    ensures
        scaled_width == width,
        scaled_height == height,
{
    let (w, h) = (width as int, height as int);
    let (v, g) = (scaled_width as int, scaled_height as int);
    if width == bound_width {
        assert(w * bound_height >= h * bound_width) by (nonlinear_arith)
            requires
                w == bound_width,
                0 < h <= bound_height,
        ;
        assert(h * w >= w) by (nonlinear_arith)
            requires
                h > 0,
                w > 0,
        ;
        assert(g == h) by (nonlinear_arith)
            requires
                w > 0,
                -w <= 2 * (g * w - h * w) <= w,
        ;
    } else {
        assert(w * bound_height < h * bound_width) by (nonlinear_arith)
            requires
                h == bound_height,
                0 < h,
                w < bound_width,
        ;
        assert(w * h >= h) by (nonlinear_arith)
            requires
                h > 0,
                w > 0,
        ;
        assert(v == w) by (nonlinear_arith)
            requires
                h > 0,
                -h <= 2 * (v * h - w * h) <= h,
        ;
    }
}

/// Calls `load_from_memory` of the `image` crate and `write_to` with the PNG
/// format on what it decoded. Claimed of them: the outcome depends on the file
/// alone, and what cannot be decoded gives nothing. The decoder panics on an
/// animated WebP whose picture does not fit a frame with an alpha plane, and can
/// panic on a lossless part of a WebP: neither may be handed to it.
#[verifier::external_body]
pub(crate) fn rewrite_as_png(file: &[u8]) -> (r: Option<Vec<u8>>)
    requires
        !has_unfit_alpha_frame(file@),
        !runs_lossless_part(file@),
    ensures
        opt_bytes(r) == as_png_file(file@),
        r is Some ==> decoded_image(file@) is Some,
{
    let img = image::load_from_memory(file).ok()?;
    let mut buf = Vec::new();
    img.write_to(&mut std::io::Cursor::new(&mut buf), image::ImageFormat::Png).ok()?;
    Some(buf)
}

/// Calls `load_from_memory` of the `image` crate, then `resize` with the
/// Lanczos filter and `to_rgba8`. Claimed of them: what the file decodes to
/// depends on the file alone; the picture is scaled, its sides in proportion, to
/// the largest that the bounds have room for, and comes with four bytes for each
/// pixel; a picture that keeps its size is only copied. The sides are computed in
/// floating point, which for bounds of this size is as good as exact. The pixels of
/// a picture that changes its size are left open: the filter weighs them with the
/// machine's sine function. The files that may not be handed to the decoder are
/// those of [`rewrite_as_png`].
#[verifier::external_body]
pub(crate) fn decode_scaled(file: &[u8], width: u32, height: u32) -> (r: Option<(u32, u32, Vec<u8>)>)
    requires
        !has_unfit_alpha_frame(file@),
        !runs_lossless_part(file@),
        0 < width <= 0x1000,
        0 < height <= 0x1000,
    ensures
        r is Some == decoded_image(file@) is Some,
        (r, decoded_image(file@)) matches (Some((w, h, rgba)), Some((from_w, from_h, pixels))) ==> {
            &&& 0 < w <= width
            &&& 0 < h <= height
            &&& scaled_size(from_w, from_h, width, height, w, h)
            &&& rgba@.len() == 4 * w * h
            &&& w == from_w && h == from_h ==> rgba@ == pixels
        },
{
    let img = image::load_from_memory(file).ok()?;
    let scaled = img.resize(width, height, image::imageops::FilterType::Lanczos3).to_rgba8();
    Some((scaled.width(), scaled.height(), scaled.into_raw()))
}

/// Calls [`String::from_utf8_lossy`]. Claimed of it: valid UTF-8 is decoded as it
/// is; on other bytes the result depends on the bytes alone.
#[verifier::external_body]
fn std_from_utf8_lossy(bytes: &[u8]) -> (r: String)
    ensures
        valid_utf8(bytes@) ==> r@ == decode_utf8(bytes@),
        !valid_utf8(bytes@) ==> r@ == repaired_text(bytes@),
{
    String::from_utf8_lossy(bytes).into_owned()
}

/// The text that some bytes stand for, with invalid UTF-8 repaired.
pub fn text_from_bytes(bytes: &[u8]) -> (r: String)
    ensures
        r@ == lossy_text(bytes@),
{
    std_from_utf8_lossy(bytes)
}

} // verus!
