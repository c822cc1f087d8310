//! Images as data URIs.

use super::layout::{transparent, ICON_SIZE, LCD_ICON_SIZE};
use super::pixmap::{pixel_bytes, Pixmap, PixmapView, Rgba};
use crate::codec::{
    base64_bytes, base64_decode, base64_encode, base64_text, decode_scaled, decoded_image,
    png_file, scaled_size, write_png,
};
use crate::text::{find, index_of, law_first_position_is_found, opt_bytes, opt_text, TextMap};
use crate::webp::{
    alpha_frame_is_fit, has_unfit_alpha_frame, is_free_of_lossless_part,
    law_other_files_are_decoded, runs_lossless_part,
};
use vstd::prelude::*;
use vstd::string::*;

verus! {

/// The data URI of a PNG file.
pub open spec fn uri_text(png: Seq<u8>) -> Seq<char> {
    "data:image/png;base64,"@ + base64_text(png)
}

/// The data URI of a picture. There is none if the picture cannot be written as
/// PNG, or if its text would be longer than memory.
pub open spec fn picture_uri(picture: PixmapView) -> Option<Seq<char>> {
    match png_file(picture.width, picture.height, pixel_bytes(picture.pixels)) {
        Some(png) => if 4 * png.len() <= usize::MAX {
            Some(uri_text(png))
        } else {
            None
        },
        None => None,
    }
}

/// What follows the first comma of a text; nothing, if there is none.
pub open spec fn after_comma(text: Seq<char>) -> Seq<char> {
    match index_of(text, ","@) {
        Some(at) => text.skip(at + ","@.len()),
        None => Seq::empty(),
    }
}

/// The file that a data URI holds, if it is base64.
pub open spec fn file_in_uri(uri: Seq<char>) -> Option<Seq<u8>> {
    base64_bytes(after_comma(uri))
}

/// The data URI of a PNG file. Reading it gives the file back.
pub fn png_data_uri(png: &[u8]) -> (r: String)
    requires
        4 * png@.len() <= usize::MAX,
    ensures
        r@ == uri_text(png@),
        file_in_uri(r@) == Some(png@),
{
    let encoded = base64_encode(png);
    let uri = "data:image/png;base64,".to_owned().concat(&encoded);
    proof {
        reveal_strlit("data:image/png;base64,");
        reveal_strlit(",");
        let head = "data:image/png;base64,"@;
        let at: int = 21;
        assert(head[21] == ',');
        assert(uri@.subrange(at, at + 1) =~= ","@);
        assert(crate::text::occurs_at(uri@, ","@, at));
        assert forall|j: int| 0 <= j < at implies !#[trigger] crate::text::occurs_at(
            uri@,
            ","@,
            j,
        ) by {
            assert(uri@.subrange(j, j + 1)[0] == head[j]);
            assert(head[j] != ',');
        }
        assert(crate::text::first_occurs_at(uri@, ","@, at));
        let other = choose|k: int| crate::text::first_occurs_at(uri@, ","@, k);
        assert(crate::text::first_occurs_at(uri@, ","@, other));
        assert(other == at);
        assert(uri@.skip(at + 1) =~= encoded@);
    }
    uri
}

/// The data URI of a picture.
pub fn picture_data_uri(picture: &Pixmap) -> (r: Option<String>)
    ensures
        opt_text(r) == picture_uri(picture@),
{
    match write_png(picture.width(), picture.height(), picture.to_bytes()) {
        Some(png) => if png.len() <= usize::MAX / 4 {
            Some(png_data_uri(&png))
        } else {
            None
        },
        None => None,
    }
}

/// The data URI of a key with nothing on it.
pub fn transparent_icon() -> (r: Option<String>)
    ensures
        opt_text(r) == picture_uri(PixmapView::filled(ICON_SIZE, ICON_SIZE, transparent())),
{
    picture_data_uri(&Pixmap::filled(ICON_SIZE, ICON_SIZE, Rgba { r: 0, g: 0, b: 0, a: 0 }))
}

/// The file that a data URI holds, if it is base64. Encoding the file gives the text
/// back.
pub fn icon_file(uri: &str) -> (r: Option<Vec<u8>>)
    ensures
        opt_bytes(r) == file_in_uri(uri@),
        r matches Some(file) ==> base64_text(file@) == after_comma(uri@),
{
    match find(uri, ",") {
        Some(at) => {
            let end: usize = uri.unicode_len();
            let start: usize = at + ",".unicode_len();
            assert(uri@.subrange(start as int, end as int) =~= uri@.skip(start as int));
            base64_decode(uri.substring_char(start, end))
        },
        None => {
            proof {
                reveal_strlit("");
                assert(""@ =~= Seq::<char>::empty());
            }
            base64_decode("")
        },
    }
}

/// The width, the height and the RGBA bytes of the picture in a data URI. There is
/// none if the URI holds no file, or one that the decoder makes nothing of, or a WebP
/// on which it panics, or one with a lossless part, on which it might.
pub open spec fn picture_in_uri(uri: Seq<char>) -> Option<(u32, u32, Seq<u8>)> {
    match file_in_uri(uri) {
        Some(file) => if has_unfit_alpha_frame(file) || runs_lossless_part(file) {
            None
        } else {
            decoded_image(file)
        },
        None => None,
    }
}

/// The icon of a data URI, scaled to the largest size that it can have on the LCD.
/// There is one exactly if the URI holds a picture. A picture that has that size
/// already is taken as it is; what the pixels of any other are is left to the filter.
pub fn lcd_icon(uri: &str) -> (r: Option<Pixmap>)
    ensures
        r is Some == picture_in_uri(uri@) is Some,
        (r, picture_in_uri(uri@)) matches (Some(icon), Some((width, height, bytes))) ==> {
            &&& 0 < icon@.width <= LCD_ICON_SIZE
            &&& 0 < icon@.height <= LCD_ICON_SIZE
            &&& scaled_size(
                width,
                height,
                LCD_ICON_SIZE,
                LCD_ICON_SIZE,
                icon@.width,
                icon@.height,
            )
            &&& icon@.width == width && icon@.height == height ==> pixel_bytes(icon@.pixels)
                == bytes
        },
{
    match icon_file(uri) {
        Some(file) => if alpha_frame_is_fit(&file) && is_free_of_lossless_part(&file) {
            match decode_scaled(&file, LCD_ICON_SIZE, LCD_ICON_SIZE) {
                Some((width, height, rgba)) => Pixmap::from_bytes(width, height, &rgba),
                None => None,
            }
        } else {
            None
        },
        None => None,
    }
}

/// The two keys that a volume bar spans.
#[derive(Clone, Copy, PartialEq, Eq, Structural, Debug)]
pub enum BarPosition {
    Upper,
    Lower,
}

impl BarPosition {
    /// The name of the position.
    pub open spec fn name(self) -> Seq<char> {
        match self {
            BarPosition::Upper => "Upper"@,
            BarPosition::Lower => "Lower"@,
        }
    }

    /// The name of the position.
    pub fn label(&self) -> (r: String)
        ensures
            r@ == self.name(),
    {
        match self {
            BarPosition::Upper => "Upper".to_owned(),
            BarPosition::Lower => "Lower".to_owned(),
        }
    }
}

/// What one half of the volume bar is kept under, for a volume in percent with one
/// decimal.
pub open spec fn cache_key(volume: Seq<char>, position: BarPosition) -> Seq<char> {
    "vol_"@ + volume + "_part_"@ + position.name()
}

/// What one half of the volume bar is kept under. `volume` is the volume in percent
/// with one decimal.
pub fn generate_cache_key(volume: &str, position: BarPosition) -> (r: String)
    ensures
        r@ == cache_key(volume@, position),
{
    "vol_".to_owned().concat(volume).concat("_part_").concat(&position.label())
}

/// The volume bars that were drawn before.
#[derive(Debug)]
pub struct VolumeBarCache {
    images: TextMap<String>,
}

impl View for VolumeBarCache {
    type V = Map<Seq<char>, Seq<char>>;

    closed spec fn view(&self) -> Map<Seq<char>, Seq<char>> {
        self.images@.map_values(|s: String| s@)
    }
}

/// The content of an optional pair of URIs.
pub open spec fn uri_pair(uris: Option<(String, String)>) -> Option<(Seq<char>, Seq<char>)> {
    match uris {
        Some(u) => Some((u.0@, u.1@)),
        None => None,
    }
}

/// The images kept for a volume, if both halves are there.
pub open spec fn cached_bar(cache: Map<Seq<char>, Seq<char>>, volume: Seq<char>) -> Option<
    (Seq<char>, Seq<char>),
> {
    let upper = cache_key(volume, BarPosition::Upper);
    let lower = cache_key(volume, BarPosition::Lower);
    if cache.contains_key(upper) && cache.contains_key(lower) {
        Some((cache[upper], cache[lower]))
    } else {
        None
    }
}

/// A cache that has taken in the two halves of a volume bar.
pub open spec fn with_bar(
    cache: Map<Seq<char>, Seq<char>>,
    volume: Seq<char>,
    uris: (Seq<char>, Seq<char>),
) -> Map<Seq<char>, Seq<char>> {
    cache.insert(cache_key(volume, BarPosition::Upper), uris.0).insert(
        cache_key(volume, BarPosition::Lower),
        uris.1,
    )
}

/// The data URIs of the two halves of a volume bar.
pub open spec fn bar_uris(top: PixmapView, bottom: PixmapView) -> Option<(Seq<char>, Seq<char>)> {
    match (picture_uri(top), picture_uri(bottom)) {
        (Some(upper), Some(lower)) => Some((upper, lower)),
        _ => None,
    }
}

impl VolumeBarCache {
    /// A cache that holds nothing.
    pub fn new() -> (r: VolumeBarCache)
        ensures
            r@ == Map::<Seq<char>, Seq<char>>::empty(),
    {
        let r = VolumeBarCache { images: TextMap::new() };
        assert(r@ =~= Map::<Seq<char>, Seq<char>>::empty());
        r
    }

    /// The images kept for a volume, if both halves are there.
    pub fn lookup(&self, volume: &str) -> (r: Option<(String, String)>)
        ensures
            uri_pair(r) == cached_bar(self@, volume@),
    {
        let upper = generate_cache_key(volume, BarPosition::Upper);
        let lower = generate_cache_key(volume, BarPosition::Lower);
        match (self.images.get(&upper), self.images.get(&lower)) {
            (Some(top), Some(bottom)) => Some((top.clone(), bottom.clone())),
            _ => None,
        }
    }

    /// Writes down the two halves of a volume bar and keeps them. If one of them
    /// cannot be written, nothing is kept.
    pub fn render(&mut self, volume: &str, top: &Pixmap, bottom: &Pixmap) -> (r: Option<
        (String, String),
    >)
        ensures
            uri_pair(r) == bar_uris(top@, bottom@),
            final(self)@ == (match bar_uris(top@, bottom@) {
                Some(uris) => with_bar(old(self)@, volume@, uris),
                None => old(self)@,
            }),
    {
        let ghost before = self@;
        match (picture_data_uri(top), picture_data_uri(bottom)) {
            (Some(upper), Some(lower)) => {
                self.images.insert(
                    generate_cache_key(volume, BarPosition::Upper),
                    upper.clone(),
                );
                self.images.insert(
                    generate_cache_key(volume, BarPosition::Lower),
                    lower.clone(),
                );
                assert(self@ =~= with_bar(before, volume@, (upper@, lower@)));
                Some((upper, lower))
            },
            _ => None,
        }
    }
}

/// A volume is found exactly if both halves of its bar are there. What was kept for a
/// volume is found again, and so is what was kept for every other volume.
pub proof fn law_cached_bars_are_found(
    cache: Map<Seq<char>, Seq<char>>,
    volume: Seq<char>,
    uris: (Seq<char>, Seq<char>),
    other: Seq<char>,
)
    ensures
        cached_bar(cache, volume) is Some <==> cache.contains_key("vol_"@ + volume + "_part_Upper"@)
            && cache.contains_key("vol_"@ + volume + "_part_Lower"@),
        cached_bar(with_bar(cache, volume, uris), volume) == Some(uris),
        other != volume ==> cached_bar(with_bar(cache, volume, uris), other) == cached_bar(
            cache,
            other,
        ),
{
    reveal_strlit("Upper");
    reveal_strlit("Lower");
    reveal_strlit("_part_");
    reveal_strlit("_part_Upper");
    reveal_strlit("_part_Lower");
    assert("_part_Upper"@ =~= "_part_"@ + "Upper"@);
    assert("_part_Lower"@ =~= "_part_"@ + "Lower"@);
    assert(cache_key(volume, BarPosition::Upper) =~= "vol_"@ + volume + "_part_Upper"@);
    assert(cache_key(volume, BarPosition::Lower) =~= "vol_"@ + volume + "_part_Lower"@);
    lemma_keys_differ(volume, BarPosition::Upper, volume, BarPosition::Lower);
    if other != volume {
        lemma_keys_differ(volume, BarPosition::Upper, other, BarPosition::Upper);
        lemma_keys_differ(volume, BarPosition::Upper, other, BarPosition::Lower);
        lemma_keys_differ(volume, BarPosition::Lower, other, BarPosition::Upper);
        lemma_keys_differ(volume, BarPosition::Lower, other, BarPosition::Lower);
    }
}

proof fn lemma_keys_differ(a: Seq<char>, p: BarPosition, b: Seq<char>, q: BarPosition)
    requires
        a != b || p != q,
    ensures
        cache_key(a, p) != cache_key(b, q),
{
    reveal_strlit("vol_");
    reveal_strlit("_part_");
    reveal_strlit("Upper");
    reveal_strlit("Lower");
    let s = cache_key(a, p);
    let t = cache_key(b, q);
    if s == t {
        assert(p.name().len() == 5 && q.name().len() == 5);
        assert(s.len() == a.len() + 15 && t.len() == b.len() + 15);
        assert(a =~= s.subrange(4, 4 + a.len() as int));
        assert(b =~= t.subrange(4, 4 + b.len() as int));
        assert(s[s.len() - 5] == p.name()[0]);
        assert(t[t.len() - 5] == q.name()[0]);
    }
}

proof fn lemma_after_comma(before: Seq<char>, after: Seq<char>)
    requires
        !before.contains(','),
    ensures
        after_comma(before + seq![','] + after) == after,
{
    reveal_strlit(",");
    let uri = before + seq![','] + after;
    let at = before.len() as int;
    assert(","@ =~= seq![',']);
    assert(uri.subrange(at, at + 1) =~= ","@);
    law_first_position_is_found(uri, ","@, at);
    let first = index_of(uri, ","@)->0;
    assert(uri.subrange(first, first + 1)[0] == ',');
    assert(uri[first] == ',');
    if first < at {
        assert(before[first] == ',');
        assert(before.contains(','));
    }
    assert(uri.skip(at + 1) =~= after);
}

proof fn lemma_no_comma(text: Seq<char>)
    requires
        !text.contains(','),
    ensures
        after_comma(text) == Seq::<char>::empty(),
{
    reveal_strlit(",");
    if index_of(text, ","@) is Some {
        let k = choose|k: int| crate::text::occurs_at(text, ","@, k);
        assert(crate::text::occurs_at(text, ","@, k));
        assert(text.subrange(k, k + 1)[0] == text[k]);
        assert(text[k] == ',');
    }
}

/// The file in a data URI stands behind its first comma, whatever stands before it; a
/// text without one holds what an empty text holds.
pub proof fn law_file_stands_behind_the_first_comma(before: Seq<char>, after: Seq<char>)
    requires
        !before.contains(','),
    ensures
        file_in_uri(before + seq![','] + after) == base64_bytes(after),
        file_in_uri(before) == base64_bytes(Seq::empty()),
{
    lemma_after_comma(before, after);
    lemma_no_comma(before);
}

/// The data URI of a picture holds the PNG file of its size and its bytes.
pub proof fn law_uri_holds_the_picture(picture: PixmapView)
    ensures
        ({
            let png = png_file(picture.width, picture.height, pixel_bytes(picture.pixels));
            &&& picture_uri(picture) is Some <==> png is Some && 4 * (png->0).len() <= usize::MAX
            &&& picture_uri(picture) matches Some(uri) ==> {
                &&& after_comma(uri) == base64_text(png->0)
                &&& "data:image/png;base64"@ == uri.take(21)
            }
        }),
{
    reveal_strlit("data:image/png;base64");
    reveal_strlit("data:image/png;base64,");
    reveal_strlit(",");
    let png = png_file(picture.width, picture.height, pixel_bytes(picture.pixels));
    if let Some(uri) = picture_uri(picture) {
        let before = "data:image/png;base64"@;
        let after = base64_text(png->0);
        assert(uri =~= before + seq![','] + after);
        assert(uri.take(21) =~= before);
        assert(!before.contains(','));
        lemma_after_comma(before, after);
    }
}

/// A data URI of a file that is no WebP holds the picture that the file is decoded to.
pub proof fn law_picture_of_a_file_is_shown(before: Seq<char>, after: Seq<char>)
    requires
        !before.contains(','),
        base64_bytes(after) matches Some(file) ==> file.len() <= 20 || file.take(4) != seq![
            0x52u8,
            0x49,
            0x46,
            0x46,
        ],
    ensures
        picture_in_uri(before + seq![','] + after) == match base64_bytes(after) {
            Some(file) => decoded_image(file),
            None => None,
        },
{
    law_file_stands_behind_the_first_comma(before, after);
    if let Some(file) = base64_bytes(after) {
        law_other_files_are_decoded(file);
    }
}

} // verus!
