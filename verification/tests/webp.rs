use base64::Engine;
use volume_controller::gfx::image_uri::{lcd_icon, png_data_uri};
use volume_controller::kick::avatar_png;
use volume_controller::webp::{alpha_frame_is_fit, is_free_of_lossless_part};

/// A lossy picture of one pixel.
const LOSSY: &str = "UklGRiIAAABXRUJQVlA4IBYAAAAwAQCdASoBAAEADsD+JaQAA3AAAAAA";

/// A lossy picture of one pixel with a compressed alpha plane.
const LOSSY_WITH_ALPHA: &str =
    "UklGRkoAAABXRUJQVlA4WAoAAAAQAAAAAAAAAAAAQUxQSAwAAAARBxAR/Q9ERP8DAABWUDggGAAAABQBAJ0BKgEAAQAAAP4AAA3AAP7mtQAAAA==";

fn bytes(text: &str) -> Vec<u8> {
    base64::engine::general_purpose::STANDARD.decode(text).unwrap()
}

/// A lossless picture of two pixels.
fn lossless() -> Vec<u8> {
    let mut out = Vec::new();
    image::codecs::webp::WebPEncoder::new_lossless(&mut out)
        .encode(&[200u8, 10, 20, 255, 1, 2, 3, 255], 2, 1, image::ExtendedColorType::Rgba8)
        .unwrap();
    out
}

fn chunk(tag: &[u8; 4], data: &[u8]) -> Vec<u8> {
    let mut out = tag.to_vec();
    out.extend_from_slice(&(data.len() as u32).to_le_bytes());
    out.extend_from_slice(data);
    if data.len() % 2 == 1 {
        out.push(0);
    }
    out
}

fn file(chunks: &[Vec<u8>]) -> Vec<u8> {
    let mut body = b"WEBP".to_vec();
    for c in chunks {
        body.extend_from_slice(c);
    }
    let mut out = b"RIFF".to_vec();
    out.extend_from_slice(&(body.len() as u32).to_le_bytes());
    out.extend_from_slice(&body);
    out
}

fn low_three(n: u32) -> [u8; 3] {
    let [a, b, c, _] = n.to_le_bytes();
    [a, b, c]
}

fn canvas(flags: u8, width: u32, height: u32) -> Vec<u8> {
    let mut data = vec![flags, 0, 0, 0];
    data.extend_from_slice(&low_three(width - 1));
    data.extend_from_slice(&low_three(height - 1));
    chunk(b"VP8X", &data)
}

fn frame(width: u32, height: u32, parts: &[Vec<u8>]) -> Vec<u8> {
    let mut data = vec![0; 6];
    data.extend_from_slice(&low_three(width - 1));
    data.extend_from_slice(&low_three(height - 1));
    data.extend_from_slice(&[0, 0, 0, 2]);
    for p in parts {
        data.extend_from_slice(p);
    }
    chunk(b"ANMF", &data)
}

/// A picture that begins like a key frame of a size, and holds nothing more.
fn picture(width: u16, height: u16) -> Vec<u8> {
    let mut data = vec![0x10, 0, 0, 0x9d, 0x01, 0x2a];
    data.extend_from_slice(&width.to_le_bytes());
    data.extend_from_slice(&height.to_le_bytes());
    chunk(b"VP8 ", &data)
}

fn plane() -> Vec<u8> {
    chunk(b"ALPH", &[0, 255, 255, 255, 255])
}

fn animated(flags: u8, frames: &[Vec<u8>]) -> Vec<u8> {
    let mut chunks = vec![canvas(flags, 8, 8), chunk(b"ANIM", &[0; 6]), chunk(b"note", b"odd")];
    chunks.extend_from_slice(frames);
    file(&chunks)
}

#[test]
fn alpha_frames_with_a_picture_of_another_size_are_told_apart() {
    let same = frame(2, 2, &[plane(), picture(2, 2)]);
    let wider = frame(2, 2, &[plane(), picture(3, 2)]);
    let lower = frame(2, 2, &[plane(), picture(2, 1)]);
    assert!(alpha_frame_is_fit(&animated(0x12, &[same.clone()])));
    assert!(!alpha_frame_is_fit(&animated(0x12, &[wider.clone()])));
    assert!(!alpha_frame_is_fit(&animated(0x12, &[lower])));
    // The two high bits of a side are not part of it.
    let scaled = frame(2, 2, &[plane(), picture(0x4002, 0xc002)]);
    assert!(alpha_frame_is_fit(&animated(0x12, &[scaled])));
    // Only the first frame is shown, and only of an animation.
    assert!(alpha_frame_is_fit(&animated(0x12, &[same, wider.clone()])));
    assert!(alpha_frame_is_fit(&animated(0x10, &[wider])));
    // Without an alpha plane the picture's size is checked by the decoder.
    let opaque = frame(2, 2, &[picture(3, 2)]);
    assert!(alpha_frame_is_fit(&animated(0x02, &[opaque])));
}

#[test]
fn files_that_end_early_are_fit() {
    let whole = animated(0x12, &[frame(2, 2, &[plane(), picture(3, 2)])]);
    for n in 0..whole.len() {
        assert!(alpha_frame_is_fit(&whole[..n]));
    }
    assert!(!alpha_frame_is_fit(&whole));
    assert!(alpha_frame_is_fit(b"no picture"));
    // Chunks that begin behind the end that the file states are not looked at.
    let mut short = whole.clone();
    short[4..8].copy_from_slice(&12u32.to_le_bytes());
    assert!(alpha_frame_is_fit(&short));
}

#[test]
fn unfit_files_give_no_picture() {
    let unfit = animated(0x12, &[frame(2, 2, &[plane(), picture(3, 2)])]);
    assert_eq!(avatar_png(&unfit), None);
    assert!(lcd_icon(&png_data_uri(&unfit)).is_none());
}

fn moving(frames: &[Vec<u8>]) -> Vec<u8> {
    let mut chunks = vec![canvas(0x12, 1, 3), chunk(b"ANIM", &[0; 6])];
    chunks.extend_from_slice(frames);
    file(&chunks)
}

#[test]
fn fit_animations_show_their_first_frame() {
    let still = bytes(LOSSY);
    let colour = image::load_from_memory(&still).unwrap().to_rgba8().into_raw();
    let picture = still[12..].to_vec();
    let shown = frame(1, 1, &[chunk(b"ALPH", &[0, 0x80]), picture.clone()]);
    let whole = moving(&[shown]);
    assert!(alpha_frame_is_fit(&whole) && is_free_of_lossless_part(&whole));
    let back = image::load_from_memory(&avatar_png(&whole).unwrap()).unwrap().to_rgba8();
    assert_eq!((back.width(), back.height()), (1, 3));
    assert_eq!(&back.into_raw()[..4], &[colour[0], colour[1], colour[2], 0x80]);

    // A picture that is smaller than its frame fits where rows go in two by two.
    let tall = frame(1, 3, &[chunk(b"ALPH", &[0, 1, 2, 3]), picture.clone()]);
    let whole = moving(&[tall]);
    assert!(alpha_frame_is_fit(&whole));
    let back = image::load_from_memory(&avatar_png(&whole).unwrap()).unwrap().to_rgba8();
    assert_eq!(back.into_raw()[3], 1);
    let uneven = moving(&[frame(1, 2, &[chunk(b"ALPH", &[0, 1, 2]), picture])]);
    assert!(!alpha_frame_is_fit(&uneven));
    assert_eq!(avatar_png(&uneven), None);
}

#[test]
fn lossless_parts_are_told_apart() {
    // The only chunk, or one of an extended file.
    let still = lossless();
    assert!(!is_free_of_lossless_part(&still));
    let part = still[12..].to_vec();
    let extended = file(&[canvas(0x10, 2, 1), chunk(b"note", b"odd"), part.clone()]);
    assert!(!is_free_of_lossless_part(&extended));
    // In the first frame, in either place, and in no other.
    let first = frame(2, 1, &[part.clone()]);
    let second = frame(2, 1, &[plane(), part.clone()]);
    let lossy = frame(2, 2, &[plane(), picture(2, 2)]);
    assert!(!is_free_of_lossless_part(&animated(0x12, &[first.clone()])));
    assert!(!is_free_of_lossless_part(&animated(0x12, &[second])));
    assert!(is_free_of_lossless_part(&animated(0x12, &[lossy, first])));
    // An alpha plane counts if it is compressed.
    let packed = chunk(b"ALPH", &[0x11, 0, 0]);
    let still = file(&[canvas(0x10, 2, 2), packed.clone(), picture(2, 2)]);
    assert!(!is_free_of_lossless_part(&still));
    let still = file(&[canvas(0x10, 2, 2), plane(), picture(2, 2)]);
    assert!(is_free_of_lossless_part(&still));
    let shown = frame(2, 2, &[packed, picture(2, 2)]);
    assert!(!is_free_of_lossless_part(&animated(0x12, &[shown])));
    assert!(!is_free_of_lossless_part(&bytes(LOSSY_WITH_ALPHA)));

    assert!(is_free_of_lossless_part(&bytes(LOSSY)));
    assert!(is_free_of_lossless_part(b"no picture"));
    assert!(is_free_of_lossless_part(b""));
}

#[test]
fn files_with_a_lossless_part_give_no_picture() {
    for whole in [lossless(), bytes(LOSSY_WITH_ALPHA)] {
        assert_eq!(avatar_png(&whole), None);
        assert!(lcd_icon(&png_data_uri(&whole)).is_none());
    }
    assert!(lcd_icon(&png_data_uri(&bytes(LOSSY))).is_some());
}
