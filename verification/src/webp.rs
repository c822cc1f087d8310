//! WebP files that are kept from the decoder of the `image` crate, told by their
//! headers.
//!
//! There are two kinds:
//!   - A frame with an alpha plane states its size twice: once for the frame, and once
//!     in the lossy picture that the plane belongs to. The decoder does not compare
//!     the two, and indexes out of range where the picture does not fit the frame.
//!   - A lossless picture or alpha plane comes with tables of prefix codes. The decoder
//!     lets some tables pass whose codes overlap, and indexes out of range in building
//!     them. Nothing short of decoding tells such a stream from a sound one, so all
//!     lossless parts are left out: avatars are lossy WebP, and icons are PNG.

use vstd::prelude::*;

verus! {

/// The number that two bytes stand for, the low one first.
pub open spec fn short_at(file: Seq<u8>, at: int) -> int {
    file[at] + 0x100 * file[at + 1]
}

/// The number that three bytes stand for, the low one first.
pub open spec fn triple_at(file: Seq<u8>, at: int) -> int {
    short_at(file, at) + 0x1_0000 * file[at + 2]
}

/// The number that four bytes stand for, the low one first.
pub open spec fn word_at(file: Seq<u8>, at: int) -> int {
    triple_at(file, at) + 0x100_0000 * file[at + 3]
}

/// Whether the four letters of a tag stand at a place.
pub open spec fn tagged(file: Seq<u8>, at: int, tag: [u8; 4]) -> bool {
    &&& file[at] == tag[0]
    &&& file[at + 1] == tag[1]
    &&& file[at + 2] == tag[2]
    &&& file[at + 3] == tag[3]
}

pub const RIFF: [u8; 4] = [0x52, 0x49, 0x46, 0x46];

pub const WEBP: [u8; 4] = [0x57, 0x45, 0x42, 0x50];

pub const VP8L: [u8; 4] = [0x56, 0x50, 0x38, 0x4c];

pub const VP8X: [u8; 4] = [0x56, 0x50, 0x38, 0x58];

pub const ANMF: [u8; 4] = [0x41, 0x4e, 0x4d, 0x46];

pub const ALPH: [u8; 4] = [0x41, 0x4c, 0x50, 0x48];

/// The room that a chunk of some size takes: an even number of bytes, as far as it
/// fits in 32 bits.
pub open spec fn padded(size: int) -> int {
    if size == u32::MAX {
        size
    } else {
        size + size % 2
    }
}

/// Where the chunk behind the one that begins at `at` begins.
pub open spec fn next_chunk(file: Seq<u8>, at: int) -> int {
    at + 8 + padded(word_at(file, at + 4))
}

/// Whether a file is a WebP whose first chunk has a tag.
pub open spec fn begins_with(file: Seq<u8>, tag: [u8; 4]) -> bool {
    &&& file.len() > 20
    &&& tagged(file, 0, RIFF)
    &&& tagged(file, 8, WEBP)
    &&& tagged(file, 12, tag)
}

/// Where the chunks of a WebP end: the file's own size, without what stands before
/// the first chunk, is counted from the second chunk on.
pub open spec fn chunks_end(file: Seq<u8>) -> int {
    let room = word_at(file, 4) - 12;
    next_chunk(file, 12) + if room > 0 {
        room
    } else {
        0
    }
}

/// How far `at` is from `end`, if it stands before it.
pub open spec fn distance(at: int, end: int) -> int {
    if at < end {
        end - at
    } else {
        0
    }
}

/// Where the first `ANMF` chunk begins among those that follow each other from `at`
/// on and begin before `end`, if there is one.
pub open spec fn first_frame(file: Seq<u8>, at: int, end: int) -> Option<int>
    decreases distance(at, end),
{
    if at >= end || at + 8 > file.len() {
        None
    } else if tagged(file, at, ANMF) {
        Some(at)
    } else {
        first_frame(file, next_chunk(file, at), end)
    }
}

/// Where the first frame of a WebP begins, if it has one.
pub open spec fn frame_in(file: Seq<u8>) -> Option<int> {
    first_frame(file, next_chunk(file, 12), chunks_end(file))
}

/// Whether a picture can be laid into the pixels of a frame row by row, first one
/// row, then two at a time, then what is left.
pub open spec fn picture_fits(frame: int, width: int, height: int) -> bool {
    let left = (frame - width) % (2 * width);
    &&& width > 0
    &&& height > 0
    &&& width * height <= frame
    &&& left == 0 || (height % 2 == 0 && (width % 2 == 1 || left % 2 == 0))
}

/// Whether the frame whose `ANMF` chunk begins at `at` has an alpha plane, and a
/// picture that does not fit the frame.
pub open spec fn unfit_at(file: Seq<u8>, at: int) -> bool {
    let picture = next_chunk(file, at + 24) + 8;
    let frame = (triple_at(file, at + 14) + 1) * (triple_at(file, at + 17) + 1);
    &&& at + 32 <= file.len()
    &&& tagged(file, at + 24, ALPH)
    &&& picture + 10 <= file.len()
    &&& !picture_fits(
        frame,
        short_at(file, picture + 6) % 0x4000,
        short_at(file, picture + 8) % 0x4000,
    )
}

/// Whether a file is an animated WebP whose first frame has an alpha plane, and a
/// picture that does not fit the frame.
pub open spec fn has_unfit_alpha_frame(file: Seq<u8>) -> bool {
    &&& begins_with(file, VP8X)
    &&& (file[20] / 2) % 2 == 1
    &&& frame_in(file) matches Some(at) && unfit_at(file, at)
}

/// Whether the chunk at `at` is a lossless picture, or an alpha plane that is
/// compressed like one.
pub open spec fn lossless_at(file: Seq<u8>, at: int) -> bool {
    &&& at + 8 <= file.len()
    &&& {
        ||| tagged(file, at, VP8L)
        ||| tagged(file, at, ALPH) && at + 8 < file.len() && file[at + 8] % 4 == 1
    }
}

/// Whether one of the chunks that follow each other from `at` on and begin before
/// `end` is lossless.
pub open spec fn lossless_from(file: Seq<u8>, at: int, end: int) -> bool
    decreases distance(at, end),
{
    &&& at < end
    &&& at + 8 <= file.len()
    &&& lossless_at(file, at) || lossless_from(file, next_chunk(file, at), end)
}

/// Whether one of the two chunks inside the frame that begins at `at` is lossless.
pub open spec fn lossless_in_frame(file: Seq<u8>, at: int) -> bool {
    &&& at + 32 <= file.len()
    &&& lossless_at(file, at + 24) || lossless_at(file, next_chunk(file, at + 24))
}

/// Whether a file is a WebP with a lossless part among what the decoder may read: its
/// only chunk, one of the chunks of an extended file, or one inside its first frame.
pub open spec fn runs_lossless_part(file: Seq<u8>) -> bool {
    ||| begins_with(file, VP8L)
    ||| {
        &&& begins_with(file, VP8X)
        &&& {
            ||| lossless_from(file, next_chunk(file, 12), chunks_end(file))
            ||| frame_in(file) matches Some(at) && lossless_in_frame(file, at)
        }
    }
}

fn read_short(file: &[u8], at: usize) -> (r: u32)
    requires
        at + 2 <= file@.len(),
    ensures
        r == short_at(file@, at as int),
{
    file[at] as u32 + 0x100 * file[at + 1] as u32
}

fn read_triple(file: &[u8], at: usize) -> (r: u32)
    requires
        at + 3 <= file@.len(),
    ensures
        r == triple_at(file@, at as int),
{
    let n: usize = file.len();
    assert(at + 3 <= n);
    read_short(file, at) + 0x1_0000 * file[at + 2] as u32
}

fn read_word(file: &[u8], at: usize) -> (r: u32)
    requires
        at + 4 <= file@.len(),
    ensures
        r == word_at(file@, at as int),
{
    let n: usize = file.len();
    assert(at + 4 <= n);
    read_triple(file, at) + 0x100_0000 * file[at + 3] as u32
}

fn is_tagged(file: &[u8], at: usize, tag: [u8; 4]) -> (r: bool)
    requires
        at + 4 <= file@.len(),
    ensures
        r == tagged(file@, at as int, tag),
{
    file[at] == tag[0] && file[at + 1] == tag[1] && file[at + 2] == tag[2] && file[at + 3] == tag[3]
}

fn chunk_after(file: &[u8], at: usize) -> (r: u64)
    requires
        at + 8 <= file@.len(),
        at <= 0x4_0000_0000,
    ensures
        r == next_chunk(file@, at as int),
        at + 8 <= r <= at + 8 + u32::MAX,
{
    let n: usize = file.len();
    assert(at + 8 <= n);
    let size: u32 = read_word(file, at + 4);
    if size == u32::MAX {
        at as u64 + 8 + size as u64
    } else {
        at as u64 + 8 + size as u64 + size as u64 % 2
    }
}

fn has_first_chunk(file: &[u8], tag: [u8; 4]) -> (r: bool)
    ensures
        r == begins_with(file@, tag),
{
    file.len() > 20 && is_tagged(file, 0, RIFF) && is_tagged(file, 8, WEBP) && is_tagged(
        file,
        12,
        tag,
    )
}

fn end_of_chunks(file: &[u8]) -> (r: u64)
    requires
        file@.len() > 20,
    ensures
        r == chunks_end(file@),
        r <= 0x2_0000_0020,
{
    let size: u32 = read_word(file, 4);
    chunk_after(file, 12) + if size > 12 {
        (size - 12) as u64
    } else {
        0
    }
}

fn find_frame(file: &[u8]) -> (r: Option<usize>)
    requires
        file@.len() > 20,
    ensures
        match r {
            Some(at) => frame_in(file@) == Some(at as int) && at + 8 <= file@.len() && at
                < 0x2_0000_0020,
            None => frame_in(file@) is None,
        },
{
    let len: usize = file.len();
    let end: u64 = end_of_chunks(file);
    let mut at: u64 = chunk_after(file, 12);
    while at < end && at + 8 <= len as u64
        invariant
            len == file@.len(),
            end <= 0x2_0000_0020,
            at <= 0x3_0000_0040,
            frame_in(file@) == first_frame(file@, at as int, end as int),
        decreases distance(at as int, end as int),
    {
        if is_tagged(file, at as usize, ANMF) {
            return Some(at as usize);
        }
        at = chunk_after(file, at as usize);
    }
    None
}

fn fits(frame: u64, width: u32, height: u32) -> (r: bool)
    requires
        width < 0x4000,
        height < 0x4000,
    ensures
        r == picture_fits(frame as int, width as int, height as int),
{
    if width == 0 || height == 0 {
        return false;
    }
    proof {
        assert(width <= width * height <= 0x4000 * 0x4000) by (nonlinear_arith)
            requires
                0 < width < 0x4000,
                0 < height < 0x4000,
        ;
    }
    if (width * height) as u64 > frame {
        return false;
    }
    let left: u64 = (frame - width as u64) % (2 * width as u64);
    left == 0 || (height % 2 == 0 && (width % 2 == 1 || left % 2 == 0))
}

fn frame_is_unfit(file: &[u8], at: usize) -> (r: bool)
    requires
        at <= file@.len(),
        at < 0x2_0000_0020,
    ensures
        r == unfit_at(file@, at as int),
{
    let len: usize = file.len();
    if len - at < 32 || !is_tagged(file, at + 24, ALPH) {
        return false;
    }
    let next: u64 = chunk_after(file, at + 24);
    if (len as u64) < next + 18 {
        return false;
    }
    let picture: usize = next as usize + 8;
    let width: u32 = read_triple(file, at + 14) + 1;
    let height: u32 = read_triple(file, at + 17) + 1;
    proof {
        assert(width * height <= 0x100_0000 * 0x100_0000) by (nonlinear_arith)
            requires
                width <= 0x100_0000,
                height <= 0x100_0000,
        ;
    }
    !fits(
        width as u64 * height as u64,
        read_short(file, picture + 6) % 0x4000,
        read_short(file, picture + 8) % 0x4000,
    )
}

/// Whether a file is no animated WebP whose first frame has an alpha plane and a
/// picture that does not fit the frame.
pub fn alpha_frame_is_fit(file: &[u8]) -> (r: bool)
    ensures
        r == !has_unfit_alpha_frame(file@),
{
    if !has_first_chunk(file, VP8X) || (file[20] / 2) % 2 != 1 {
        return true;
    }
    match find_frame(file) {
        Some(at) => !frame_is_unfit(file, at),
        None => true,
    }
}

fn is_lossless(file: &[u8], at: u64) -> (r: bool)
    ensures
        r == lossless_at(file@, at as int),
{
    let len: usize = file.len();
    if at > len as u64 || len as u64 - at < 8 {
        return false;
    }
    let start: usize = at as usize;
    is_tagged(file, start, VP8L) || (is_tagged(file, start, ALPH) && len - start > 8 && file[start
        + 8] % 4 == 1)
}

fn has_lossless_chunk(file: &[u8]) -> (r: bool)
    requires
        file@.len() > 20,
    ensures
        r == lossless_from(file@, next_chunk(file@, 12), chunks_end(file@)),
{
    let len: usize = file.len();
    let end: u64 = end_of_chunks(file);
    let mut at: u64 = chunk_after(file, 12);
    while at < end && at + 8 <= len as u64
        invariant
            len == file@.len(),
            end <= 0x2_0000_0020,
            at <= 0x3_0000_0040,
            lossless_from(file@, next_chunk(file@, 12), chunks_end(file@)) == lossless_from(
                file@,
                at as int,
                end as int,
            ),
        decreases distance(at as int, end as int),
    {
        if is_lossless(file, at) {
            return true;
        }
        at = chunk_after(file, at as usize);
    }
    false
}

/// Whether a file is no WebP with a lossless part among what the decoder may read.
pub fn is_free_of_lossless_part(file: &[u8]) -> (r: bool)
    ensures
        r == !runs_lossless_part(file@),
{
    if has_first_chunk(file, VP8L) {
        return false;
    }
    if !has_first_chunk(file, VP8X) {
        return true;
    }
    if has_lossless_chunk(file) {
        return false;
    }
    match find_frame(file) {
        Some(at) => {
            let len: usize = file.len();
            len - at < 32 || !(is_lossless(file, at as u64 + 24) || is_lossless(
                file,
                chunk_after(file, at + 24),
            ))
        },
        None => true,
    }
}

/// Files that do not begin as a WebP does, and WebP files with one lossy picture, are
/// all handed to the decoder.
pub proof fn law_other_files_are_decoded(file: Seq<u8>)
    requires
        file.len() <= 20 || file.take(4) != seq![0x52u8, 0x49, 0x46, 0x46] || file.subrange(8, 12)
            != seq![0x57u8, 0x45, 0x42, 0x50] || file.subrange(12, 16) == seq![
            0x56u8,
            0x50,
            0x38,
            0x20,
        ],
    ensures
        !has_unfit_alpha_frame(file),
        !runs_lossless_part(file),
{
    if begins_with(file, VP8X) || begins_with(file, VP8L) {
        assert(file.take(4) =~= seq![0x52u8, 0x49, 0x46, 0x46]);
        assert(file.subrange(8, 12) =~= seq![0x57u8, 0x45, 0x42, 0x50]);
        assert(file.subrange(12, 16)[3] == file[15]);
    }
}

/// A WebP that begins with a lossless picture is not handed to the decoder.
pub proof fn law_lossless_files_are_not_decoded(size: Seq<u8>, rest: Seq<u8>)
    requires
        size.len() == 4,
        rest.len() > 4,
    ensures
        runs_lossless_part(
            seq![0x52u8, 0x49, 0x46, 0x46] + size + seq![
                0x57u8,
                0x45,
                0x42,
                0x50,
                0x56,
                0x50,
                0x38,
                0x4c,
            ] + rest,
        ),
{
}

/// A picture of the size of its frame fits it; one with more pixels does not.
pub proof fn law_pictures_fit_frames_of_their_size(frame: int, width: int, height: int)
    requires
        width > 0,
        height > 0,
    ensures
        width * height == frame ==> picture_fits(frame, width, height),
        width * height > frame ==> !picture_fits(frame, width, height),
{
    if width * height == frame {
        let half = (height - 1) / 2;
        let rest = (height - 1) % 2;
        assert(frame - width == (2 * width) * half + width * rest) by (nonlinear_arith)
            requires
                width * height == frame,
                height - 1 == 2 * half + rest,
        ;
        if rest == 0 {
            vstd::arithmetic::div_mod::lemma_fundamental_div_mod_converse(
                frame - width,
                2 * width,
                half,
                0,
            );
        } else {
            assert(width * rest == width);
            vstd::arithmetic::div_mod::lemma_fundamental_div_mod_converse(
                frame - width,
                2 * width,
                half,
                width,
            );
        }
    }
}

/// The size of the chunk that begins at `at`: four bytes, the low one first.
pub open spec fn size_of_chunk(file: Seq<u8>, at: int) -> int {
    file[at + 4] + 256 * file[at + 5] + 65536 * file[at + 6] + 16777216 * file[at + 7]
}

/// Whether places in a file are those of chunks that follow each other, each behind an
/// even number of bytes.
pub open spec fn are_chunks(file: Seq<u8>, at: Seq<int>) -> bool {
    &&& forall|i: int| 0 <= i < at.len() ==> 0 <= #[trigger] at[i] <= file.len() - 8
    &&& forall|i: int|
        #![trigger at[i]]
        0 <= i < at.len() - 1 ==> {
            &&& size_of_chunk(file, at[i]) < u32::MAX
            &&& at[i + 1] == at[i] + 8 + (size_of_chunk(file, at[i]) + 1) / 2 * 2
        }
}

/// Wherever a lossless picture, or an alpha plane that is compressed like one, stands
/// among the chunks of an extended WebP, the file is not handed to the decoder.
pub proof fn law_lossless_chunks_are_found(file: Seq<u8>, at: Seq<int>)
    requires
        begins_with(file, [0x56, 0x50, 0x38, 0x58]),
        at.len() > 1,
        at[0] == 12,
        are_chunks(file, at),
        at.last() < at[1] + size_of_chunk(file, 0) - 12,
        file.subrange(at.last(), at.last() + 4) == seq![0x56u8, 0x50, 0x38, 0x4c] || (
        file.subrange(at.last(), at.last() + 4) == seq![0x41u8, 0x4c, 0x50, 0x48] && at.last() + 8
            < file.len() && file[at.last() + 8] % 4 == 1),
    ensures
        runs_lossless_part(file),
{
    let last = at.last();
    let part = file.subrange(last, last + 4);
    assert(part[0] == file[last] && part[1] == file[last + 1] && part[2] == file[last + 2]
        && part[3] == file[last + 3]);
    assert(at[0] == 12 && 0 <= at[0] <= file.len() - 8);
    assert(0 <= at[1] <= file.len() - 8);
    assert(lossless_at(file, last));
    assert(at[1] == next_chunk(file, 12));
    lemma_lossless_from(file, at, 1, chunks_end(file));
}

proof fn lemma_lossless_from(file: Seq<u8>, at: Seq<int>, i: int, end: int)
    requires
        0 <= i < at.len(),
        are_chunks(file, at),
        at.last() < end,
        lossless_at(file, at.last()),
    ensures
        lossless_from(file, at[i], end),
        at[i] <= at.last(),
    decreases at.len() - i,
{
    assert(0 <= at[i] <= file.len() - 8);
    if i < at.len() - 1 {
        assert(at[i + 1] == next_chunk(file, at[i]));
        lemma_lossless_from(file, at, i + 1, end);
    }
}

} // verus!
