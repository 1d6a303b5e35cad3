//! The outside codecs: the colored ascii-art renderer of a pixel frame, and
//! the base64 and lz4 frame decoders that unwrap a stored stream.

use vstd::prelude::*;
use crate::error::PipelineError;
use crate::wire::line_block;
use base64::engine::Engine;
use std::io::Read;

verus! {

/// The colored ascii art that asciify draws for a `width` by `height` frame
/// of BGRA pixels.
pub uninterp spec fn ascii_art(bgra: (u32, u32, Seq<u8>)) -> Seq<u8>;

/// What the standard base64 alphabet, with padding, decodes `s` into.
pub uninterp spec fn base64_decoded(s: Seq<u8>) -> Option<Seq<u8>>;

/// What lz4 frame decompression of `b` yields before it stops, and whether
/// it stopped without an error.
pub uninterp spec fn lz4_frame_decoded(b: Seq<u8>) -> (Seq<u8>, bool);

/// Relies on image's `ImageBuffer::from_raw`, which takes a buffer of at
/// least `width * height * 4` bytes, and asciify's
/// `AsciiBuilder::to_stream_colored`, which writes one newline-terminated
/// line per pixel row into a termcolor ANSI buffer (a row of a zero-width
/// image is never visited, hence `width > 0`).
#[verifier::external_body]
fn draw_ascii_art(width: u32, height: u32, bgra: Vec<u8>) -> (r: Vec<u8>)
    requires
        width > 0,
        bgra@.len() == width * height * 4,
    ensures
        r@ == ascii_art((width, height, bgra@)),
        line_block(r@, height as nat),
{
    let img = image::ImageBuffer::from_raw(width, height, bgra).unwrap();
    let mut out = termcolor::Buffer::ansi();
    asciify::AsciiBuilder::new_from_image(image::DynamicImage::ImageBgra8(img))
        .set_deep(true)
        .to_stream_colored(&mut out);
    out.into_inner()
}

/// Relies on base64's `STANDARD` engine `decode`, which fails on input that
/// is not padded standard base64.
#[verifier::external_body]
fn decode_base64(s: &[u8]) -> (r: Option<Vec<u8>>)
    ensures
        match base64_decoded(s@) {
            Some(v) => r matches Some(x) && x@ == v,
            None => r is None,
        },
{
    base64::engine::general_purpose::STANDARD.decode(s).ok()
}

/// Relies on lz4_flex's `frame::FrameDecoder`, read to its end: the result
/// depends on the bytes alone. Reading stops at the end of the first frame,
/// and corrupt data, within what is read, is an error; `read_to_end` keeps
/// the bytes that were decoded before an error.
#[verifier::external_body]
fn decode_lz4_frames(b: Vec<u8>) -> (r: (Vec<u8>, bool))
    ensures
        (r.0@, r.1) == lz4_frame_decoded(b@),
{
    let mut out = Vec::new();
    let ok = lz4_flex::frame::FrameDecoder::new(std::io::Cursor::new(b)).read_to_end(&mut out).is_ok();
    (out, ok)
}

/// Draws a frame of `width * height` BGRA pixels as `height` lines of
/// colored text.
pub fn render_frame(width: u32, height: u32, bgra: Vec<u8>) -> (r: Vec<u8>)
    requires
        width > 0,
        bgra@.len() == width * height * 4,
    ensures
        r@ == ascii_art((width, height, bgra@)),
        line_block(r@, height as nat),
{
    draw_ascii_art(width, height, bgra)
}

/// `t` up to and including its last newline: its complete lines.
pub open spec fn whole_lines(t: Seq<u8>) -> Seq<u8>
    decreases t.len(),
{
    if t.len() == 0 || t.last() == 10 {
        t
    } else {
        whole_lines(t.drop_last())
    }
}

/// The stream text that stored contents hold (base64 text of lz4 frames),
/// and the error that ended decoding early, if any. Where decompression
/// fails part way, the complete lines decoded before the failure are kept.
pub open spec fn unpacked(contents: Seq<u8>) -> (Seq<u8>, Option<PipelineError>) {
    match base64_decoded(contents) {
        Some(b) => {
            let (t, ok) = lz4_frame_decoded(b);
            if ok {
                (t, None)
            } else {
                (whole_lines(t), Some(PipelineError::DecodeError))
            }
        },
        None => (Seq::empty(), Some(PipelineError::DecodeError)),
    }
}

/// Cuts `t` after its last newline.
fn keep_whole_lines(t: &mut Vec<u8>)
    ensures
        final(t)@ == whole_lines(old(t)@),
{
    let mut j: usize = t.len();
    assert(old(t)@.subrange(0, j as int) =~= old(t)@);
    while j > 0 && t[j - 1] != 10
        invariant
            j <= t@.len(),
            t@ == old(t)@,
            whole_lines(old(t)@) == whole_lines(old(t)@.subrange(0, j as int)),
        decreases j,
    {
        assert(old(t)@.subrange(0, j as int).drop_last() =~= old(t)@.subrange(0, j - 1));
        j = j - 1;
    }
    t.truncate(j);
    assert(t@ =~= old(t)@.subrange(0, j as int));
}

/// Unwraps stored contents into the stream text that can be read, and the
/// `DecodeError` that corrupt base64 or lz4 data gives after it.
pub fn unpack_stream(contents: &[u8]) -> (r: (Vec<u8>, Option<PipelineError>))
    ensures
        (r.0@, r.1) == unpacked(contents@),
{
    let b = match decode_base64(contents) {
        Some(b) => b,
        None => {
            let e: Vec<u8> = Vec::new();
            assert(e@ =~= Seq::<u8>::empty());
            return (e, Some(PipelineError::DecodeError));
        },
    };
    let (mut t, ok) = decode_lz4_frames(b);
    if ok {
        (t, None)
    } else {
        keep_whole_lines(&mut t);
        (t, Some(PipelineError::DecodeError))
    }
}

} // verus!
