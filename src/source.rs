//! The frame source's read protocol: each read yields one whole frame of
//! `width * height * 4` bytes or nothing at all, and the transcoder's exit
//! status is checked once its output is used up.

use vstd::prelude::*;
use crate::codec::{ascii_art, render_frame};
use crate::error::PipelineError;
use crate::wire::line_block;

verus! {

/// The bytes of one raw frame: four per pixel.
pub open spec fn frame_len(width: u32, height: u32) -> int {
    width * height * 4
}

/// The size of one raw frame, where it fits in `usize`.
pub fn frame_byte_len(width: u32, height: u32) -> (r: Option<usize>)
    ensures
        match r {
            Some(n) => n == frame_len(width, height),
            None => frame_len(width, height) > usize::MAX,
        },
{
    assert(0 <= width * height <= 0xffff_ffff * 0xffff_ffff) by (nonlinear_arith)
        requires width <= 0xffff_ffff, height <= 0xffff_ffff;
    let n = width as u128 * height as u128 * 4;
    if n > usize::MAX as u128 {
        None
    } else {
        Some(n as usize)
    }
}

/// What one read of `got` bytes means when a frame is `frame_len` bytes:
/// `Ok(true)` a whole frame, `Ok(false)` a clean end, and any other count a
/// `TruncatedFrame`.
pub fn classify_read(got: usize, frame_len: usize) -> (r: Result<bool, PipelineError>)
    requires
        frame_len > 0,
    ensures
        got == frame_len ==> r == Ok::<bool, PipelineError>(true),
        got == 0 ==> r == Ok::<bool, PipelineError>(false),
        got != frame_len && got != 0 ==> r == Err::<bool, PipelineError>(PipelineError::TruncatedFrame),
{
    if got == frame_len {
        Ok(true)
    } else if got == 0 {
        Ok(false)
    } else {
        Err(PipelineError::TruncatedFrame)
    }
}

/// One step of production after a read of `got` bytes into `bgra`: the
/// frame's text to write where a whole frame came, `None` at a clean end,
/// `TruncatedFrame` otherwise.
pub fn production_step(width: u32, height: u32, got: usize, bgra: Vec<u8>) -> (r: Result<Option<Vec<u8>>, PipelineError>)
    requires
        width > 0,
        height > 0,
        bgra@.len() == frame_len(width, height),
    ensures
        got == bgra@.len() ==> (r matches Ok(Some(t)) && t@ == ascii_art((width, height, bgra@))
            && line_block(t@, height as nat)),
        got == 0 ==> r == Ok::<Option<Vec<u8>>, PipelineError>(None),
        got != bgra@.len() && got != 0 ==> r == Err::<Option<Vec<u8>>, PipelineError>(PipelineError::TruncatedFrame),
{
    assert(frame_len(width, height) > 0) by (nonlinear_arith)
        requires width > 0, height > 0;
    match classify_read(got, bgra.len()) {
        Ok(true) => Ok(Some(render_frame(width, height, bgra))),
        Ok(false) => Ok(None),
        Err(e) => Err(e),
    }
}

/// The outcome of production once the transcoder has exited: a failure
/// while reading stands; else a failing exit status is a `ProcessFailure`,
/// even where every frame was read.
pub fn finish_production(frames: Result<(), PipelineError>, exit_success: bool) -> (r: Result<(), PipelineError>)
    ensures
        frames is Err ==> r == frames,
        frames is Ok && !exit_success ==> r == Err::<(), PipelineError>(PipelineError::ProcessFailure),
        frames is Ok && exit_success ==> r == Ok::<(), PipelineError>(()),
{
    match frames {
        Err(e) => Err(e),
        Ok(()) => if exit_success {
            Ok(())
        } else {
            Err(PipelineError::ProcessFailure)
        },
    }
}

} // verus!
