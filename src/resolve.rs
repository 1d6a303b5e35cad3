//! The output resolution: which target width and height a request asks for,
//! given the source's size and the shape of a character cell.

use vstd::prelude::*;
use vstd::string::StringSliceAdditionalSpecFns;
use crate::error::PipelineError;
use crate::text::{after, before, decimal_at_most, has_byte, parse_decimal, split_once};

verus! {

pub const U32_MAX: u64 = 4294967295;

pub const U64_MAX: u64 = 18446744073709551615;

/// Why a character-cell description such as `"1x2"` was refused.
#[derive(Debug, Clone, Copy, PartialEq, Eq)]
pub enum CharDimsError {
    /// There is no `x` separating the width from the height.
    MissingHeight,
    /// The width is not a decimal `u32`.
    BadWidth,
    /// The height is not a decimal `u32`.
    BadHeight,
}

/// The height that keeps the source's proportions at target width `w`,
/// corrected for the character cell, truncated.
pub open spec fn derived_height(src_w: nat, src_h: nat, char_w: nat, char_h: nat, w: nat) -> int {
    (src_h * w * char_h) as int / (src_w * char_w) as int
}

/// The width that keeps the source's proportions at target height `h`,
/// corrected for the character cell, truncated.
pub open spec fn derived_width(src_w: nat, src_h: nat, char_w: nat, char_h: nat, h: nat) -> int {
    (src_w * h * char_w) as int / (src_h * char_h) as int
}

/// The divisor of the formula that a request uses is not zero.
pub open spec fn divisor_ok(
    src_w: nat,
    src_h: nat,
    char_w: nat,
    char_h: nat,
    dest_w: Option<u32>,
    dest_h: Option<u32>,
) -> bool {
    match (dest_w, dest_h) {
        (Some(_), Some(_)) => true,
        (Some(_), None) => src_w != 0 && char_w != 0,
        (None, Some(_)) => src_h != 0 && char_h != 0,
        (None, None) => false,
    }
}

/// The target resolution that a request asks for.
pub open spec fn resolved(
    src_w: nat,
    src_h: nat,
    char_w: nat,
    char_h: nat,
    dest_w: Option<u32>,
    dest_h: Option<u32>,
) -> (int, int) {
    match (dest_w, dest_h) {
        (Some(w), Some(h)) => (w as int, h as int),
        (Some(w), None) => (w as int, derived_height(src_w, src_h, char_w, char_h, w as nat)),
        (None, Some(h)) => (derived_width(src_w, src_h, char_w, char_h, h as nat), h as int),
        (None, None) => (0, 0),
    }
}

/// A request names at least one target dimension and no zero one.
pub open spec fn valid_request(dest_w: Option<u32>, dest_h: Option<u32>) -> bool {
    (dest_w is Some || dest_h is Some) && dest_w != Some(0u32) && dest_h != Some(0u32)
}

/// The resolved dimensions are both positive and fit in `u32`.
pub open spec fn fits(
    src_w: nat,
    src_h: nat,
    char_w: nat,
    char_h: nat,
    dest_w: Option<u32>,
    dest_h: Option<u32>,
) -> bool {
    let (w, h) = resolved(src_w, src_h, char_w, char_h, dest_w, dest_h);
    0 < w <= U32_MAX && 0 < h <= U32_MAX
}

/// `n * t * c / (m * d)` on `u32` operands, without overflow.
fn scale(n: u32, t: u32, c: u32, m: u32, d: u32) -> (r: u128)
    requires
        m != 0,
        d != 0,
    ensures
        r as int == (n as nat * t as nat * c as nat) as int / (m as nat * d as nat) as int,
{
    proof {
        let (a, b, k) = (n as int, t as int, c as int);
        assert(0 <= a * b <= 0xffff_ffff * 0xffff_ffff) by (nonlinear_arith)
            requires 0 <= a <= 0xffff_ffff, 0 <= b <= 0xffff_ffff;
        assert(0 <= a * b * k <= 0xffff_ffff * 0xffff_ffff * 0xffff_ffff) by (nonlinear_arith)
            requires 0 <= a * b <= 0xffff_ffff * 0xffff_ffff, 0 <= k <= 0xffff_ffff;
        let (x, y) = (m as int, d as int);
        assert(0 < x * y <= 0xffff_ffff * 0xffff_ffff) by (nonlinear_arith)
            requires 0 < x <= 0xffff_ffff, 0 < y <= 0xffff_ffff;
    }
    let num = n as u128 * t as u128 * c as u128;
    let den = m as u128 * d as u128;
    num / den
}

/// The target width and height: as given where both are given, else the
/// missing one derived from the other so that the source keeps its
/// proportions once drawn with cells of `char_w` by `char_h`.
pub fn new_target_dimensions(
    src_width: u32,
    src_height: u32,
    char_width: u32,
    char_height: u32,
    dest_width: Option<u32>,
    dest_height: Option<u32>,
) -> (r: (u32, u32))
    requires
        valid_request(dest_width, dest_height),
        divisor_ok(src_width as nat, src_height as nat, char_width as nat, char_height as nat, dest_width, dest_height),
        fits(src_width as nat, src_height as nat, char_width as nat, char_height as nat, dest_width, dest_height),
    ensures
        (r.0 as int, r.1 as int) == resolved(src_width as nat, src_height as nat, char_width as nat, char_height as nat, dest_width, dest_height),
{
    match (dest_width, dest_height) {
        (Some(w), Some(h)) => (w, h),
        (Some(w), None) => (w, scale(src_height, w, char_height, src_width, char_width) as u32),
        (None, Some(h)) => (scale(src_width, h, char_width, src_height, char_height) as u32, h),
        (None, None) => (0, 0),
    }
}

/// Checks a request and resolves it. It is refused with
/// `InputValidationError` where no target dimension or a zero one is given,
/// where the formula would divide by zero, or where its result is zero or
/// does not fit in `u32`.
pub fn resolve_target(
    src_width: u32,
    src_height: u32,
    char_width: u32,
    char_height: u32,
    dest_width: Option<u32>,
    dest_height: Option<u32>,
) -> (r: Result<(u32, u32), PipelineError>)
    ensures
        ({
            let ok = valid_request(dest_width, dest_height)
                && divisor_ok(src_width as nat, src_height as nat, char_width as nat, char_height as nat, dest_width, dest_height)
                && fits(src_width as nat, src_height as nat, char_width as nat, char_height as nat, dest_width, dest_height);
            match r {
                Ok(d) => ok && (d.0 as int, d.1 as int) == resolved(src_width as nat, src_height as nat, char_width as nat, char_height as nat, dest_width, dest_height),
                Err(e) => !ok && e == PipelineError::InputValidationError,
            }
        }),
{
    if dest_width == Some(0u32) || dest_height == Some(0u32) || (dest_width.is_none() && dest_height.is_none()) {
        return Err(PipelineError::InputValidationError);
    }
    let derived: u128 = match (dest_width, dest_height) {
        (Some(_), Some(_)) => 0,
        (Some(w), None) => {
            if src_width == 0 || char_width == 0 {
                return Err(PipelineError::InputValidationError);
            }
            scale(src_height, w, char_height, src_width, char_width)
        },
        (None, Some(h)) => {
            if src_height == 0 || char_height == 0 {
                return Err(PipelineError::InputValidationError);
            }
            scale(src_width, h, char_width, src_height, char_height)
        },
        (None, None) => 0,
    };
    if (dest_width.is_none() || dest_height.is_none()) && (derived == 0 || derived > U32_MAX as u128) {
        return Err(PipelineError::InputValidationError);
    }
    Ok(new_target_dimensions(src_width, src_height, char_width, char_height, dest_width, dest_height))
}

/// `q` is the truncated quotient of `num` by `den`, and it is positive
/// wherever `num` reaches `den`.
pub open spec fn truncated_quotient(q: int, num: int, den: int) -> bool {
    q * den <= num < (q + 1) * den && (num >= den ==> q >= 1)
}

proof fn lemma_truncated_quotient(num: int, den: int)
    requires
        num >= 0,
        den > 0,
    ensures
        truncated_quotient(num / den, num, den),
{
    vstd::arithmetic::div_mod::lemma_fundamental_div_mod(num, den);
    let q = num / den;
    assert(q * den <= num < (q + 1) * den) by (nonlinear_arith)
        requires num == den * q + num % den, 0 <= num % den < den;
    if num >= den {
        assert(q >= 1) by (nonlinear_arith)
            requires num < (q + 1) * den, num >= den, den > 0;
    }
}

/// Where the source and the cell are positive and exactly one positive
/// target dimension is given, that one is kept and the other is the exact
/// truncated quotient of the formula, positive wherever its numerator
/// reaches its divisor.
pub proof fn lemma_companion_exact(
    src_w: u32,
    src_h: u32,
    char_w: u32,
    char_h: u32,
    dest_w: Option<u32>,
    dest_h: Option<u32>,
)
    requires
        src_w > 0 && src_h > 0 && char_w > 0 && char_h > 0,
        (dest_w is Some) != (dest_h is Some),
        valid_request(dest_w, dest_h),
    ensures
        ({
            let (w, h) = resolved(src_w as nat, src_h as nat, char_w as nat, char_h as nat, dest_w, dest_h);
            match dest_w {
                Some(tw) => w == tw && truncated_quotient(h, src_h * tw * char_h, src_w * char_w),
                None => h == dest_h->0 && truncated_quotient(w, src_w * dest_h->0 * char_w, src_h * char_h),
            }
        }),
{
    assert(src_w * char_w > 0 && src_h * char_h > 0) by (nonlinear_arith)
        requires src_w > 0, src_h > 0, char_w > 0, char_h > 0;
    match dest_w {
        Some(tw) => {
            assert(src_h * tw * char_h >= 0) by (nonlinear_arith);
            lemma_truncated_quotient(src_h * tw * char_h, src_w * char_w);
        },
        None => {
            let th = dest_h->0;
            assert(src_w * th * char_w >= 0) by (nonlinear_arith);
            lemma_truncated_quotient(src_w * th * char_w, src_h * char_h);
        },
    }
}

/// What a character-cell description asks for: no description means 1 by 1;
/// else the `u32` before the first `x` (all of it where there is none) is the
/// width, and the `u32` between that `x` and the next one (or the end) is the
/// height. They are read in that order, so a bad width is reported first.
pub open spec fn char_dims_of(s: Option<Seq<u8>>) -> Result<(u32, u32), CharDimsError> {
    match s {
        None => Ok((1, 1)),
        Some(t) => match decimal_at_most(before(t, 120), U32_MAX as nat) {
            None => Err(CharDimsError::BadWidth),
            Some(w) => if !has_byte(t, 120) {
                Err(CharDimsError::MissingHeight)
            } else {
                match decimal_at_most(before(after(t, 120), 120), U32_MAX as nat) {
                    None => Err(CharDimsError::BadHeight),
                    Some(h) => Ok((w as u32, h as u32)),
                }
            },
        },
    }
}

/// Reads a character-cell description such as `"1x2"`.
pub fn get_char_dims(char_string: Option<&str>) -> (r: Result<(u32, u32), CharDimsError>)
    ensures
        r == char_dims_of(
            match char_string {
                Some(s) => Some(s.spec_bytes()),
                None => None,
            },
        ),
{
    let s = match char_string {
        None => return Ok((1, 1)),
        Some(s) => s.as_bytes(),
    };
    let split = split_once(s, 120);
    let first = match split {
        Some((x, _)) => x,
        None => s,
    };
    let w = match parse_decimal(first, U32_MAX) {
        None => return Err(CharDimsError::BadWidth),
        Some(w) => w,
    };
    let rest = match split {
        None => return Err(CharDimsError::MissingHeight),
        Some((_, y)) => y,
    };
    let second = match split_once(rest, 120) {
        Some((x, _)) => x,
        None => rest,
    };
    let h = match parse_decimal(second, U32_MAX) {
        None => return Err(CharDimsError::BadHeight),
        Some(h) => h,
    };
    Ok((w as u32, h as u32))
}

} // verus!

verus! {

/// What a run of the converter is asked to do: the source video's path,
/// the optional target width and height, and the optional cell shape.
pub struct Args {
    pub video: String,
    pub target_width: Option<u32>,
    pub target_height: Option<u32>,
    pub char_dims: Option<String>,
}

impl Args {
    /// Checks the request before any outside tool runs: the target
    /// dimensions must form a valid request and the cell shape must parse;
    /// else it is an `InputValidationError`. Gives the cell shape.
    pub fn check(&self) -> (r: Result<(u32, u32), PipelineError>)
        ensures
            ({
                let cells = char_dims_of(
                    match self.char_dims {
                        Some(s) => Some(vstd::utf8::encode_utf8(s@)),
                        None => None,
                    },
                );
                match r {
                    Ok(d) => valid_request(self.target_width, self.target_height) && cells == Ok::<(u32, u32), CharDimsError>(d),
                    Err(e) => e == PipelineError::InputValidationError && (!valid_request(self.target_width, self.target_height) || cells is Err),
                }
            }),
    {
        if self.target_width == Some(0u32) || self.target_height == Some(0u32)
            || (self.target_width.is_none() && self.target_height.is_none()) {
            return Err(PipelineError::InputValidationError);
        }
        let cells = match &self.char_dims {
            Some(s) => get_char_dims(Some(s.as_str())),
            None => get_char_dims(None),
        };
        match cells {
            Ok(d) => Ok(d),
            Err(_) => Err(PipelineError::InputValidationError),
        }
    }
}

} // verus!
