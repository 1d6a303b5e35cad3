//! Reading what the media probe tool prints: the source's pixel size as
//! `"<width>,<height>"` and its frame rate as `"<num>/<den>"`.

use vstd::prelude::*;
use crate::error::PipelineError;
use crate::resolve::{U32_MAX, U64_MAX};
use crate::text::{
    after, before, decimal_at_most, decimal_value, has_byte, is_decimal, lemma_decimal_below_pow10,
    lemma_pow10_monotone, parse_decimal, parse_digits, pow10, pow10_exec, split_once, trim_chars,
    trim_str, utf8_str,
};
use vstd::string::StringSliceAdditionalSpecFns;
use vstd::utf8::{decode_utf8, encode_utf8, valid_utf8};

verus! {

/// The largest numerator or denominator that a parsed frame rate has: a
/// term's digits fit in `u64`, scaled by at most `10^18`.
pub const RATE_TERM_MAX: u128 = 18_446_744_073_709_551_615_000_000_000_000_000_000;

/// A frame rate as the exact fraction `num / den` frames per second. Either
/// term may be zero, as the probe may state it: `0 / d` is no motion at all
/// and `n / 0` has no finite value.
#[derive(Debug, Clone, Copy, PartialEq, Eq)]
pub struct FrameRate {
    pub num: u128,
    pub den: u128,
}

impl FrameRate {
    /// Both terms are within what a probe term can give.
    pub open spec fn wf(self) -> bool {
        self.num <= RATE_TERM_MAX && self.den <= RATE_TERM_MAX
    }
}

/// A positive `u32` written in decimal.
pub open spec fn positive_u32(s: Seq<u8>) -> Option<u32> {
    match decimal_at_most(s, U32_MAX as nat) {
        Some(v) => if v > 0 { Some(v as u32) } else { None },
        None => None,
    }
}

/// What the probe printed, as text with its white space trimmed; output
/// that is not UTF-8 has none.
pub open spec fn probe_text(out: Seq<u8>) -> Option<Seq<u8>> {
    if valid_utf8(out) {
        Some(encode_utf8(trim_chars(decode_utf8(out))))
    } else {
        None
    }
}

/// The dimensions that trimmed probe text states: exactly two positive
/// decimal integers separated by one comma.
pub open spec fn dims_fields(t: Seq<u8>) -> Option<(u32, u32)> {
    if has_byte(t, 44) && !has_byte(after(t, 44), 44) {
        match (positive_u32(before(t, 44)), positive_u32(after(t, 44))) {
            (Some(w), Some(h)) => Some((w, h)),
            _ => None,
        }
    } else {
        None
    }
}

/// The dimensions that probe output states.
pub open spec fn dims_of(out: Seq<u8>) -> Option<(u32, u32)> {
    match probe_text(out) {
        Some(t) => dims_fields(t),
        None => None,
    }
}

/// A decimal number such as `30`, `+25` or `29.97`, as `(m, s)` with value
/// `m / s`: the digits (at most eighteen after the point) must fit in `u64`.
pub open spec fn term_of(t: Seq<u8>) -> Option<(nat, nat)> {
    if has_byte(t, 46) {
        let f = after(t, 46);
        match decimal_at_most(before(t, 46), U64_MAX as nat) {
            Some(a) => if is_decimal(f) && f.len() <= 18 && a * pow10(f.len()) + decimal_value(f) <= U64_MAX {
                Some((a * pow10(f.len()) + decimal_value(f), pow10(f.len())))
            } else {
                None
            },
            None => None,
        }
    } else {
        match decimal_at_most(t, U64_MAX as nat) {
            Some(a) => Some((a, 1nat)),
            None => None,
        }
    }
}

/// The frame rate that trimmed probe text states: a numerator before the
/// first slash and a denominator after it (up to a second slash, if any),
/// their quotient kept as a fraction.
pub open spec fn rate_fields(t: Seq<u8>) -> Option<FrameRate> {
    if has_byte(t, 47) {
        match (term_of(before(t, 47)), term_of(before(after(t, 47), 47))) {
            (Some((a, p)), Some((b, q))) => Some(FrameRate { num: (a * q) as u128, den: (b * p) as u128 }),
            _ => None,
        }
    } else {
        None
    }
}

/// The frame rate that probe output states.
pub open spec fn rate_of(out: Seq<u8>) -> Option<FrameRate> {
    match probe_text(out) {
        Some(t) => rate_fields(t),
        None => None,
    }
}

fn parse_positive(s: &[u8]) -> (r: Option<u32>)
    ensures
        r == positive_u32(s@),
{
    match parse_decimal(s, U32_MAX) {
        Some(v) => if v > 0 { Some(v as u32) } else { None },
        None => None,
    }
}

fn trimmed_text(out: &[u8]) -> (r: Option<&[u8]>)
    ensures
        match probe_text(out@) {
            Some(t) => r matches Some(x) && x@ == t,
            None => r is None,
        },
{
    match utf8_str(out) {
        Some(t) => Some(trim_str(t).as_bytes()),
        None => None,
    }
}

/// Parses trimmed probe text `"<width>,<height>"`.
pub fn parse_dimensions_text(t: &[u8]) -> (r: Result<(u32, u32), PipelineError>)
    ensures
        match dims_fields(t@) {
            Some(d) => r == Ok::<(u32, u32), PipelineError>(d),
            None => r == Err::<(u32, u32), PipelineError>(PipelineError::MediaProbeError),
        },
{
    let (a, b) = match split_once(t, 44) {
        Some(p) => p,
        None => return Err(PipelineError::MediaProbeError),
    };
    if split_once(b, 44).is_some() {
        return Err(PipelineError::MediaProbeError);
    }
    match (parse_positive(a), parse_positive(b)) {
        (Some(w), Some(h)) => Ok((w, h)),
        _ => Err(PipelineError::MediaProbeError),
    }
}

/// Parses the probe's `"<width>,<height>"` output, which must be UTF-8 and
/// is trimmed of white space; anything else is a `MediaProbeError`.
pub fn parse_dimensions(out: &[u8]) -> (r: Result<(u32, u32), PipelineError>)
    ensures
        match dims_of(out@) {
            Some(d) => r == Ok::<(u32, u32), PipelineError>(d),
            None => r == Err::<(u32, u32), PipelineError>(PipelineError::MediaProbeError),
        },
{
    match trimmed_text(out) {
        Some(t) => parse_dimensions_text(t),
        None => Err(PipelineError::MediaProbeError),
    }
}

fn parse_term(t: &[u8]) -> (r: Option<(u128, u128)>)
    ensures
        match term_of(t@) {
            Some((m, s)) => r == Some((m as u128, s as u128)) && m <= U64_MAX
                && 0 < s <= 1_000_000_000_000_000_000,
            None => r is None,
        },
{
    match split_once(t, 46) {
        Some((a, f)) => {
            let a = match parse_decimal(a, U64_MAX) {
                Some(a) => a,
                None => return None,
            };
            if f.len() == 0 || f.len() > 18 {
                return None;
            }
            let v = match parse_digits(f, 999_999_999_999_999_999) {
                Some(v) => v,
                None => {
                    proof {
                        if is_decimal(f@) {
                            lemma_decimal_below_pow10(f@);
                            lemma_pow10_monotone(f@.len(), 18);
                            reveal_with_fuel(pow10, 19);
                        }
                    }
                    return None;
                },
            };
            let p = pow10_exec(f.len());
            proof {
                lemma_decimal_below_pow10(f@);
                assert(a as nat * p as nat <= U64_MAX as nat * 1_000_000_000_000_000_000) by (nonlinear_arith)
                    requires a <= U64_MAX, p <= 1_000_000_000_000_000_000;
            }
            let m = a as u128 * p + v as u128;
            if m > U64_MAX as u128 {
                return None;
            }
            Some((m, p))
        },
        None => match parse_decimal(t, U64_MAX) {
            Some(a) => Some((a as u128, 1)),
            None => None,
        },
    }
}

/// Parses trimmed probe text `"<num>/<den>"`.
pub fn parse_frame_rate_text(t: &[u8]) -> (r: Result<FrameRate, PipelineError>)
    ensures
        match rate_fields(t@) {
            Some(f) => r == Ok::<FrameRate, PipelineError>(f) && f.wf(),
            None => r == Err::<FrameRate, PipelineError>(PipelineError::MediaProbeError),
        },
{
    let (a, rest) = match split_once(t, 47) {
        Some(p) => p,
        None => return Err(PipelineError::MediaProbeError),
    };
    let b = match split_once(rest, 47) {
        Some((x, _)) => x,
        None => rest,
    };
    match (parse_term(a), parse_term(b)) {
        (Some((m, p)), Some((n, q))) => {
            assert(m * q <= RATE_TERM_MAX && n * p <= RATE_TERM_MAX) by (nonlinear_arith)
                requires m <= U64_MAX, n <= U64_MAX, 0 < p <= 1_000_000_000_000_000_000,
                    0 < q <= 1_000_000_000_000_000_000;
            Ok(FrameRate { num: m * q, den: n * p })
        },
        _ => Err(PipelineError::MediaProbeError),
    }
}

/// Parses the probe's `"<num>/<den>"` output, which must be UTF-8 and is
/// trimmed of white space; a missing or non-numeric term is a
/// `MediaProbeError`. Each term is a decimal number whose digits fit in
/// `u64`, with at most eighteen after a point; the rate is their exact
/// quotient, kept as a fraction.
pub fn parse_frame_rate(out: &[u8]) -> (r: Result<FrameRate, PipelineError>)
    ensures
        match rate_of(out@) {
            Some(f) => r == Ok::<FrameRate, PipelineError>(f) && f.wf(),
            None => r == Err::<FrameRate, PipelineError>(PipelineError::MediaProbeError),
        },
{
    match trimmed_text(out) {
        Some(t) => parse_frame_rate_text(t),
        None => Err(PipelineError::MediaProbeError),
    }
}

} // verus!
