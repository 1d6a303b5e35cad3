//! The stream's text: a header of two lines, then frames of exactly
//! `height` newline-terminated lines each, with no other delimiter.

use vstd::prelude::*;
use crate::error::PipelineError;
use crate::probe::{FrameRate, RATE_TERM_MAX};
use vstd::utf8::valid_utf8;
use crate::resolve::U32_MAX;
use crate::text::{
    after, before, decimal_at_most, decimal_text, decimal_value, digits, has_byte, is_decimal,
    padded_digits, padded_text, parse_decimal, pow10, pow10_exec, split_once, first_at, is_digit,
    lemma_digits, lemma_padded_digits,
};
use vstd::arithmetic::div_mod::lemma_div_multiples_vanish;
use vstd::arithmetic::mul::{lemma_mul_inequality, lemma_mul_is_distributive_add_other_way};

verus! {

/// A line holds no newline byte.
pub open spec fn no_newline(l: Seq<u8>) -> bool {
    forall|i: int| 0 <= i < l.len() ==> l[i] != 10
}

pub open spec fn all_no_newline(ls: Seq<Seq<u8>>) -> bool {
    forall|i: int| 0 <= i < ls.len() ==> no_newline(#[trigger] ls[i])
}

/// The lines of `ls`, each followed by a newline.
pub open spec fn joined(ls: Seq<Seq<u8>>) -> Seq<u8>
    decreases ls.len(),
{
    if ls.len() == 0 {
        Seq::empty()
    } else {
        ls[0].push(10) + joined(ls.drop_first())
    }
}

/// `ls` are the lines of `s`, as a line reader yields them: split at each
/// newline, with a last line that lacks its newline where `s` does not end
/// with one.
pub open spec fn lines_of(s: Seq<u8>, ls: Seq<Seq<u8>>) -> bool {
    &&& all_no_newline(ls)
    &&& if s.len() == 0 || s.last() == 10 {
        joined(ls) == s
    } else {
        ls.len() > 0 && joined(ls.drop_last()) + ls.last() == s
    }
}

/// `t` is `n` newline-terminated lines.
pub open spec fn line_block(t: Seq<u8>, n: nat) -> bool {
    exists|ls: Seq<Seq<u8>>| ls.len() == n && all_no_newline(ls) && joined(ls) == t
}

/// The complete frames of `height` consecutive lines each, in order; lines
/// after the last complete frame belong to none.
pub open spec fn frames_of(ls: Seq<Seq<u8>>, height: nat) -> Seq<Seq<Seq<u8>>>
    recommends
        height > 0,
{
    Seq::new(
        ls.len() / height,
        |i: int| ls.subrange(i * height, i * height + height),
    )
}

/// The frames' lines, one frame after the other.
pub open spec fn flatten(fs: Seq<Seq<Seq<u8>>>) -> Seq<Seq<u8>>
    decreases fs.len(),
{
    if fs.len() == 0 {
        Seq::empty()
    } else {
        flatten(fs.drop_last()) + fs.last()
    }
}

/// The text of frames written one after the other.
pub open spec fn frames_text(fs: Seq<Seq<Seq<u8>>>) -> Seq<u8>
    decreases fs.len(),
{
    if fs.len() == 0 {
        Seq::empty()
    } else {
        frames_text(fs.drop_last()) + joined(fs.last())
    }
}

pub open spec fn views(v: Seq<Vec<u8>>) -> Seq<Seq<u8>> {
    v.map_values(|x: Vec<u8>| x@)
}

pub proof fn lemma_joined_append(a: Seq<Seq<u8>>, b: Seq<Seq<u8>>)
    ensures
        joined(a + b) == joined(a) + joined(b),
    decreases a.len(),
{
    if a.len() == 0 {
        assert(a + b =~= b);
    } else {
        assert((a + b).drop_first() =~= a.drop_first() + b);
        lemma_joined_append(a.drop_first(), b);
    }
}

proof fn lemma_joined_push(a: Seq<Seq<u8>>, x: Seq<u8>)
    ensures
        joined(a.push(x)) == joined(a) + x.push(10),
{
    lemma_joined_append(a, seq![x]);
    assert(a.push(x) =~= a + seq![x]);
    assert(seq![x].drop_first() =~= Seq::<Seq<u8>>::empty());
    assert(joined(Seq::<Seq<u8>>::empty()) == Seq::<u8>::empty());
    assert(joined(seq![x]) =~= x.push(10));
}

/// Lines without newlines are told apart by their joined text.
pub proof fn lemma_joined_injective(a: Seq<Seq<u8>>, b: Seq<Seq<u8>>)
    requires
        all_no_newline(a),
        all_no_newline(b),
        joined(a) == joined(b),
    ensures
        a == b,
    decreases a.len(),
{
    if a.len() == 0 {
        if b.len() > 0 {
            assert(joined(b).len() > 0);
        }
        assert(a =~= b);
    } else if b.len() == 0 {
        assert(joined(a).len() > 0);
    } else {
        let (x, y) = (a[0], b[0]);
        assert(no_newline(x) && no_newline(y));
        let s = joined(a);
        assert(s == x.push(10) + joined(a.drop_first()));
        assert(s == y.push(10) + joined(b.drop_first()));
        if x.len() < y.len() {
            assert(s[x.len() as int] == 10);
            assert(s[x.len() as int] == y[x.len() as int]);
        } else if y.len() < x.len() {
            assert(s[y.len() as int] == 10);
            assert(s[y.len() as int] == x[y.len() as int]);
        }
        assert(x =~= y) by {
            assert forall|i: int| 0 <= i < x.len() implies x[i] == y[i] by {
                assert(s[i] == x[i]);
                assert(s[i] == y[i]);
            }
        }
        let n = x.len() + 1;
        assert(joined(a.drop_first()) =~= s.subrange(n as int, s.len() as int));
        assert(joined(b.drop_first()) =~= s.subrange(n as int, s.len() as int));
        lemma_joined_injective(a.drop_first(), b.drop_first());
        assert(a =~= seq![x] + a.drop_first());
        assert(b =~= seq![y] + b.drop_first());
    }
}

/// A text has one list of lines only.
pub proof fn lemma_lines_unique(s: Seq<u8>, a: Seq<Seq<u8>>, b: Seq<Seq<u8>>)
    requires
        lines_of(s, a),
        lines_of(s, b),
    ensures
        a == b,
{
    if s.len() == 0 || s.last() == 10 {
        lemma_joined_injective(a, b);
    } else {
        let (la, lb) = (a.last(), b.last());
        let (pa, pb) = (joined(a.drop_last()), joined(b.drop_last()));
        assert(no_newline(la) && no_newline(lb));
        // the last line is what follows the last newline
        if pa.len() < pb.len() {
            assert(pb.len() > 0);
            lemma_joined_push(b.drop_last().drop_last(), b.drop_last().last());
            assert(b.drop_last().drop_last().push(b.drop_last().last()) =~= b.drop_last());
            assert(pb.last() == 10);
            assert(s[pb.len() - 1] == 10);
            assert(s[pb.len() - 1] == la[pb.len() - 1 - pa.len()]);
        } else if pb.len() < pa.len() {
            assert(pa.len() > 0);
            lemma_joined_push(a.drop_last().drop_last(), a.drop_last().last());
            assert(a.drop_last().drop_last().push(a.drop_last().last()) =~= a.drop_last());
            assert(pa.last() == 10);
            assert(s[pa.len() - 1] == 10);
            assert(s[pa.len() - 1] == lb[pa.len() - 1 - pb.len()]);
        }
        assert(pa =~= s.subrange(0, pa.len() as int));
        assert(pb =~= s.subrange(0, pb.len() as int));
        assert(la =~= s.subrange(pa.len() as int, s.len() as int));
        assert(lb =~= s.subrange(pb.len() as int, s.len() as int));
        assert(all_no_newline(a.drop_last()));
        assert(all_no_newline(b.drop_last()));
        lemma_joined_injective(a.drop_last(), b.drop_last());
        assert(a =~= a.drop_last().push(la));
        assert(b =~= b.drop_last().push(lb));
    }
}

proof fn lemma_joined_ends_with_newline(ls: Seq<Seq<u8>>)
    ensures
        joined(ls).len() == 0 || joined(ls).last() == 10,
{
    if ls.len() > 0 {
        lemma_joined_push(ls.drop_last(), ls.last());
        assert(ls.drop_last().push(ls.last()) =~= ls);
    }
}

proof fn lemma_flatten_text(fs: Seq<Seq<Seq<u8>>>)
    requires
        forall|i: int| 0 <= i < fs.len() ==> all_no_newline(#[trigger] fs[i]),
    ensures
        joined(flatten(fs)) == frames_text(fs),
        all_no_newline(flatten(fs)),
    decreases fs.len(),
{
    if fs.len() > 0 {
        let init = fs.drop_last();
        assert forall|i: int| 0 <= i < init.len() implies all_no_newline(#[trigger] init[i]) by {
            assert(init[i] == fs[i]);
        }
        lemma_flatten_text(init);
        lemma_joined_append(flatten(init), fs.last());
        assert(all_no_newline(fs[fs.len() - 1]));
        let f = flatten(fs);
        assert forall|i: int| 0 <= i < f.len() implies no_newline(#[trigger] f[i]) by {
            if i < flatten(init).len() {
                assert(f[i] == flatten(init)[i]);
            } else {
                assert(f[i] == fs.last()[i - flatten(init).len()]);
            }
        }
    }
}

proof fn lemma_flatten_blocks(fs: Seq<Seq<Seq<u8>>>, height: nat)
    requires
        forall|i: int| 0 <= i < fs.len() ==> (#[trigger] fs[i]).len() == height,
    ensures
        flatten(fs).len() == fs.len() * height,
        forall|i: int| 0 <= i < fs.len() ==> flatten(fs).subrange(i * height, i * height + height) == #[trigger] fs[i],
    decreases fs.len(),
{
    if fs.len() > 0 {
        let n = fs.len() as int;
        let h = height as int;
        let init = fs.drop_last();
        assert forall|i: int| 0 <= i < init.len() implies (#[trigger] init[i]).len() == height by {
            assert(init[i] == fs[i]);
        }
        lemma_flatten_blocks(init, height);
        lemma_mul_is_distributive_add_other_way(h, n - 1, 1);
        let f = flatten(fs);
        let g = flatten(init);
        assert forall|i: int| 0 <= i < n implies f.subrange(i * h, i * h + h) == #[trigger] fs[i] by {
            if i < n - 1 {
                lemma_mul_inequality(i + 1, n - 1, h);
                lemma_mul_is_distributive_add_other_way(h, i, 1);
                assert(f.subrange(i * h, i * h + h) =~= g.subrange(i * h, i * h + h));
                assert(init[i] == fs[i]);
            } else {
                assert(f.subrange(i * h, i * h + h) =~= fs.last());
            }
        }
    }
}

/// Frames of `height` lines without newlines, written one after the other,
/// read back as lines and regrouped by `height`, are the same frames in the
/// same order.
pub proof fn lemma_frames_round_trip(fs: Seq<Seq<Seq<u8>>>, height: nat, ls: Seq<Seq<u8>>)
    requires
        height > 0,
        forall|i: int| 0 <= i < fs.len() ==> (#[trigger] fs[i]).len() == height && all_no_newline(fs[i]),
        lines_of(frames_text(fs), ls),
    ensures
        frames_of(ls, height) == fs,
{
    lemma_flatten_text(fs);
    lemma_flatten_blocks(fs, height);
    lemma_joined_ends_with_newline(flatten(fs));
    lemma_lines_unique(frames_text(fs), ls, flatten(fs));
    lemma_div_multiples_vanish(fs.len() as int, height as int);
    assert(fs.len() * height == height * fs.len()) by (nonlinear_arith);
    assert(frames_of(ls, height) =~= fs);
}

/// Where `height` lines make a frame, the complete frames are the first
/// `ls.len() / height` groups, and the remainder of fewer than `height`
/// lines is in none of them.
pub proof fn lemma_partial_frame_dropped(ls: Seq<Seq<u8>>, height: nat)
    requires
        height > 0,
    ensures
        frames_of(ls, height).len() * height + (ls.len() as int) % (height as int) == ls.len(),
        (ls.len() as int) % (height as int) < height,
        flatten(frames_of(ls, height)) == ls.subrange(0, ls.len() - (ls.len() as int) % (height as int)),
{
    let fs = frames_of(ls, height);
    let h = height as int;
    let n = fs.len() as int;
    vstd::arithmetic::div_mod::lemma_fundamental_div_mod(ls.len() as int, h);
    assert(n * h == h * n) by (nonlinear_arith);
    assert forall|i: int| 0 <= i < n implies (#[trigger] fs[i]).len() == height by {
        lemma_mul_inequality(i + 1, n, h);
        lemma_mul_is_distributive_add_other_way(h, i, 1);
    }
    lemma_flatten_blocks(fs, height);
    let f = flatten(fs);
    assert(f =~= ls.subrange(0, n * h)) by {
        assert forall|k: int| 0 <= k < n * h implies f[k] == ls[k] by {
            let i = k / h;
            vstd::arithmetic::div_mod::lemma_fundamental_div_mod(k, h);
            assert(h * i == i * h) by (nonlinear_arith);
            assert(i * h <= k < i * h + h);
            assert(0 <= i < n) by (nonlinear_arith)
                requires i * h <= k < i * h + h, 0 <= k < n * h, h > 0;
            lemma_mul_inequality(i + 1, n, h);
            lemma_mul_is_distributive_add_other_way(h, i, 1);
            assert(fs[i] == ls.subrange(i * h, i * h + h));
            assert(f.subrange(i * h, i * h + h)[k - i * h] == f[k]);
            assert(fs[i][k - i * h] == ls[k]);
        }
    }
}

/// Splits a text into its lines.
pub fn split_lines(s: &[u8]) -> (r: Vec<Vec<u8>>)
    ensures
        lines_of(s@, views(r@)),
{
    let mut out: Vec<Vec<u8>> = Vec::new();
    let mut cur: Vec<u8> = Vec::new();
    let mut i: usize = 0;
    while i < s.len()
        invariant
            i <= s@.len(),
            all_no_newline(views(out@)),
            no_newline(cur@),
            joined(views(out@)) + cur@ == s@.subrange(0, i as int),
            i > 0 && s@[i - 1] == 10 ==> cur@.len() == 0,
        decreases s.len() - i,
    {
        let b = s[i];
        let ghost before_out = views(out@);
        let ghost before_cur = cur@;
        if b == 10 {
            out.push(cur);
            cur = Vec::new();
            proof {
                assert(views(out@) =~= before_out.push(before_cur));
                lemma_joined_push(before_out, before_cur);
            }
        } else {
            cur.push(b);
            assert(views(out@) =~= before_out);
        }
        assert(s@.subrange(0, i + 1) =~= s@.subrange(0, i as int).push(b));
        i = i + 1;
    }
    assert(s@.subrange(0, s@.len() as int) =~= s@);
    if cur.len() > 0 {
        let ghost before_out = views(out@);
        let ghost last = cur@;
        out.push(cur);
        assert(views(out@) =~= before_out.push(last));
        assert(views(out@).drop_last() =~= before_out);
        assert(s@.last() == last.last());
    } else {
        assert(joined(views(out@)) + cur@ =~= joined(views(out@)));
        proof {
            if s@.len() > 0 && s@[i - 1] != 10 {
                let o = views(out@);
                lemma_joined_push(o.drop_last(), o.last());
                assert(o.drop_last().push(o.last()) =~= o);
            }
        }
    }
    out
}

/// The number of fractional digits with which the frame rate is written.
pub const RATE_DIGITS: usize = 15;

/// What the stream's first two lines state.
#[derive(Debug, Clone, Copy, PartialEq, Eq)]
pub struct StreamHeader {
    /// The frame rate is `rate_num / rate_den` frames per second.
    pub rate_num: u128,
    pub rate_den: u128,
    pub width: u32,
    pub height: u32,
}

impl StreamHeader {
    pub open spec fn wf(self) -> bool {
        self.rate_num > 0 && 0 < self.rate_den <= 1_000_000_000_000_000_000 && self.height > 0
            && self.rate_num <= 4_294_967_296_000_000_000_000_000_000
    }
}

/// The first line: the frame rate in decimal, truncated to fifteen
/// fractional digits.
pub open spec fn rate_line(r: FrameRate) -> Seq<u8> {
    digits((r.num / r.den) as nat) + seq![46u8] + padded_digits(
        ((r.num % r.den) as nat * pow10(RATE_DIGITS as nat)) / (r.den as nat),
        RATE_DIGITS as nat,
    )
}

/// The second line: width and height, separated by a space.
pub open spec fn size_line(width: u32, height: u32) -> Seq<u8> {
    digits(width as nat) + seq![32u8] + digits(height as nat)
}

/// The header: the rate line and the size line, each newline-terminated.
pub open spec fn header_text(r: FrameRate, width: u32, height: u32) -> Seq<u8> {
    rate_line(r).push(10) + size_line(width, height).push(10)
}

/// The rate that a first line states, as `(num, den)`: a decimal `u32`,
/// optionally followed by a point and one to eighteen fractional digits;
/// a zero rate is refused.
pub open spec fn rate_of_line(l: Seq<u8>) -> Option<(nat, nat)> {
    if has_byte(l, 46) {
        let f = after(l, 46);
        match decimal_at_most(before(l, 46), U32_MAX as nat) {
            Some(a) => if is_decimal(f) && f.len() <= 18 && a * pow10(f.len()) + decimal_value(f) > 0 {
                Some((a * pow10(f.len()) + decimal_value(f), pow10(f.len())))
            } else {
                None
            },
            None => None,
        }
    } else {
        match decimal_at_most(l, U32_MAX as nat) {
            Some(a) => if a > 0 { Some((a, 1nat)) } else { None },
            None => None,
        }
    }
}

/// The size that a second line states: a decimal `u32` width, a space, and
/// a positive decimal `u32` height up to the next space or the end.
pub open spec fn size_of_line(l: Seq<u8>) -> Option<(u32, u32)> {
    if has_byte(l, 32) {
        match (
            decimal_at_most(before(l, 32), U32_MAX as nat),
            decimal_at_most(before(after(l, 32), 32), U32_MAX as nat),
        ) {
            (Some(w), Some(h)) => if h > 0 { Some((w as u32, h as u32)) } else { None },
            _ => None,
        }
    } else {
        None
    }
}

/// The header that two lines state.
pub open spec fn header_of(l1: Seq<u8>, l2: Seq<u8>) -> Option<StreamHeader> {
    match (rate_of_line(l1), size_of_line(l2)) {
        (Some((n, d)), Some((w, h))) => Some(
            StreamHeader { rate_num: n as u128, rate_den: d as u128, width: w, height: h },
        ),
        _ => None,
    }
}

/// What a whole stream text holds, given its lines: the header and the
/// complete frames after it.
pub open spec fn stream_of(ls: Seq<Seq<u8>>) -> Result<(StreamHeader, Seq<Seq<Seq<u8>>>), PipelineError> {
    if ls.len() < 2 {
        Err(PipelineError::StreamFormatError)
    } else {
        match header_of(ls[0], ls[1]) {
            Some(hd) => Ok((hd, frames_of(ls.subrange(2, ls.len() as int), hd.height as nat))),
            None => Err(PipelineError::StreamFormatError),
        }
    }
}

pub open spec fn frame_views(v: Seq<Vec<Vec<u8>>>) -> Seq<Seq<Seq<u8>>> {
    v.map_values(|f: Vec<Vec<u8>>| views(f@))
}

fn append_bytes(dst: &mut Vec<u8>, src: &[u8])
    ensures
        final(dst)@ == old(dst)@ + src@,
{
    let mut i: usize = 0;
    while i < src.len()
        invariant
            i <= src@.len(),
            dst@ == old(dst)@ + src@.subrange(0, i as int),
        decreases src.len() - i,
    {
        dst.push(src[i]);
        assert(src@.subrange(0, i + 1) =~= src@.subrange(0, i as int).push(src@[i as int]));
        i = i + 1;
    }
    assert(src@.subrange(0, src@.len() as int) =~= src@);
}

/// `m * 10^k / den`, truncated, by long division.
fn fraction_digits(m: u128, den: u128, k: usize) -> (r: u128)
    requires
        m < den <= RATE_TERM_MAX,
        k <= 18,
    ensures
        r == (m as nat * pow10(k as nat)) / (den as nat),
{
    let mut f: u128 = 0;
    let mut rem: u128 = m;
    let mut i: usize = 0;
    proof {
        reveal_with_fuel(pow10, 19);
        assert(pow10(0) == 1);
        assert(m * pow10(0) == 0 * den + m) by (nonlinear_arith)
            requires pow10(0) == 1;
    }
    while i < k
        invariant
            i <= k <= 18,
            m < den <= RATE_TERM_MAX,
            rem < den,
            m * pow10(i as nat) == f * den + rem,
            f < pow10(i as nat),
            pow10(18) == 1_000_000_000_000_000_000,
        decreases k - i,
    {
        proof { crate::text::lemma_pow10_monotone(i as nat, 17); reveal_with_fuel(pow10, 19); }
        let t = rem * 10;
        let q = t / den;
        let ghost (f0, r0, pi) = (f as int, rem as int, pow10(i as nat) as int);
        proof {
            vstd::arithmetic::div_mod::lemma_fundamental_div_mod(t as int, den as int);
            assert(q < 10) by (nonlinear_arith)
                requires t == 10 * r0, r0 < den, t == den * q + t % den, 0 <= t % den, den > 0;
            assert(pow10((i + 1) as nat) == 10 * pi);
            assert(m * (10 * pi) == (10 * f0 + q) * den + t % den) by (nonlinear_arith)
                requires m * pi == f0 * den + r0, t == 10 * r0, t == den * q + t % den;
            assert(10 * f0 + q < 10 * pi) by (nonlinear_arith)
                requires f0 < pi, q < 10, f0 >= 0, q >= 0;
        }
        f = f * 10 + q;
        rem = t % den;
        i = i + 1;
    }
    proof {
        vstd::arithmetic::div_mod::lemma_fundamental_div_mod_converse(
            (m * pow10(k as nat)) as int, den as int, f as int, rem as int);
    }
    f
}

/// The header of a stream of frames at `rate`, `width` by `height`. A rate
/// with a zero denominator has no finite value to write: that is a
/// `MediaProbeError`.
pub fn encode_header(rate: FrameRate, width: u32, height: u32) -> (r: Result<Vec<u8>, PipelineError>)
    requires
        rate.wf(),
    ensures
        rate.den == 0 ==> r == Err::<Vec<u8>, PipelineError>(PipelineError::MediaProbeError),
        rate.den != 0 ==> (r matches Ok(t) && t@ == header_text(rate, width, height)),
{
    if rate.den == 0 {
        return Err(PipelineError::MediaProbeError);
    }
    let mut r = decimal_text(rate.num / rate.den);
    r.push(46);
    let frac = fraction_digits(rate.num % rate.den, rate.den, RATE_DIGITS);
    append_bytes(&mut r, padded_text(frac, RATE_DIGITS).as_slice());
    r.push(10);
    append_bytes(&mut r, decimal_text(width as u128).as_slice());
    r.push(32);
    append_bytes(&mut r, decimal_text(height as u128).as_slice());
    r.push(10);
    assert(r@ =~= header_text(rate, width, height));
    Ok(r)
}

/// The text of one frame: its lines, each newline-terminated.
pub fn encode_frame(lines: &Vec<Vec<u8>>) -> (r: Vec<u8>)
    ensures
        r@ == joined(views(lines@)),
{
    let mut r: Vec<u8> = Vec::new();
    let mut i: usize = 0;
    while i < lines.len()
        invariant
            i <= lines@.len(),
            r@ == joined(views(lines@).subrange(0, i as int)),
        decreases lines.len() - i,
    {
        append_bytes(&mut r, lines[i].as_slice());
        r.push(10);
        proof {
            let v = views(lines@);
            lemma_joined_push(v.subrange(0, i as int), v[i as int]);
            assert(v.subrange(0, i + 1) =~= v.subrange(0, i as int).push(v[i as int]));
        }
        i = i + 1;
    }
    assert(views(lines@).subrange(0, lines@.len() as int) =~= views(lines@));
    r
}

fn parse_rate_line(l: &[u8]) -> (r: Option<(u128, u128)>)
    ensures
        match rate_of_line(l@) {
            Some((n, d)) => r == Some((n as u128, d as u128)) && 0 < n <= 4_294_967_296_000_000_000_000_000_000
                && 0 < d <= 1_000_000_000_000_000_000,
            None => r is None,
        },
{
    match split_once(l, 46) {
        Some((a, f)) => {
            let a = match parse_decimal(a, U32_MAX) {
                Some(a) => a,
                None => return None,
            };
            if f.len() == 0 || f.len() > 18 {
                return None;
            }
            let v = match crate::text::parse_digits(f, 999_999_999_999_999_999) {
                Some(v) => v,
                None => {
                    proof {
                        if is_decimal(f@) {
                            crate::text::lemma_decimal_below_pow10(f@);
                            crate::text::lemma_pow10_monotone(f@.len(), 18);
                            reveal_with_fuel(pow10, 19);
                        }
                    }
                    return None;
                },
            };
            let p = pow10_exec(f.len());
            proof {
                crate::text::lemma_decimal_below_pow10(f@);
                assert(a as nat * p as nat <= U32_MAX as nat * 1_000_000_000_000_000_000) by (nonlinear_arith)
                    requires a <= U32_MAX, p <= 1_000_000_000_000_000_000;
            }
            let n = a as u128 * p + v as u128;
            if n == 0 {
                return None;
            }
            Some((n, p))
        },
        None => match parse_decimal(l, U32_MAX) {
            Some(a) => if a > 0 {
                assert(pow10(0) == 1);
                Some((a as u128, 1))
            } else {
                None
            },
            None => None,
        },
    }
}

fn parse_size_line(l: &[u8]) -> (r: Option<(u32, u32)>)
    ensures
        r == size_of_line(l@),
{
    let (a, rest) = match split_once(l, 32) {
        Some(p) => p,
        None => return None,
    };
    let b = match split_once(rest, 32) {
        Some((x, _)) => x,
        None => rest,
    };
    match (parse_decimal(a, U32_MAX), parse_decimal(b, U32_MAX)) {
        (Some(w), Some(h)) => if h > 0 { Some((w as u32, h as u32)) } else { None },
        _ => None,
    }
}

/// Reads the header from the stream's first two lines; a malformed one is a
/// `StreamFormatError`.
pub fn parse_header(l1: &[u8], l2: &[u8]) -> (r: Result<StreamHeader, PipelineError>)
    ensures
        match header_of(l1@, l2@) {
            Some(h) => r == Ok::<StreamHeader, PipelineError>(h) && h.wf(),
            None => r == Err::<StreamHeader, PipelineError>(PipelineError::StreamFormatError),
        },
{
    match (parse_rate_line(l1), parse_size_line(l2)) {
        (Some((n, d)), Some((w, h))) => {
            let hd = StreamHeader { rate_num: n, rate_den: d, width: w, height: h };
            assert(rate_of_line(l1@) is Some);
            assert(hd.wf());
            assert(header_of(l1@, l2@) == Some(hd));
            Ok(hd)
        },
        _ => Err(PipelineError::StreamFormatError),
    }
}

fn copy_bytes(v: &Vec<u8>) -> (r: Vec<u8>)
    ensures
        r@ == v@,
{
    let mut r: Vec<u8> = Vec::new();
    append_bytes(&mut r, v.as_slice());
    r
}

/// Groups the lines from `start` on into complete frames of `height` lines.
pub fn group_frames(ls: &Vec<Vec<u8>>, start: usize, height: u32) -> (r: Vec<Vec<Vec<u8>>>)
    requires
        start <= ls@.len(),
        height > 0,
    ensures
        frame_views(r@) == frames_of(views(ls@).subrange(start as int, ls@.len() as int), height as nat),
{
    let ghost rest = views(ls@).subrange(start as int, ls@.len() as int);
    let ghost want = frames_of(rest, height as nat);
    let h = height as usize;
    let count = (ls.len() - start) / h;
    let mut r: Vec<Vec<Vec<u8>>> = Vec::new();
    let mut i: usize = 0;
    let mut base: usize = start;
    let n = ls.len();
    while i < count
        invariant
            n == ls@.len(),
            i <= count == rest.len() / (h as nat),
            base == start + i * h,
            h == height > 0,
            rest == views(ls@).subrange(start as int, ls@.len() as int),
            want == frames_of(rest, height as nat),
            frame_views(r@) == want.subrange(0, i as int),
            start <= ls@.len(),
        decreases count - i,
    {
        proof {
            vstd::arithmetic::div_mod::lemma_fundamental_div_mod(rest.len() as int, h as int);
            lemma_mul_inequality(i as int + 1, count as int, h as int);
            lemma_mul_is_distributive_add_other_way(h as int, i as int, 1);
            assert(h * count == count * h) by (nonlinear_arith);
            assert(rest.len() == ls@.len() - start);
            assert(i * h + h <= rest.len());
            assert(start + i * h + h <= ls@.len());
        }
        let mut f: Vec<Vec<u8>> = Vec::new();
        let mut j: usize = 0;
        while j < h
            invariant
                j <= h,
                n == ls@.len(),
                base + h <= ls@.len(),
                views(f@) == views(ls@).subrange(base as int, base + j),
            decreases h - j,
        {
            let line = copy_bytes(&ls[base + j]);
            let ghost prev = views(f@);
            f.push(line);
            assert(views(f@) =~= prev.push(ls@[base + j]@));
            assert(views(f@) =~= views(ls@).subrange(base as int, base + j + 1));
            j = j + 1;
        }
        let ghost prev = frame_views(r@);
        let ghost fv = views(f@);
        r.push(f);
        proof {
            assert(views(ls@).subrange(base as int, base + h) =~= rest.subrange(i * h, i * h + h));
            assert(frame_views(r@) =~= prev.push(fv));
            assert(frame_views(r@) =~= want.subrange(0, i + 1));
        }
        i = i + 1;
        base = base + h;
    }
    assert(want.subrange(0, count as int) =~= want);
    r
}

/// `l` without one trailing carriage return, if it has one.
pub open spec fn cr_stripped(l: Seq<u8>) -> Seq<u8> {
    if l.len() > 0 && l.last() == 13 {
        l.drop_last()
    } else {
        l
    }
}

/// A line does not end with a carriage return.
pub open spec fn no_trailing_cr(l: Seq<u8>) -> bool {
    l.len() == 0 || l.last() != 13
}

/// The lines that a line reader hands out for the lines `raw` of `s`: each
/// newline-terminated line loses a carriage return before its newline.
pub open spec fn read_as_lines(s: Seq<u8>, raw: Seq<Seq<u8>>) -> Seq<Seq<u8>> {
    Seq::new(
        raw.len(),
        |i: int| if i + 1 < raw.len() || s.len() == 0 || s.last() == 10 {
            cr_stripped(raw[i])
        } else {
            raw[i]
        },
    )
}

/// Reads a text line by line: split at each newline, and a `"\r\n"` ending
/// counts as a newline.
pub fn read_lines(s: &[u8]) -> (r: Vec<Vec<u8>>)
    ensures
        exists|raw: Seq<Seq<u8>>| lines_of(s@, raw),
        forall|raw: Seq<Seq<u8>>| #[trigger] lines_of(s@, raw) ==> views(r@) == read_as_lines(s@, raw),
{
    let raw = split_lines(s);
    let ghost rv = views(raw@);
    let terminated = s.len() == 0 || s[s.len() - 1] == 10;
    let mut out: Vec<Vec<u8>> = Vec::new();
    let mut i: usize = 0;
    while i < raw.len()
        invariant
            i <= raw@.len(),
            rv == views(raw@),
            terminated == (s@.len() == 0 || s@.last() == 10),
            views(out@) == read_as_lines(s@, rv).subrange(0, i as int),
        decreases raw.len() - i,
    {
        let l = &raw[i];
        let mut c: Vec<u8> = Vec::new();
        let n = l.len();
        let keep = if (i + 1 < raw.len() || terminated) && n > 0 && l[n - 1] == 13 {
            n - 1
        } else {
            n
        };
        let mut k: usize = 0;
        while k < keep
            invariant
                keep <= n == l@.len(),
                k <= keep,
                c@ == l@.subrange(0, k as int),
            decreases keep - k,
        {
            c.push(l[k]);
            assert(l@.subrange(0, k + 1) =~= l@.subrange(0, k as int).push(l@[k as int]));
            k = k + 1;
        }
        let ghost prev = views(out@);
        out.push(c);
        proof {
            assert(l@ == rv[i as int]);
            assert(c@ =~= read_as_lines(s@, rv)[i as int]);
            assert(views(out@) =~= prev.push(c@));
            assert(views(out@) =~= read_as_lines(s@, rv).subrange(0, i + 1));
        }
        i = i + 1;
    }
    proof {
        assert(read_as_lines(s@, rv).subrange(0, raw@.len() as int) =~= read_as_lines(s@, rv));
        assert forall|other: Seq<Seq<u8>>| #[trigger] lines_of(s@, other) implies views(out@) == read_as_lines(s@, other) by {
            lemma_lines_unique(s@, other, rv);
        }
    }
    out
}

/// The lines `ls` that a text reader yields: those before the first line
/// that is not UTF-8, and the `DecodeError` that this line gives.
pub open spec fn readable(ls: Seq<Seq<u8>>, got: Seq<Seq<u8>>, failure: Option<PipelineError>) -> bool {
    match failure {
        None => got == ls && forall|i: int| 0 <= i < ls.len() ==> valid_utf8(#[trigger] ls[i]),
        Some(e) => e == PipelineError::DecodeError && got.len() < ls.len() && got == ls.subrange(0, got.len() as int)
            && (forall|i: int| 0 <= i < got.len() ==> valid_utf8(#[trigger] ls[i]))
            && !valid_utf8(ls[got.len() as int]),
    }
}

/// Reads a text line by line as text: the lines up to the first one that is
/// not UTF-8, which ends the reading with a `DecodeError`.
pub fn readable_lines(text: &[u8]) -> (r: (Vec<Vec<u8>>, Option<PipelineError>))
    ensures
        forall|raw: Seq<Seq<u8>>| #[trigger] lines_of(text@, raw) ==> readable(read_as_lines(text@, raw), views(r.0@), r.1),
{
    let mut ls = read_lines(text);
    let ghost all = views(ls@);
    let mut i: usize = 0;
    while i < ls.len()
        invariant
            i <= ls@.len(),
            all == views(ls@),
            forall|j: int| 0 <= j < i ==> valid_utf8(#[trigger] all[j]),
            forall|raw: Seq<Seq<u8>>| #[trigger] lines_of(text@, raw) ==> all == read_as_lines(text@, raw),
        decreases ls.len() - i,
    {
        let ok = crate::text::utf8_str(ls[i].as_slice()).is_some();
        assert(ok == valid_utf8(all[i as int]));
        if !ok {
            ls.truncate(i);
            assert(views(ls@) =~= all.subrange(0, i as int));
            assert forall|raw: Seq<Seq<u8>>| #[trigger] lines_of(text@, raw) implies readable(
                read_as_lines(text@, raw), views(ls@), Some(PipelineError::DecodeError)) by {
                assert(read_as_lines(text@, raw) == all);
                assert(views(ls@).len() == i);
            }
            return (ls, Some(PipelineError::DecodeError));
        }
        i = i + 1;
    }
    (ls, None)
}

/// Reads a whole stream text: the header from its first two lines, then
/// its complete frames; a trailing partial frame is left out.
pub fn decode_stream(text: &[u8]) -> (r: Result<(StreamHeader, Vec<Vec<Vec<u8>>>), PipelineError>)
    ensures
        forall|ls: Seq<Seq<u8>>| #[trigger] lines_of(text@, ls) ==> match (r, stream_of(read_as_lines(text@, ls))) {
            (Ok((h, fs)), Ok((h2, fs2))) => h == h2 && h.wf() && frame_views(fs@) == fs2,
            (Err(e), Err(e2)) => e == e2,
            _ => false,
        },
{
    let ls = read_lines(text);
    if ls.len() < 2 {
        return Err(PipelineError::StreamFormatError);
    }
    let hd = match parse_header(ls[0].as_slice(), ls[1].as_slice()) {
        Ok(h) => h,
        Err(e) => return Err(e),
    };
    let fs = group_frames(&ls, 2, hd.height);
    Ok((hd, fs))
}

/// A field free of the separator, then the separator: the field is what
/// comes before the first separator, and `t` what comes after it.
proof fn lemma_split_at(f: Seq<u8>, b: u8, t: Seq<u8>)
    requires
        forall|i: int| 0 <= i < f.len() ==> f[i] != b,
    ensures
        has_byte(f + seq![b] + t, b),
        before(f + seq![b] + t, b) == f,
        after(f + seq![b] + t, b) == t,
{
    let s = f + seq![b] + t;
    let k = f.len() as int;
    assert(first_at(s, b, k));
    let c = choose|c: int| first_at(s, b, c);
    assert(c == k) by {
        if c < k {
            assert(s[c] == f[c]);
        } else if c > k {
            assert(s[k] != b);
        }
    }
    assert(s.subrange(0, k) =~= f);
    assert(s.subrange(k + 1, s.len() as int) =~= t);
}

proof fn lemma_no_sep(f: Seq<u8>, b: u8)
    requires
        forall|i: int| 0 <= i < f.len() ==> f[i] != b,
    ensures
        !has_byte(f, b),
        before(f, b) == f,
{
    if has_byte(f, b) {
        let c = choose|c: int| first_at(f, b, c);
        assert(f[c] == b);
    }
}

proof fn lemma_flatten_plain(fs: Seq<Seq<Seq<u8>>>)
    requires
        forall|i: int, k: int| 0 <= i < fs.len() && 0 <= k < fs[i].len() ==> no_trailing_cr(#[trigger] fs[i][k]),
    ensures
        forall|j: int| 0 <= j < flatten(fs).len() ==> no_trailing_cr(#[trigger] flatten(fs)[j]),
    decreases fs.len(),
{
    if fs.len() > 0 {
        let init = fs.drop_last();
        assert forall|i: int, k: int| 0 <= i < init.len() && 0 <= k < init[i].len() implies no_trailing_cr(#[trigger] init[i][k]) by {
            assert(init[i] == fs[i]);
        }
        lemma_flatten_plain(init);
        let f = flatten(fs);
        let g = flatten(init);
        assert forall|j: int| 0 <= j < f.len() implies no_trailing_cr(#[trigger] f[j]) by {
            if j < g.len() {
                assert(f[j] == g[j]);
            } else {
                assert(f[j] == fs[fs.len() - 1][j - g.len()]);
            }
        }
    }
}

/// A whole stream written with `encode_header` and `encode_frame`, from
/// frames whose lines hold no newline and do not end with a carriage return,
/// reads back with the same size and frames, and with a rate that is the
/// written one truncated to fifteen fractional digits, wherever that rate
/// is at least `10^-15` and at most `u32::MAX` frames per second (what the
/// header's digits and the reader's `u32` integer part hold):
/// `rate_num / rate_den <= num / den < (rate_num + 1) / rate_den`.
pub proof fn lemma_stream_round_trip(
    rate: FrameRate,
    width: u32,
    height: u32,
    fs: Seq<Seq<Seq<u8>>>,
    ls: Seq<Seq<u8>>,
)
    requires
        rate.wf(),
        rate.den > 0,
        rate.num / rate.den <= U32_MAX,
        rate.num * pow10(RATE_DIGITS as nat) >= rate.den,
        height > 0,
        forall|i: int| 0 <= i < fs.len() ==> (#[trigger] fs[i]).len() == height && all_no_newline(fs[i]),
        forall|i: int, k: int| 0 <= i < fs.len() && 0 <= k < fs[i].len() ==> no_trailing_cr(#[trigger] fs[i][k]),
        lines_of(header_text(rate, width, height) + frames_text(fs), ls),
    ensures
        stream_of(read_as_lines(header_text(rate, width, height) + frames_text(fs), ls)) matches Ok((hd, got)) && got == fs && hd.width == width && hd.height == height
            && hd.rate_den == pow10(RATE_DIGITS as nat)
            && hd.rate_num * rate.den <= rate.num * hd.rate_den
            && rate.num * hd.rate_den < (hd.rate_num + 1) * rate.den,
{
    let p = pow10(RATE_DIGITS as nat);
    reveal_with_fuel(pow10, 16);
    assert(p == 1_000_000_000_000_000);
    let (num, den) = (rate.num as int, rate.den as int);
    let i = num / den;
    let m = num % den;
    let f = (m * p) / den;
    vstd::arithmetic::div_mod::lemma_fundamental_div_mod(num, den);
    vstd::arithmetic::div_mod::lemma_fundamental_div_mod(m * p, den);
    assert(0 <= m * p < den * p) by (nonlinear_arith)
        requires 0 <= m < den, p > 0;
    assert(0 <= f < p) by (nonlinear_arith)
        requires m * p == den * f + (m * p) % den, 0 <= (m * p) % den < den, 0 <= m * p < den * p, den > 0;
    assert(i <= num) by (nonlinear_arith)
        requires num == den * i + m, 0 <= m, den >= 1, num >= 0;
    // the rate line
    let id = digits(i as nat);
    let fd = padded_digits(f as nat, RATE_DIGITS as nat);
    lemma_digits(i as nat);
    lemma_padded_digits(f as nat, RATE_DIGITS as nat);
    let rl = rate_line(rate);
    assert(rl == id + seq![46u8] + fd);
    assert forall|j: int| 0 <= j < id.len() implies id[j] != 46 by {
        assert(is_digit(id[j]));
    }
    lemma_split_at(id, 46, fd);
    assert(is_digit(id[0]));
    assert(decimal_at_most(id, U32_MAX as nat) == Some(i as nat));
    assert(is_decimal(fd));
    assert(decimal_value(fd) == f) by {
        vstd::arithmetic::div_mod::lemma_small_mod(f as nat, p);
    }
    let rn = i * p + f;
    assert(rn > 0) by {
        if i == 0 {
            assert(num == m) by (nonlinear_arith)
                requires num == den * i + m, i == 0;
            assert(m * p >= den) by (nonlinear_arith)
                requires m == num, num * p >= den;
            assert(f >= 1) by (nonlinear_arith)
                requires m * p == den * f + (m * p) % den, (m * p) % den < den, m * p >= den;
        } else {
            assert(i * p > 0) by (nonlinear_arith)
                requires i > 0, p > 0;
        }
    }
    assert(rn <= 4_294_967_296_000_000_000_000_000) by (nonlinear_arith)
        requires rn == i * p + f, 0 <= i <= 0xffff_ffff, f < p, p == 1_000_000_000_000_000;
    assert(rate_of_line(rl) == Some((rn as nat, p)));
    // the size line
    let wd = digits(width as nat);
    let hd_ = digits(height as nat);
    lemma_digits(width as nat);
    lemma_digits(height as nat);
    assert forall|j: int| 0 <= j < wd.len() implies wd[j] != 32 by {
        assert(is_digit(wd[j]));
    }
    assert forall|j: int| 0 <= j < hd_.len() implies hd_[j] != 32 by {
        assert(is_digit(hd_[j]));
    }
    lemma_split_at(wd, 32, hd_);
    assert(is_digit(wd[0]) && is_digit(hd_[0]));
    lemma_no_sep(hd_, 32);
    assert(size_of_line(size_line(width, height)) == Some((width, height)));
    // the lines
    let sl = size_line(width, height);
    assert forall|j: int| 0 <= j < rl.len() implies rl[j] != 10 by {
        if j < id.len() {
            assert(is_digit(id[j]));
        } else if j > id.len() {
            assert(rl[j] == fd[j - id.len() - 1]);
            assert(is_digit(fd[j - id.len() - 1]));
        }
    }
    assert forall|j: int| 0 <= j < sl.len() implies sl[j] != 10 by {
        if j < wd.len() {
            assert(is_digit(wd[j]));
        } else if j > wd.len() {
            assert(sl[j] == hd_[j - wd.len() - 1]);
            assert(is_digit(hd_[j - wd.len() - 1]));
        }
    }
    let head = seq![rl, sl];
    assert(no_newline(rl) && no_newline(sl));
    assert(joined(head) == header_text(rate, width, height)) by {
        assert(head.drop_first() =~= seq![sl]);
        assert(seq![sl].drop_first() =~= Seq::<Seq<u8>>::empty());
        assert(joined(Seq::<Seq<u8>>::empty()) == Seq::<u8>::empty());
        assert(joined(seq![sl]) =~= sl.push(10));
        assert(joined(head) =~= rl.push(10) + sl.push(10));
    }
    lemma_flatten_text(fs);
    let all = head + flatten(fs);
    lemma_joined_append(head, flatten(fs));
    assert(all_no_newline(all)) by {
        assert forall|j: int| 0 <= j < all.len() implies no_newline(#[trigger] all[j]) by {
            if j >= 2 {
                assert(all[j] == flatten(fs)[j - 2]);
            }
        }
    }
    lemma_joined_ends_with_newline(all);
    lemma_lines_unique(header_text(rate, width, height) + frames_text(fs), ls, all);
    assert(ls[0] == rl && ls[1] == sl);
    assert(ls.subrange(2, ls.len() as int) =~= flatten(fs));
    lemma_joined_ends_with_newline(flatten(fs));
    lemma_frames_round_trip(fs, height as nat, flatten(fs));
    // no line ends with a carriage return, so reading drops nothing
    lemma_flatten_plain(fs);
    assert(is_digit(fd[fd.len() - 1]));
    assert(rl.last() == fd.last());
    assert(is_digit(hd_[hd_.len() - 1]));
    assert(sl.last() == hd_.last());
    assert(read_as_lines(header_text(rate, width, height) + frames_text(fs), ls) =~= ls) by {
        assert forall|j: int| 0 <= j < ls.len() implies no_trailing_cr(#[trigger] ls[j]) by {
            if j >= 2 {
                assert(ls[j] == flatten(fs)[j - 2]);
            }
        }
    }
    // the rate is truncated, not rounded
    assert(rn * den <= num * p < (rn + 1) * den) by (nonlinear_arith)
        requires rn == i * p + f, num == den * i + m, m * p == den * f + (m * p) % den,
            0 <= (m * p) % den < den;
}

} // verus!
