//! Playback: lines are gathered into frames, and each frame is shown at a
//! time fixed from the first frame's display time, so that delays in showing
//! one frame do not push back the frames after it.

use vstd::prelude::*;
use crate::wire::{encode_frame, joined, views, StreamHeader};

verus! {

pub const FRAME_INDEX_MAX: u32 = 4294967295;

/// Milliseconds from the anchor to the display of frame `n` at
/// `num / den` frames per second: `n * 1000 * den / num`, rounded to the
/// nearest millisecond, halves up.
pub open spec fn frame_offset(n: nat, num: nat, den: nat) -> nat
    recommends
        num > 0,
{
    (2 * n * 1000 * den + num) / (2 * num)
}

/// When a frame is shown: at its target time, or at once where that is past.
pub open spec fn display_time(anchor: nat, n: nat, num: nat, den: nat, now: nat) -> nat {
    if now < anchor + frame_offset(n, num, den) {
        anchor + frame_offset(n, num, den)
    } else {
        now
    }
}

/// The milliseconds that frame `n` is due after the anchor.
pub fn frame_offset_ms(n: u32, hd: &StreamHeader) -> (r: u128)
    requires
        hd.wf(),
    ensures
        r == frame_offset(n as nat, hd.rate_num as nat, hd.rate_den as nat),
        r <= 20_000_000_000_000_000_000_000_000_000_000,
{
    let (num, den) = (hd.rate_num, hd.rate_den);
    assert(2 * n * 1000 * den <= 2 * 4294967295 * 1000 * 1_000_000_000_000_000_000) by (nonlinear_arith)
        requires n <= 4294967295, den <= 1_000_000_000_000_000_000;
    proof {
        let x = 2 * n * 1000 * den + num;
        let d = 2 * num;
        vstd::arithmetic::div_mod::lemma_fundamental_div_mod(x as int, d as int);
        assert(x / d <= x) by (nonlinear_arith)
            requires x == d * (x / d) + x % d, 0 <= x % d, d >= 1, x / d >= 0;
    }
    (2 * n as u128 * 1000 * den + num) / (2 * num)
}

/// The display surface's size for a frame of `width` by `height` cells.
pub fn viewport_size(width: u32, height: u32) -> (r: (u64, u64))
    ensures
        r.0 == width * 10,
        r.1 == height * 30,
{
    (width as u64 * 10, height as u64 * 30)
}

/// The playback of one stream: the lines of the frame in progress, the
/// display time of the first frame once shown, and the frames shown so far.
pub struct Player {
    pub header: StreamHeader,
    pub pending: Vec<Vec<u8>>,
    pub anchor: Option<u64>,
    pub shown: u32,
}

impl Player {
    pub open spec fn wf(&self) -> bool {
        self.header.wf() && self.pending@.len() < self.header.height
    }

    pub open spec fn pending_lines(&self) -> Seq<Seq<u8>> {
        views(self.pending@)
    }

    /// Idle: nothing shown, no anchor.
    pub fn new(header: StreamHeader) -> (r: Player)
        requires
            header.wf(),
        ensures
            r.wf(),
            r.header == header,
            r.pending_lines() == Seq::<Seq<u8>>::empty(),
            r.anchor is None,
            r.shown == 0,
    {
        let r = Player { header, pending: Vec::new(), anchor: None, shown: 0 };
        assert(r.pending_lines() =~= Seq::<Seq<u8>>::empty());
        r
    }

    /// Adds a line; where it completes a frame of `height` lines, hands back
    /// that frame's text and starts the next frame.
    pub fn push_line(&mut self, line: Vec<u8>) -> (r: Option<Vec<u8>>)
        requires
            old(self).wf(),
        ensures
            final(self).wf(),
            final(self).header == old(self).header,
            final(self).anchor == old(self).anchor,
            final(self).shown == old(self).shown,
            ({
                let p = old(self).pending_lines().push(line@);
                if p.len() == old(self).header.height {
                    r matches Some(t) && t@ == joined(p) && final(self).pending_lines() == Seq::<Seq<u8>>::empty()
                } else {
                    r is None && final(self).pending_lines() == p
                }
            }),
    {
        let ghost p = self.pending_lines().push(line@);
        self.pending.push(line);
        assert(self.pending_lines() =~= p);
        if self.pending.len() == self.header.height as usize {
            let text = encode_frame(&self.pending);
            self.pending = Vec::new();
            assert(self.pending_lines() =~= Seq::<Seq<u8>>::empty());
            Some(text)
        } else {
            None
        }
    }

    /// Schedules the next complete frame, seen at clock time `now` (in
    /// milliseconds), and returns how long to wait before showing it. The
    /// first frame is shown at once and its time becomes the anchor; frame
    /// `n` after it is due at the anchor plus `frame_offset(n)`, and is shown
    /// at once, with nothing skipped, where that time is past.
    pub fn schedule(&mut self, now: u64) -> (wait: u128)
        requires
            old(self).wf(),
            old(self).shown < FRAME_INDEX_MAX,
        ensures
            final(self).wf(),
            final(self).header == old(self).header,
            final(self).pending_lines() == old(self).pending_lines(),
            final(self).shown == old(self).shown + 1,
            match old(self).anchor {
                None => wait == 0 && final(self).anchor == Some(now),
                Some(a) => final(self).anchor == Some(a) && now + wait == display_time(
                    a as nat,
                    old(self).shown as nat,
                    old(self).header.rate_num as nat,
                    old(self).header.rate_den as nat,
                    now as nat,
                ),
            },
    {
        let wait = match self.anchor {
            None => {
                self.anchor = Some(now);
                0
            },
            Some(a) => {
                let target = a as u128 + frame_offset_ms(self.shown, &self.header);
                if target > now as u128 {
                    target - now as u128
                } else {
                    0
                }
            },
        };
        self.shown = self.shown + 1;
        wait
    }
}

/// Pacing does not drift: wherever the clock has not passed frame `n`'s
/// target when the frame comes up, the frame is shown exactly
/// `frame_offset(n)` after the anchor, whatever happened to the frames
/// before it, and that offset is within half a millisecond of
/// `n * 1000 / rate`.
pub proof fn lemma_no_drift(anchor: nat, n: nat, num: nat, den: nat, now: nat)
    requires
        num > 0,
        now <= anchor + frame_offset(n, num, den),
    ensures
        display_time(anchor, n, num, den, now) == anchor + frame_offset(n, num, den),
        2 * num * frame_offset(n, num, den) <= 2 * n * 1000 * den + num,
        2 * n * 1000 * den + num < 2 * num * (frame_offset(n, num, den) + 1),
{
    let x = 2 * n * 1000 * den + num;
    let d = 2 * num;
    vstd::arithmetic::div_mod::lemma_fundamental_div_mod(x as int, d as int);
    let q = frame_offset(n, num, den);
    assert(x == d * q + x % d && 0 <= x % d < d);
    assert(2 * num * q <= x < 2 * num * (q + 1)) by (nonlinear_arith)
        requires x == d * q + x % d, 0 <= x % d < d, d == 2 * num;
}

/// The display times of a run of frames on a clock that moves only by the
/// waits that `schedule` hands out and by `work[k]` milliseconds of
/// processing before frame `k` comes up; the first frame is shown at
/// `anchor`.
pub open spec fn run_display(anchor: nat, work: Seq<nat>, num: nat, den: nat, k: nat) -> nat
    decreases k,
{
    if k == 0 {
        anchor
    } else {
        display_time(anchor, k, num, den, run_display(anchor, work, num, den, (k - 1) as nat) + work[k as int])
    }
}

/// Pacing over a whole run: where the processing before each frame takes no
/// longer than the gap between its target and the one before it, frame `k`
/// is shown exactly `frame_offset(k)` after the first frame, however many
/// frames came before it.
pub proof fn lemma_run_no_drift(anchor: nat, work: Seq<nat>, num: nat, den: nat, k: nat)
    requires
        num > 0,
        k < work.len(),
        forall|j: int| 1 <= j < work.len() ==>
            frame_offset((j - 1) as nat, num, den) + #[trigger] work[j] <= frame_offset(j as nat, num, den),
    ensures
        run_display(anchor, work, num, den, k) == anchor + frame_offset(k, num, den),
    decreases k,
{
    if k == 0 {
        assert(frame_offset(0, num, den) == 0) by {
            assert(2 * 0 * 1000 * den + num == num) by (nonlinear_arith);
            vstd::arithmetic::div_mod::lemma_basic_div(num as int, 2 * num as int);
        }
    } else {
        lemma_run_no_drift(anchor, work, num, den, (k - 1) as nat);
        assert(frame_offset((k - 1) as nat, num, den) + work[k as int] <= frame_offset(k, num, den));
    }
}

/// At 30 frames per second each frame is due at least 33 ms after the one
/// before it.
pub proof fn lemma_thirty_fps_gap(k: nat)
    requires
        k >= 1,
    ensures
        frame_offset((k - 1) as nat, 30, 1) + 33 <= frame_offset(k, 30, 1),
{
    let x = 2 * (k - 1) * 1000 + 30;
    assert(2 * (k - 1) * 1000 * 1 + 30 == x);
    assert(2 * k * 1000 * 1 + 30 == x + 2000) by (nonlinear_arith)
        requires x == 2 * (k - 1) * 1000 + 30;
    vstd::arithmetic::div_mod::lemma_fundamental_div_mod(x as int, 60);
    vstd::arithmetic::div_mod::lemma_fundamental_div_mod((x + 2000) as int, 60);
    let (q1, q2) = (x / 60, (x + 2000) / 60);
    assert(q1 + 33 <= q2) by (nonlinear_arith)
        requires x == 60 * q1 + x % 60, 0 <= x % 60 < 60,
            x + 2000 == 60 * q2 + (x + 2000) % 60, 0 <= (x + 2000) % 60 < 60;
}

/// With a rate of 30 frames per second and at most 33 ms of processing
/// before each of 1000 frames, the last frame is shown exactly
/// 33300 ms (999 * 1000 / 30) after the first.
pub proof fn lemma_thirty_fps_run(anchor: nat, work: Seq<nat>)
    requires
        work.len() == 1000,
        forall|j: int| 0 <= j < 1000 ==> #[trigger] work[j] <= 33,
    ensures
        run_display(anchor, work, 30, 1, 999) == run_display(anchor, work, 30, 1, 0) + 33300,
{
    assert forall|j: int| 1 <= j < work.len() implies
        frame_offset((j - 1) as nat, 30, 1) + #[trigger] work[j] <= frame_offset(j as nat, 30, 1) by {
        lemma_thirty_fps_gap(j as nat);
    }
    lemma_run_no_drift(anchor, work, 30, 1, 999);
    assert(frame_offset(999, 30, 1) == 33300);
}

} // verus!
