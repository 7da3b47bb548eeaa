//! Conversion between the sender's and the receiver's audio format.
//!
//! The sample rate is converted first, by linear interpolation between
//! neighbouring input frames, then the channel count. Both steps decide which
//! samples go into an output sample, and with which weight; what they hand
//! out are recipes, and evaluating a recipe in floating point is left to the
//! caller:
//!
//! * a [`Blend`] stands for `a + (b - a) * t`, with `t = pos_q32 / 2^32`;
//! * a [`Mixed`] stands for a value that is kept, for silence, for
//!   `(l + r) * 0.5`, or for the sum of some values divided by their number.
//!
//! Samples are interleaved, as the bit patterns of 32-bit floats. Positions
//! between input frames are counted in units of `2^-32` frame.

use crate::arith;
use std::collections::VecDeque;
use vstd::prelude::*;

verus! {

/// One input frame, in position units.
pub const ONE_FRAME_Q32: u64 = 0x1_0000_0000;

/// The largest step for which a position cannot overflow.
pub const MAX_STEP_Q32: u64 = 0xffff_ffff_0000_0000;

/// The value that lies `pos_q32 / 2^32` of the way from `left` to `right`.
#[derive(Debug, Clone, Copy, PartialEq, Eq, Structural)]
pub struct Blend {
    pub left: u32,
    pub right: u32,
    pub pos_q32: u64,
}

/// What one resampler has done so far.
#[derive(Debug, Default, Clone, Copy, PartialEq, Eq, Structural)]
pub struct ResamplerStats {
    pub frames_in: u64,
    pub frames_out: u64,
}

/// The state of a resampler.
#[verifier::ext_equal]
pub struct ResamplerModel {
    pub input_rate: u32,
    pub output_rate: u32,
    pub channels: nat,
    /// Position units per output frame, by the two rates.
    pub nominal_step: nat,
    /// Position units per output frame, with the drift correction.
    pub step: nat,
    /// Position of the next output frame, from the anchor on.
    pub pos: nat,
    /// The input frame that positions count from.
    pub anchor: Seq<u32>,
    /// An input frame has been seen.
    pub seeded: bool,
    pub frames_in: nat,
    pub frames_out: nat,
    pub drift_active: bool,
}

/// Position units per output frame.
pub open spec fn step_for(input_rate: u32, output_rate: u32) -> nat {
    (input_rate as nat * ONE_FRAME_Q32 as nat) / output_rate as nat
}

/// How many of the positions `pos`, `pos + step`, ... come before `end`.
pub open spec fn steps_before(pos: nat, step: nat, end: nat) -> nat {
    if pos >= end {
        0
    } else {
        arith::ceil_div((end - pos) as nat, step)
    }
}

impl ResamplerModel {
    pub open spec fn wf(self) -> bool {
        &&& self.input_rate > 0
        &&& self.output_rate > 0
        &&& self.anchor.len() == self.channels
        &&& 0 < self.step <= MAX_STEP_Q32
    }

    pub open spec fn fresh(input_rate: u32, output_rate: u32, channels: nat) -> ResamplerModel {
        ResamplerModel {
            input_rate,
            output_rate,
            channels,
            nominal_step: step_for(input_rate, output_rate),
            step: step_for(input_rate, output_rate),
            pos: 0,
            anchor: Seq::new(channels, |i: int| 0u32),
            seeded: false,
            frames_in: 0,
            frames_out: 0,
            drift_active: false,
        }
    }

    /// Frames in a run of interleaved samples.
    pub open spec fn frames(self, input: Seq<u32>) -> nat {
        input.len() / self.channels
    }

    /// Sample `c` of frame `i`, counted from the anchor: the anchor is frame
    /// 0 and the input follows it. Before the first input there is no anchor
    /// and the first input frame is frame 0.
    pub open spec fn sample(self, input: Seq<u32>, i: int, c: int) -> u32 {
        if !self.seeded {
            input[i * self.channels + c]
        } else if i == 0 {
            self.anchor[c]
        } else {
            input[(i - 1) * self.channels + c]
        }
    }

    /// Frames behind the anchor that the input supplies.
    pub open spec fn ahead(self, input: Seq<u32>) -> nat {
        if self.seeded || self.frames(input) == 0 {
            self.frames(input)
        } else {
            (self.frames(input) - 1) as nat
        }
    }

    /// Output frames that the input allows for: every position with an input
    /// frame on both sides, at most `cap` of them.
    pub open spec fn produced(self, input: Seq<u32>, cap: nat) -> nat {
        arith::smaller(
            cap,
            steps_before(self.pos, self.step, self.ahead(input) * ONE_FRAME_Q32 as nat),
        )
    }

    /// Position of output frame `j` of a call.
    pub open spec fn position(self, j: nat) -> nat {
        self.pos + j * self.step
    }

    /// Sample `c` of output frame `j` of a call.
    pub open spec fn blend(self, input: Seq<u32>, j: nat, c: int) -> Blend {
        let at = self.position(j) as int / ONE_FRAME_Q32 as int;
        Blend {
            left: self.sample(input, at, c),
            right: self.sample(input, at + 1, c),
            pos_q32: (self.position(j) % ONE_FRAME_Q32 as nat) as u64,
        }
    }

    /// A run of input is converted into at most `cap` output frames. The
    /// anchor moves on with the position as far as the input goes.
    pub open spec fn processed(self, input: Seq<u32>, cap: nat) -> (ResamplerModel, Seq<Blend>) {
        if cap == 0 || self.frames(input) == 0 {
            (self, Seq::empty())
        } else {
            let n = self.produced(input, cap);
            let end = self.position(n);
            let passed = arith::smaller(end / ONE_FRAME_Q32 as nat, self.ahead(input));
            (
                ResamplerModel {
                    pos: (end - passed * ONE_FRAME_Q32) as nat,
                    anchor: Seq::new(self.channels, |c: int| self.sample(input, passed as int, c)),
                    seeded: true,
                    frames_in: self.frames_in + passed + if self.seeded {
                        0nat
                    } else {
                        1nat
                    },
                    frames_out: self.frames_out + n,
                    ..self
                },
                Seq::new(
                    n * self.channels,
                    |k: int|
                        self.blend(
                            input,
                            (k / self.channels as int) as nat,
                            k % self.channels as int,
                        ),
                ),
            )
        }
    }
}

/// Sample-rate conversion by linear interpolation.
#[derive(Debug, Clone)]
pub struct LinearResampler {
    input_rate_hz: u32,
    output_rate_hz: u32,
    input_channels: u8,
    nominal_step_q32: u64,
    step_q32: u64,
    pos_q32: u64,
    last_frame: Vec<u32>,
    seeded: bool,
    frames_in: u64,
    frames_out: u64,
    drift_active: bool,
}

impl View for LinearResampler {
    type V = ResamplerModel;

    closed spec fn view(&self) -> ResamplerModel {
        ResamplerModel {
            input_rate: self.input_rate_hz,
            output_rate: self.output_rate_hz,
            channels: self.input_channels as nat,
            nominal_step: self.nominal_step_q32 as nat,
            step: self.step_q32 as nat,
            pos: self.pos_q32 as nat,
            anchor: self.last_frame@,
            seeded: self.seeded,
            frames_in: self.frames_in as nat,
            frames_out: self.frames_out as nat,
            drift_active: self.drift_active,
        }
    }
}

/// The nominal step is positive and leaves room for a position.
proof fn lemma_step_range(input_rate: u32, output_rate: u32)
    requires
        input_rate > 0,
        output_rate > 0,
    ensures
        0 < step_for(input_rate, output_rate) <= MAX_STEP_Q32,
{
    let n = input_rate as nat * ONE_FRAME_Q32 as nat;
    let d = output_rate as nat;
    assert(n >= 0x1_0000_0000);
    assert(d <= 0xffff_ffff);
    assert(0 < n / d <= n) by (nonlinear_arith)
        requires
            n >= 0x1_0000_0000,
            0 < d <= 0xffff_ffff,
    ;
}

/// `i * ch + c` is sample `c` of frame `i`.
proof fn lemma_frame_index(i: nat, c: nat, ch: nat)
    requires
        c < ch,
    ensures
        (i * ch + c) / ch == i,
        (i * ch + c) % ch == c,
{
    vstd::arithmetic::div_mod::lemma_fundamental_div_mod_converse(
        (i * ch + c) as int,
        ch as int,
        i as int,
        c as int,
    );
}

/// Frame `i` of `n` lies within `n * ch` samples.
proof fn lemma_frame_within(i: nat, n: nat, ch: nat)
    requires
        i < n,
    ensures
        i * ch + ch <= n * ch,
        (i + 1) * ch == i * ch + ch,
{
    assert(i * ch + ch <= n * ch && (i + 1) * ch == i * ch + ch) by (nonlinear_arith)
        requires
            i < n,
    ;
}

/// Whole frames fill their samples.
proof fn lemma_whole(len: nat, ch: nat)
    requires
        ch > 0,
        len % ch == 0,
    ensures
        len / ch * ch == len,
{
    vstd::arithmetic::div_mod::lemma_fundamental_div_mod(len as int, ch as int);
    assert(len / ch * ch == ch * (len / ch)) by (nonlinear_arith);
}

/// Counting steps up to `end`: where step `n` is the first at or behind
/// `end`, there are `n` before it.
proof fn lemma_steps_before(pos: nat, step: nat, end: nat, n: nat)
    requires
        step > 0,
        pos + n * step >= end,
        n > 0 ==> pos + (n - 1) * step < end,
    ensures
        steps_before(pos, step, end) == n,
{
    if n == 0 {
        assert(n * step == 0) by (nonlinear_arith)
            requires
                n == 0,
        ;
    } else {
        assert((n - 1) * step >= 0) by (nonlinear_arith)
            requires
                n > 0,
                step > 0,
        ;
        let d = (end - pos) as nat;
        let q = d / step;
        let r = d % step;
        vstd::arithmetic::div_mod::lemma_fundamental_div_mod(d as int, step as int);
        assert(d == q * step + r) by (nonlinear_arith)
            requires
                d == step * q + r,
        ;
        assert(r < step);
        assert((n - 1) * step < q * step + r <= n * step);
        assert(r == 0 ==> q == n) by (nonlinear_arith)
            requires
                (n - 1) * step < q * step + r <= n * step,
                r < step,
                step > 0,
        ;
        assert(r > 0 ==> q + 1 == n) by (nonlinear_arith)
            requires
                (n - 1) * step < q * step + r <= n * step,
                r < step,
                step > 0,
        ;
    }
}

impl LinearResampler {
    /// The representation is sound.
    pub open spec fn inv(&self) -> bool {
        self@.wf()
    }

    /// A resampler between two rates, for interleaved frames of
    /// `input_channels` samples.
    pub fn new(input_rate_hz: u32, output_rate_hz: u32, input_channels: u8) -> (r: LinearResampler)
        requires
            input_rate_hz > 0,
            output_rate_hz > 0,
        ensures
            r.inv(),
            r@ == ResamplerModel::fresh(input_rate_hz, output_rate_hz, input_channels as nat),
    {
        proof {
            lemma_step_range(input_rate_hz, output_rate_hz);
        }
        let step_q32: u64 = (input_rate_hz as u64 * ONE_FRAME_Q32) / output_rate_hz as u64;
        let r: LinearResampler = LinearResampler {
            input_rate_hz,
            output_rate_hz,
            input_channels,
            nominal_step_q32: step_q32,
            step_q32,
            pos_q32: 0,
            last_frame: vec![0u32; input_channels as usize],
            seeded: false,
            frames_in: 0,
            frames_out: 0,
            drift_active: false,
        };
        assert(r@.anchor =~= Seq::new(input_channels as nat, |i: int| 0u32));
        r
    }

    /// Whether the input passes through unchanged: equal rates, and no drift
    /// correction was ever set.
    pub fn is_passthrough(&self) -> (r: bool)
        ensures
            r == (self@.input_rate == self@.output_rate && !self@.drift_active),
    {
        self.input_rate_hz == self.output_rate_hz && !self.drift_active
    }

    /// Sets the step to a corrected value, at least one unit. From then on
    /// the resampler counts as active, whatever the rates.
    pub fn set_drift_correction(&mut self, step_q32: u64)
        requires
            old(self).inv(),
            step_q32 <= MAX_STEP_Q32,
        ensures
            final(self).inv(),
            final(self)@ == (ResamplerModel {
                drift_active: true,
                step: if step_q32 == 0 {
                    1
                } else {
                    step_q32 as nat
                },
                ..old(self)@
            }),
    {
        self.drift_active = true;
        self.step_q32 = if step_q32 == 0 {
            1
        } else {
            step_q32
        };
    }

    /// The step without correction, which a correction scales.
    pub fn nominal_step_q32(&self) -> (r: u64)
        ensures
            r == self@.nominal_step,
    {
        self.nominal_step_q32
    }

    /// Whether a drift correction was set.
    pub fn drift_active(&self) -> (r: bool)
        ensures
            r == self@.drift_active,
    {
        self.drift_active
    }

    pub fn input_rate_hz(&self) -> (r: u32)
        ensures
            r == self@.input_rate,
    {
        self.input_rate_hz
    }

    pub fn output_rate_hz(&self) -> (r: u32)
        ensures
            r == self@.output_rate,
    {
        self.output_rate_hz
    }

    pub fn input_channels(&self) -> (r: u8)
        ensures
            r == self@.channels,
    {
        self.input_channels
    }

    /// What was done so far.
    pub fn stats(&self) -> (r: ResamplerStats)
        ensures
            r.frames_in == self@.frames_in,
            r.frames_out == self@.frames_out,
    {
        ResamplerStats { frames_in: self.frames_in, frames_out: self.frames_out }
    }

    /// Makes frame `i` of `input` the anchor.
    fn anchor_at(&mut self, input: &[u32], i: usize)
        requires
            old(self).inv(),
            old(self)@.channels > 0,
            (i + 1) * old(self)@.channels <= input@.len(),
            old(self)@.frames_in < u64::MAX,
        ensures
            final(self)@ == (ResamplerModel {
                anchor: Seq::new(
                    old(self)@.channels,
                    |c: int| input@[i * old(self)@.channels + c],
                ),
                frames_in: old(self)@.frames_in + 1,
                ..old(self)@
            }),
    {
        let ch: usize = self.input_channels as usize;
        let len: usize = input.len();
        assert((i + 1) * ch == i * ch + ch) by (nonlinear_arith);
        let off: usize = i * ch;
        let ghost rest = *self;
        let mut c: usize = 0;
        while c < ch
            invariant
                c <= ch == rest.input_channels == self.last_frame@.len(),
                off == i * ch,
                off + ch <= len == input@.len(),
                *self == (LinearResampler { last_frame: self.last_frame, ..rest }),
                forall|k: int| 0 <= k < c ==> self.last_frame@[k] == input@[off + k],
            decreases ch - c,
        {
            self.last_frame[c] = input[off + c];
            c += 1;
        }
        self.frames_in = self.frames_in + 1;
        assert(self@.anchor =~= Seq::new(
            old(self)@.channels,
            |c: int| input@[i * old(self)@.channels + c],
        ));
    }

    /// Moves the anchor on while the position is a whole frame behind it and
    /// `input`, from frame `in_idx` on, has frames left. Returns the first
    /// frame that was not passed.
    fn pass_frames(&mut self, input: &[u32], in_idx: usize, in_frames: usize) -> (r: usize)
        requires
            old(self).inv(),
            old(self)@.channels > 0,
            in_idx <= in_frames,
            in_frames * old(self)@.channels <= input@.len(),
            old(self)@.frames_in + (in_frames - in_idx) <= u64::MAX,
        ensures
            in_idx <= r <= in_frames,
            r - in_idx == arith::smaller(
                old(self)@.pos / ONE_FRAME_Q32 as nat,
                (in_frames - in_idx) as nat,
            ),
            final(self)@ == (ResamplerModel {
                pos: (old(self)@.pos - (r - in_idx) * ONE_FRAME_Q32) as nat,
                anchor: if r == in_idx {
                    old(self)@.anchor
                } else {
                    Seq::new(
                        old(self)@.channels,
                        |c: int| input@[(r - 1) * old(self)@.channels + c],
                    )
                },
                frames_in: old(self)@.frames_in + (r - in_idx) as nat,
                ..old(self)@
            }),
    {
        let mut i: usize = in_idx;
        while self.pos_q32 >= ONE_FRAME_Q32 && i < in_frames
            invariant
                self.inv(),
                old(self)@.channels > 0,
                in_idx <= i <= in_frames,
                in_frames * old(self)@.channels <= input@.len(),
                old(self)@.frames_in + (in_frames - in_idx) <= u64::MAX,
                self@.pos + (i - in_idx) * 0x1_0000_0000 == old(self)@.pos,
                self@ == (ResamplerModel {
                    pos: self@.pos,
                    anchor: if i == in_idx {
                        old(self)@.anchor
                    } else {
                        Seq::new(
                            old(self)@.channels,
                            |c: int| input@[(i - 1) * old(self)@.channels + c],
                        )
                    },
                    frames_in: old(self)@.frames_in + (i - in_idx) as nat,
                    ..old(self)@
                }),
            decreases in_frames - i,
        {
            self.pos_q32 = self.pos_q32 - ONE_FRAME_Q32;
            proof {
                lemma_frame_within(i as nat, in_frames as nat, self@.channels);
            }
            self.anchor_at(input, i);
            i += 1;
        }
        i
    }

    /// Converts whole frames of input into at most `out_capacity` frames of
    /// recipes.
    pub fn process(&mut self, input_frames: &[u32], out_capacity: usize) -> (r: Vec<Blend>)
        requires
            old(self).inv(),
            old(self)@.channels > 0,
            input_frames@.len() % old(self)@.channels == 0,
            old(self)@.frames_in + input_frames@.len() <= u64::MAX,
            old(self)@.frames_out + out_capacity <= u64::MAX,
        ensures
            final(self).inv(),
            (final(self)@, r@) == old(self)@.processed(input_frames@, out_capacity as nat),
    {
        let ghost s0 = self@;
        let ch: usize = self.input_channels as usize;
        let total: usize = input_frames.len();
        let in_frames: usize = total / ch;
        let mut out: Vec<Blend> = Vec::new();
        if out_capacity == 0 || in_frames == 0 {
            assert(out@ =~= Seq::empty());
            return out;
        }
        proof {
            lemma_whole(input_frames@.len(), ch as nat);
            assert(in_frames <= in_frames * ch) by (nonlinear_arith)
                requires
                    ch > 0,
            ;
        }
        let ghost ahead = s0.ahead(input_frames@);
        let ghost end = ahead * ONE_FRAME_Q32 as nat;
        let ghost lead: nat = if s0.seeded {
            0
        } else {
            1
        };
        let mut in_idx: usize = 0;
        if !self.seeded {
            proof {
                lemma_frame_within(0, in_frames as nat, ch as nat);
            }
            self.anchor_at(input_frames, 0);
            self.seeded = true;
            in_idx = 1;
        }
        assert(forall|c: int|
            0 <= c < ch ==> #[trigger] self@.anchor[c] == s0.sample(input_frames@, 0, c));
        in_idx = self.pass_frames(input_frames, in_idx, in_frames);
        let mut written: usize = 0;
        assert(s0.position(0) == s0.pos) by (nonlinear_arith);
        while written < out_capacity && in_idx < in_frames
            invariant
                self.inv(),
                s0.wf(),
                ch == s0.channels > 0,
                in_frames * ch == input_frames@.len() == total,
                in_frames == s0.frames(input_frames@) > 0,
                ahead == s0.ahead(input_frames@),
                end == ahead * ONE_FRAME_Q32 as nat,
                lead == (if s0.seeded {
                    0nat
                } else {
                    1nat
                }),
                lead <= in_idx <= in_frames,
                in_frames == ahead + lead,
                written <= out_capacity,
                self@.pos + (in_idx - lead) * 0x1_0000_0000 == s0.position(written as nat),
                in_idx - lead == arith::smaller(
                    s0.position(written as nat) / ONE_FRAME_Q32 as nat,
                    ahead,
                ),
                written > 0 ==> s0.position((written - 1) as nat) < end,
                forall|c: int|
                    0 <= c < ch ==> #[trigger] self@.anchor[c] == s0.sample(
                        input_frames@,
                        in_idx - lead,
                        c,
                    ),
                self@ == (ResamplerModel {
                    pos: self@.pos,
                    anchor: self@.anchor,
                    seeded: true,
                    frames_in: s0.frames_in + in_idx as nat,
                    frames_out: s0.frames_out + written as nat,
                    ..s0
                }),
                s0.frames_in + in_frames <= u64::MAX,
                s0.frames_out + out_capacity <= u64::MAX,
                out@.len() == written * ch,
                forall|k: int|
                    0 <= k < out@.len() ==> #[trigger] out@[k] == s0.blend(
                        input_frames@,
                        (k / ch as int) as nat,
                        k % ch as int,
                    ),
            decreases out_capacity - written,
        {
            proof {
                lemma_frame_within(in_idx as nat, in_frames as nat, ch as nat);
            }
            let right: usize = in_idx * ch;
            let ghost at = (in_idx - lead) as int;
            assert(self.pos_q32 == s0.position(written as nat) % ONE_FRAME_Q32 as nat);
            let mut c: usize = 0;
            while c < ch
                invariant
                    c <= ch == s0.channels == self.last_frame@.len(),
                    in_frames * ch == input_frames@.len() == input_frames.len(),
                    right == in_idx * ch,
                    right + ch <= input_frames@.len(),
                    lead == (if s0.seeded {
                        0nat
                    } else {
                        1nat
                    }),
                    at == in_idx - lead >= 0,
                    at == s0.position(written as nat) as int / ONE_FRAME_Q32 as int,
                    self.pos_q32 == s0.position(written as nat) % ONE_FRAME_Q32 as nat,
                    forall|c: int|
                        0 <= c < ch ==> #[trigger] self.last_frame@[c] == s0.sample(
                            input_frames@,
                            at,
                            c,
                        ),
                    out@.len() == written * ch + c,
                    forall|k: int|
                        0 <= k < out@.len() ==> #[trigger] out@[k] == s0.blend(
                            input_frames@,
                            (k / ch as int) as nat,
                            k % ch as int,
                        ),
                decreases ch - c,
            {
                proof {
                    lemma_frame_index(written as nat, c as nat, ch as nat);
                    assert(s0.sample(input_frames@, at + 1, c as int) == input_frames@[in_idx * ch
                        + c]);
                }
                let b: Blend = Blend {
                    left: self.last_frame[c],
                    right: input_frames[right + c],
                    pos_q32: self.pos_q32,
                };
                assert(b == s0.blend(input_frames@, written as nat, c as int));
                out.push(b);
                c += 1;
            }
            proof {
                assert((written + 1) * ch == written * ch + ch) by (nonlinear_arith);
                assert(s0.position((written + 1) as nat) == s0.position(written as nat) + s0.step)
                    by {
                    assert((written + 1) * s0.step == written * s0.step + s0.step)
                        by (nonlinear_arith);
                }
            }
            written += 1;
            self.frames_out = self.frames_out + 1;
            self.pos_q32 = self.pos_q32 + self.step_q32;
            in_idx = self.pass_frames(input_frames, in_idx, in_frames);
        }
        proof {
            if in_idx == in_frames {
                lemma_steps_before(s0.pos, s0.step, end, written as nat);
            } else {
                lemma_steps_at_least(s0.pos, s0.step, end, written as nat);
            }
            assert(self@.anchor =~= s0.processed(input_frames@, out_capacity as nat).0.anchor);
            assert(out@ =~= s0.processed(input_frames@, out_capacity as nat).1);
        }
        out
    }
}

/// Where step `n - 1` is before `end`, so are `n` steps.
proof fn lemma_steps_at_least(pos: nat, step: nat, end: nat, n: nat)
    requires
        step > 0,
        n > 0 ==> pos + (n - 1) * step < end,
    ensures
        steps_before(pos, step, end) >= n,
{
    if n > 0 {
        assert((n - 1) * step >= 0) by (nonlinear_arith)
            requires
                n > 0,
                step > 0,
        ;
        let d = (end - pos) as nat;
        let q = d / step;
        let r = d % step;
        vstd::arithmetic::div_mod::lemma_fundamental_div_mod(d as int, step as int);
        assert((n - 1) * step < q * step + r) by (nonlinear_arith)
            requires
                d == step * q + r,
                (n - 1) * step < d,
        ;
        assert(r < step);
        assert(r == 0 ==> q >= n) by (nonlinear_arith)
            requires
                (n - 1) * step < q * step + r,
                step > 0,
        ;
        assert(q + 1 >= n) by (nonlinear_arith)
            requires
                (n - 1) * step < q * step + r,
                r < step,
                step > 0,
        ;
    }
}

/// How an output sample is made from values of type `T`.
#[derive(Debug, Clone)]
pub enum Mixed<T> {
    /// The value itself.
    Keep(T),
    /// Silence.
    Silence,
    /// Half the sum of two values.
    HalfSum(T, T),
    /// The sum of some values divided by their number.
    Mean(Vec<T>),
}

/// The contents of a `Mixed`.
pub enum MixedView<T> {
    Keep(T),
    Silence,
    HalfSum(T, T),
    Mean(Seq<T>),
}

impl<T> View for Mixed<T> {
    type V = MixedView<T>;

    open spec fn view(&self) -> MixedView<T> {
        match *self {
            Mixed::Keep(v) => MixedView::Keep(v),
            Mixed::Silence => MixedView::Silence,
            Mixed::HalfSum(l, r) => MixedView::HalfSum(l, r),
            Mixed::Mean(v) => MixedView::Mean(v@),
        }
    }
}

/// The contents of each of a run of recipes.
pub open spec fn views<T>(s: Seq<Mixed<T>>) -> Seq<MixedView<T>> {
    Seq::new(s.len(), |i: int| s[i]@)
}

/// First input channel of those that output channel `c` averages. Each output
/// channel takes an equal share, and the first takes what is left over too.
pub open spec fn share_start(ic: nat, oc: nat, c: nat) -> nat {
    if c == 0 {
        0
    } else {
        ic % oc + c * (ic / oc)
    }
}

/// Output channel `c` of `oc`, made from one input frame.
pub open spec fn mixed_sample<T>(frame: Seq<T>, oc: nat, c: nat) -> MixedView<T> {
    let ic = frame.len();
    if ic == oc {
        MixedView::Keep(frame[c as int])
    } else if ic == 1 && oc == 2 {
        MixedView::Keep(frame[0])
    } else if ic == 2 && oc == 1 {
        MixedView::HalfSum(frame[0], frame[1])
    } else if ic < oc {
        if c < ic {
            MixedView::Keep(frame[c as int])
        } else {
            MixedView::Silence
        }
    } else {
        MixedView::Mean(
            frame.subrange(share_start(ic, oc, c) as int, share_start(ic, oc, c + 1) as int),
        )
    }
}

/// The first `n` frames of `input`, of `ic` channels each, with `oc` channels.
pub open spec fn mixed_frames<T>(input: Seq<T>, ic: nat, oc: nat, n: nat) -> Seq<MixedView<T>> {
    Seq::new(
        n * oc,
        |k: int|
            {
                let i = k / oc as int;
                mixed_sample(
                    input.subrange(i * ic as int, i * ic as int + ic as int),
                    oc,
                    (k % oc as int) as nat,
                )
            },
    )
}

/// Conversion between channel counts.
///
/// Equal counts pass through; one channel is copied to both of two; two are
/// averaged into one; more output than input channels are filled up with
/// silence; fewer each average a share of the input channels.
#[derive(Debug, Clone, Copy, PartialEq, Eq, Structural)]
pub struct ChannelMixer {
    input_channels: u8,
    output_channels: u8,
}

/// The shares of the output channels lie within the input channels.
proof fn lemma_share_range(ic: nat, oc: nat, c: nat)
    requires
        0 < oc < ic,
        c < oc,
    ensures
        share_start(ic, oc, c) < share_start(ic, oc, c + 1) <= ic,
{
    let step = ic / oc;
    vstd::arithmetic::div_mod::lemma_fundamental_div_mod(ic as int, oc as int);
    assert(step >= 1) by (nonlinear_arith)
        requires
            0 < oc < ic,
            step == ic / oc,
    ;
    assert((c + 1) * step == c * step + step) by (nonlinear_arith);
    assert((c + 1) * step <= oc * step) by (nonlinear_arith)
        requires
            c < oc,
    ;
}

impl ChannelMixer {
    /// Input channels.
    pub closed spec fn ic(self) -> nat {
        self.input_channels as nat
    }

    /// Output channels.
    pub closed spec fn oc(self) -> nat {
        self.output_channels as nat
    }

    /// Both counts are positive.
    pub open spec fn wf(self) -> bool {
        0 < self.ic() <= 255 && 0 < self.oc() <= 255
    }

    /// The conversion from one channel count to another.
    pub closed spec fn between(input_channels: u8, output_channels: u8) -> ChannelMixer {
        ChannelMixer { input_channels, output_channels }
    }

    /// A conversion is told by its two counts.
    pub proof fn lemma_between(input_channels: u8, output_channels: u8)
        ensures
            ChannelMixer::between(input_channels, output_channels).ic() == input_channels,
            ChannelMixer::between(input_channels, output_channels).oc() == output_channels,
    {
    }

    pub fn new(input_channels: u8, output_channels: u8) -> (r: ChannelMixer)
        requires
            input_channels > 0,
            output_channels > 0,
        ensures
            r.wf(),
            r == ChannelMixer::between(input_channels, output_channels),
            r.ic() == input_channels,
            r.oc() == output_channels,
    {
        ChannelMixer { input_channels, output_channels }
    }

    /// Whether frames pass through unchanged.
    pub fn is_passthrough(&self) -> (r: bool)
        ensures
            r == (self.ic() == self.oc()),
    {
        self.input_channels == self.output_channels
    }

    pub fn input_channels(&self) -> (r: u8)
        ensures
            r == self.ic(),
    {
        self.input_channels
    }

    pub fn output_channels(&self) -> (r: u8)
        ensures
            r == self.oc(),
    {
        self.output_channels
    }

    /// Output channel `c`, made from the frame that starts at `off`.
    fn mix_one<T: Copy>(&self, input: &[T], off: usize, c: usize) -> (r: Mixed<T>)
        requires
            self.wf(),
            off + self.ic() <= input@.len(),
            c < self.oc(),
        ensures
            r@ == mixed_sample(
                input@.subrange(off as int, off + self.ic() as int),
                self.oc(),
                c as nat,
            ),
    {
        let total: usize = input.len();
        let ic: usize = self.input_channels as usize;
        let oc: usize = self.output_channels as usize;
        let ghost frame = input@.subrange(off as int, off + ic);
        if ic == oc {
            assert(frame[c as int] == input@[off + c]);
            Mixed::Keep(input[off + c])
        } else if ic == 1 && oc == 2 {
            assert(frame[0] == input@[off as int]);
            Mixed::Keep(input[off])
        } else if ic == 2 && oc == 1 {
            assert(frame[0] == input@[off as int] && frame[1] == input@[off + 1]);
            Mixed::HalfSum(input[off], input[off + 1])
        } else if ic < oc {
            if c < ic {
                assert(frame[c as int] == input@[off + c]);
                Mixed::Keep(input[off + c])
            } else {
                Mixed::Silence
            }
        } else {
            proof {
                lemma_share_range(ic as nat, oc as nat, c as nat);
                assert((c + 1) * (ic / oc) == c * (ic / oc) + ic / oc) by (nonlinear_arith);
            }
            let step: usize = ic / oc;
            let rem: usize = ic % oc;
            let end: usize = rem + c * step + step;
            let start: usize = if c == 0 {
                0
            } else {
                rem + c * step
            };
            let mut values: Vec<T> = Vec::new();
            let mut j: usize = start;
            while j < end
                invariant
                    start <= j <= end <= ic,
                    off + ic <= total == input@.len(),
                    frame == input@.subrange(off as int, off + ic),
                    values@ == frame.subrange(start as int, j as int),
                decreases end - j,
            {
                values.push(input[off + j]);
                assert(frame[j as int] == input@[off + j]);
                j += 1;
                assert(values@ =~= frame.subrange(start as int, j as int));
            }
            Mixed::Mean(values)
        }
    }

    /// Converts the frames of `input`, at most as many as fit into `out_len`
    /// output samples.
    pub fn process<T: Copy>(&self, input_frames: &[T], out_len: usize) -> (r: Vec<Mixed<T>>)
        requires
            self.wf(),
            input_frames@.len() % self.ic() == 0,
            out_len as nat % self.oc() == 0,
        ensures
            views(r@) == mixed_frames(
                input_frames@,
                self.ic(),
                self.oc(),
                arith::smaller(input_frames@.len() / self.ic(), out_len as nat / self.oc()),
            ),
    {
        let ic: usize = self.input_channels as usize;
        let oc: usize = self.output_channels as usize;
        let total: usize = input_frames.len();
        let n: usize = arith::min_usize(total / ic, out_len / oc);
        let mut out: Vec<Mixed<T>> = Vec::new();
        proof {
            lemma_whole(total as nat, ic as nat);
        }
        let mut i: usize = 0;
        while i < n
            invariant
                self.wf(),
                ic == self.ic(),
                oc == self.oc(),
                i <= n <= total as nat / ic as nat,
                total as nat / ic as nat * ic as nat == total == input_frames@.len(),
                out@.len() == i * oc,
                forall|k: int|
                    0 <= k < out@.len() ==> (#[trigger] out@[k])@ == mixed_frames(
                        input_frames@,
                        ic as nat,
                        oc as nat,
                        i as nat,
                    )[k],
            decreases n - i,
        {
            proof {
                lemma_frame_within(i as nat, total as nat / ic as nat, ic as nat);
                assert((i + 1) * oc == i * oc + oc) by (nonlinear_arith);
            }
            let off: usize = i * ic;
            let mut c: usize = 0;
            while c < oc
                invariant
                    self.wf(),
                    ic == self.ic(),
                    oc == self.oc(),
                    c <= oc,
                    off == i * ic,
                    off + ic <= total == input_frames@.len(),
                    out@.len() == i * oc + c,
                    (i + 1) * oc == i * oc + oc,
                    forall|k: int|
                        0 <= k < out@.len() ==> (#[trigger] out@[k])@ == mixed_frames(
                            input_frames@,
                            ic as nat,
                            oc as nat,
                            (i + 1) as nat,
                        )[k],
                decreases oc - c,
            {
                proof {
                    lemma_frame_index(i as nat, c as nat, oc as nat);
                }
                let m: Mixed<T> = self.mix_one(input_frames, off, c);
                out.push(m);
                c += 1;
            }
            i += 1;
        }
        assert(views(out@) =~= mixed_frames(input_frames@, ic as nat, oc as nat, n as nat));
        out
    }
}

/// What one pipeline has done so far.
#[derive(Debug, Default, Clone, Copy, PartialEq, Eq, Structural)]
pub struct FormatStats {
    /// Input samples taken in.
    pub samples_in: u64,
    /// Output samples made.
    pub samples_out: u64,
    pub resampler_frames_in: u64,
    pub resampler_frames_out: u64,
    /// Frames handed from the resampler to the mixer.
    pub mixer_frames_in: u64,
}

/// The state of a pipeline.
#[verifier::ext_equal]
pub struct PipelineModel {
    pub resampler: ResamplerModel,
    pub mixer: ChannelMixer,
    /// Output that was made and not yet taken, oldest first.
    pub pending: Seq<MixedView<Blend>>,
    pub samples_in: nat,
    pub samples_out: nat,
    pub mixer_frames_in: nat,
}

/// Output frames that one run of `in_frames` input frames may give, one every
/// `step`: as many as fit, whatever fraction of a frame was left over before.
pub open spec fn frame_budget(in_frames: nat, step: nat) -> nat {
    arith::ceil_div(in_frames * ONE_FRAME_Q32 as nat, step)
}

impl PipelineModel {
    pub open spec fn wf(self) -> bool {
        &&& self.resampler.wf()
        &&& self.mixer.wf()
        &&& self.mixer.ic() == self.resampler.channels
    }

    /// A pipeline between two formats that has seen nothing.
    pub open spec fn fresh(
        input_rate: u32,
        output_rate: u32,
        input_channels: u8,
        output_channels: u8,
    ) -> PipelineModel {
        PipelineModel {
            resampler: ResamplerModel::fresh(input_rate, output_rate, input_channels as nat),
            mixer: ChannelMixer::between(input_channels, output_channels),
            pending: Seq::empty(),
            samples_in: 0,
            samples_out: 0,
            mixer_frames_in: 0,
        }
    }

    /// Nothing has to be converted.
    pub open spec fn passes_through(self) -> bool {
        self.resampler.input_rate == self.resampler.output_rate && !self.resampler.drift_active
            && self.mixer.ic() == self.mixer.oc()
    }

    /// Output frames that one run of input may give.
    pub open spec fn budget(self, input: Seq<u32>) -> nat {
        frame_budget(self.resampler.frames(input), self.resampler.step)
    }

    /// A run of input is converted and its output queued.
    pub open spec fn fed(self, input: Seq<u32>) -> PipelineModel {
        if self.resampler.frames(input) == 0 {
            self
        } else {
            let (resampler, blends) = self.resampler.processed(input, self.budget(input));
            let n = self.resampler.produced(input, self.budget(input));
            PipelineModel {
                resampler,
                pending: self.pending + mixed_frames(blends, self.mixer.ic(), self.mixer.oc(), n),
                samples_in: self.samples_in + input.len(),
                samples_out: self.samples_out + n * self.mixer.oc(),
                mixer_frames_in: self.mixer_frames_in + n,
                ..self
            }
        }
    }

    /// The counters can take in one more run of input.
    pub open spec fn has_room(self, input: Seq<u32>) -> bool {
        &&& self.resampler.frames_in + input.len() <= u64::MAX
        &&& self.resampler.frames_out + self.budget(input) <= u64::MAX
        &&& self.samples_in + input.len() <= u64::MAX
        &&& self.samples_out + self.budget(input) * self.mixer.oc() <= u64::MAX
        &&& self.mixer_frames_in + self.budget(input) <= u64::MAX
    }
}

/// Rate conversion followed by channel conversion, with a queue of output.
pub struct FormatPipeline {
    resampler: LinearResampler,
    mixer: ChannelMixer,
    fifo: VecDeque<Mixed<Blend>>,
    samples_in: u64,
    samples_out: u64,
    mixer_frames_in: u64,
}

impl View for FormatPipeline {
    type V = PipelineModel;

    closed spec fn view(&self) -> PipelineModel {
        PipelineModel {
            resampler: self.resampler@,
            mixer: self.mixer,
            pending: views(self.fifo@),
            samples_in: self.samples_in as nat,
            samples_out: self.samples_out as nat,
            mixer_frames_in: self.mixer_frames_in as nat,
        }
    }
}

impl FormatPipeline {
    /// A pipeline between two formats.
    pub fn new(
        input_rate_hz: u32,
        output_rate_hz: u32,
        input_channels: u8,
        output_channels: u8,
    ) -> (r: FormatPipeline)
        requires
            input_rate_hz > 0,
            output_rate_hz > 0,
            input_channels > 0,
            output_channels > 0,
        ensures
            r@.wf(),
            r@ == PipelineModel::fresh(
                input_rate_hz,
                output_rate_hz,
                input_channels,
                output_channels,
            ),
    {
        let r: FormatPipeline = FormatPipeline {
            resampler: LinearResampler::new(input_rate_hz, output_rate_hz, input_channels),
            mixer: ChannelMixer::new(input_channels, output_channels),
            fifo: VecDeque::new(),
            samples_in: 0,
            samples_out: 0,
            mixer_frames_in: 0,
        };
        assert(r@.pending =~= Seq::empty());
        r
    }

    /// Whether nothing has to be converted.
    pub fn is_passthrough(&self) -> (r: bool)
        ensures
            r == self@.passes_through(),
    {
        self.resampler.is_passthrough() && self.mixer.is_passthrough()
    }

    /// The rate conversion.
    pub fn resampler(&self) -> (r: &LinearResampler)
        ensures
            r@ == self@.resampler,
    {
        &self.resampler
    }

    /// The channel conversion.
    pub fn mixer(&self) -> (r: &ChannelMixer)
        ensures
            *r == self@.mixer,
    {
        &self.mixer
    }

    /// Sets the resampler's step to a corrected value.
    pub fn set_drift_correction(&mut self, step_q32: u64)
        requires
            old(self)@.wf(),
            step_q32 <= MAX_STEP_Q32,
        ensures
            final(self)@.wf(),
            final(self)@ == (PipelineModel {
                resampler: ResamplerModel {
                    drift_active: true,
                    step: if step_q32 == 0 {
                        1
                    } else {
                        step_q32 as nat
                    },
                    ..old(self)@.resampler
                },
                ..old(self)@
            }),
    {
        self.resampler.set_drift_correction(step_q32);
    }

    /// Whether a drift correction was set.
    pub fn drift_active(&self) -> (r: bool)
        ensures
            r == self@.resampler.drift_active,
    {
        self.resampler.drift_active()
    }

    /// What was done so far.
    pub fn stats(&self) -> (r: FormatStats)
        ensures
            r.samples_in == self@.samples_in,
            r.samples_out == self@.samples_out,
            r.resampler_frames_in == self@.resampler.frames_in,
            r.resampler_frames_out == self@.resampler.frames_out,
            r.mixer_frames_in == self@.mixer_frames_in,
    {
        let rs: ResamplerStats = self.resampler.stats();
        FormatStats {
            samples_in: self.samples_in,
            samples_out: self.samples_out,
            resampler_frames_in: rs.frames_in,
            resampler_frames_out: rs.frames_out,
            mixer_frames_in: self.mixer_frames_in,
        }
    }

    /// Whole output frames that are ready to be taken.
    pub fn pending_output_frames(&self) -> (r: usize)
        requires
            self@.wf(),
        ensures
            r == self@.pending.len() / self@.mixer.oc(),
    {
        self.fifo.len() / self.mixer.output_channels() as usize
    }

    /// Converts a run of input and queues the output.
    pub fn feed(&mut self, input: &[u32])
        requires
            old(self)@.wf(),
            input@.len() >= old(self)@.resampler.channels ==> input@.len()
                % old(self)@.resampler.channels == 0,
            old(self)@.budget(input@) * old(self)@.mixer.ic() <= usize::MAX,
            old(self)@.budget(input@) * old(self)@.mixer.oc() <= usize::MAX,
            old(self)@.has_room(input@),
        ensures
            final(self)@.wf(),
            final(self)@ == old(self)@.fed(input@),
    {
        let ghost s = self@;
        let ic: usize = self.resampler.input_channels() as usize;
        let oc: usize = self.mixer.output_channels() as usize;
        let in_frames: usize = input.len() / ic;
        if in_frames == 0 {
            return;
        }
        proof {
            let len = input@.len();
            assert(len >= ic) by (nonlinear_arith)
                requires
                    len / ic as nat > 0,
                    ic > 0,
            ;
            let b = s.budget(input@);
            assert(b <= b * ic as nat) by (nonlinear_arith)
                requires
                    ic > 0,
            ;
        }
        let budget: usize = self.frame_budget(in_frames);
        let blends: Vec<Blend> = self.resampler.process(input, budget);
        proof {
            let n = s.resampler.produced(input@, budget as nat);
            lemma_frame_index(n, 0, ic as nat);
            lemma_frame_index(n, 0, oc as nat);
            assert(n * oc <= budget * oc) by (nonlinear_arith)
                requires
                    n <= budget,
            ;
        }
        let n: usize = blends.len() / ic;
        let mixed: Vec<Mixed<Blend>> = self.mixer.process(blends.as_slice(), n * oc);
        let ghost queued = self.fifo@;
        let ghost fresh = mixed@;
        for m in it: mixed
            invariant
                it.seq() == fresh,
                self.fifo@ == queued + fresh.take(it.index() as int),
                self.resampler@ == s.resampler.processed(input@, budget as nat).0,
                self.mixer == s.mixer,
                self.samples_in == s.samples_in,
                self.samples_out == s.samples_out,
                self.mixer_frames_in == s.mixer_frames_in,
        {
            self.fifo.push_back(m);
            assert(self.fifo@ =~= queued + fresh.take(it.index() + 1));
        }
        assert(fresh.take(fresh.len() as int) =~= fresh);
        self.samples_in = self.samples_in + input.len() as u64;
        self.samples_out = self.samples_out + n as u64 * oc as u64;
        self.mixer_frames_in = self.mixer_frames_in + n as u64;
        assert(self@.pending =~= s.pending + views(fresh));
    }

    /// Output frames that `in_frames` input frames may give.
    fn frame_budget(&self, in_frames: usize) -> (r: usize)
        requires
            self@.wf(),
            frame_budget(in_frames as nat, self@.resampler.step) <= usize::MAX,
        ensures
            r == frame_budget(in_frames as nat, self@.resampler.step),
    {
        let step: u128 = self.resampler.step_q32 as u128;
        assert(in_frames * 0x1_0000_0000 <= u64::MAX * 0x1_0000_0000) by (nonlinear_arith)
            requires
                in_frames <= u64::MAX,
        ;
        let end: u128 = in_frames as u128 * ONE_FRAME_Q32 as u128;
        let whole: u128 = end / step;
        if end % step == 0 {
            whole as usize
        } else {
            whole as usize + 1
        }
    }

    /// Takes the oldest output samples, at most `out_len` of them.
    pub fn drain(&mut self, out_len: usize) -> (r: Vec<Mixed<Blend>>)
        requires
            old(self)@.wf(),
        ensures
            final(self)@.wf(),
            r@.len() == arith::smaller(old(self)@.pending.len(), out_len as nat),
            views(r@) == old(self)@.pending.take(r@.len() as int),
            final(self)@ == (PipelineModel {
                pending: old(self)@.pending.skip(r@.len() as int),
                ..old(self)@
            }),
    {
        let ghost s = self@;
        let ghost queued = self.fifo@;
        let n: usize = arith::min_usize(self.fifo.len(), out_len);
        let mut out: Vec<Mixed<Blend>> = Vec::new();
        let mut i: usize = 0;
        while i < n
            invariant
                i <= n <= queued.len(),
                out@ == queued.take(i as int),
                self.fifo@ == queued.skip(i as int),
                self.resampler@ == s.resampler,
                self.mixer == s.mixer,
                self.samples_in == s.samples_in,
                self.samples_out == s.samples_out,
                self.mixer_frames_in == s.mixer_frames_in,
            decreases n - i,
        {
            match self.fifo.pop_front() {
                Some(m) => {
                    out.push(m);
                },
                None => {},
            }
            i += 1;
            assert(out@ =~= queued.take(i as int));
            assert(self.fifo@ =~= queued.skip(i as int));
        }
        assert(views(out@) =~= s.pending.take(n as int));
        assert(self@.pending =~= s.pending.skip(n as int));
        out
    }

    /// `feed`, then `drain`.
    pub fn process(&mut self, input: &[u32], out_len: usize) -> (r: Vec<Mixed<Blend>>)
        requires
            old(self)@.wf(),
            input@.len() >= old(self)@.resampler.channels ==> input@.len()
                % old(self)@.resampler.channels == 0,
            old(self)@.budget(input@) * old(self)@.mixer.ic() <= usize::MAX,
            old(self)@.budget(input@) * old(self)@.mixer.oc() <= usize::MAX,
            old(self)@.has_room(input@),
        ensures
            final(self)@.wf(),
            ({
                let fed = old(self)@.fed(input@);
                &&& r@.len() == arith::smaller(fed.pending.len(), out_len as nat)
                &&& views(r@) == fed.pending.take(r@.len() as int)
                &&& final(self)@ == (PipelineModel {
                    pending: fed.pending.skip(r@.len() as int),
                    ..fed
                })
            }),
    {
        self.feed(input);
        self.drain(out_len)
    }
}

impl ResamplerModel {
    /// Output frames that the input allows for, without a limit.
    pub open spec fn supply(self, input: Seq<u32>) -> nat {
        steps_before(self.pos, self.step, self.ahead(input) * ONE_FRAME_Q32 as nat)
    }

    /// The output is in step with the input: output frame `k` since the
    /// beginning stands at `k * step`, counted from the first input frame.
    pub open spec fn in_phase(self) -> bool {
        if self.seeded {
            self.frames_in >= 1 && (self.frames_in - 1) * ONE_FRAME_Q32 + self.pos
                == self.frames_out * self.step
        } else {
            self.frames_in == 0 && self.frames_out == 0 && self.pos == 0
        }
    }
}

/// A new resampler is in phase, and every call keeps it so: no fraction of a
/// frame is ever lost, however the input is cut up.
pub proof fn law_phase_is_exact(s: ResamplerModel, input: Seq<u32>, cap: nat)
    requires
        s.wf(),
        s.channels > 0,
        s.in_phase(),
    ensures
        s.processed(input, cap).0.in_phase(),
        ResamplerModel::fresh(s.input_rate, s.output_rate, s.channels).in_phase(),
{
    if cap > 0 && s.frames(input) > 0 {
        let n = s.produced(input, cap);
        assert((s.frames_out + n) * s.step == s.frames_out * s.step + n * s.step)
            by (nonlinear_arith);
        assert(0 * s.step == 0) by (nonlinear_arith);
    }
}

/// Where nothing limits the output, a call passes all of its input.
proof fn lemma_all_passed(s: ResamplerModel, input: Seq<u32>)
    requires
        s.wf(),
    ensures
        s.position(s.supply(input)) >= s.ahead(input) * ONE_FRAME_Q32,
        s.supply(input) > 0 ==> s.position((s.supply(input) - 1) as nat) < s.ahead(input)
            * ONE_FRAME_Q32,
{
    let end = s.ahead(input) * ONE_FRAME_Q32 as nat;
    lemma_steps_reach(s.pos, s.step, end);
}

/// `steps_before` steps reach `end`; one fewer does not.
proof fn lemma_steps_reach(pos: nat, step: nat, end: nat)
    requires
        step > 0,
    ensures
        pos + steps_before(pos, step, end) * step >= end,
        steps_before(pos, step, end) > 0 ==> pos + (steps_before(pos, step, end) - 1) * step < end,
{
    let n = steps_before(pos, step, end);
    if pos >= end {
        assert(n * step == 0) by (nonlinear_arith)
            requires
                n == 0,
        ;
    } else {
        let d = (end - pos) as nat;
        let q = d / step;
        let r = d % step;
        vstd::arithmetic::div_mod::lemma_fundamental_div_mod(d as int, step as int);
        assert(d == q * step + r && (q + 1) * step == q * step + step && (q - 1) * step == q * step
            - step) by (nonlinear_arith)
            requires
                d == step * q + r,
        ;
    }
}

/// Every position before the end has its frame, and the next, in the input.
proof fn lemma_position_before(s: ResamplerModel, j: nat, n: nat, end: nat)
    requires
        s.wf(),
        j < n,
        s.position((n - 1) as nat) < end,
    ensures
        s.position(j) < end,
{
    assert(j * s.step <= (n - 1) * s.step) by (nonlinear_arith)
        requires
            j <= n - 1,
            s.step > 0,
    ;
}

/// The seam between two chunks that each hold a frame.
proof fn lemma_chunks_join(
    s: ResamplerModel,
    a: Seq<u32>,
    b: Seq<u32>,
    cap_a: nat,
    cap_b: nat,
    cap: nat,
)
    requires
        s.wf(),
        s.channels > 0,
        a.len() % s.channels == 0,
        b.len() % s.channels == 0,
        a.len() > 0,
        b.len() > 0,
        0 < cap_a,
        s.supply(a) <= cap_a,
        0 < cap_b,
        s.processed(a, cap_a).0.supply(b) <= cap_b,
        s.supply(a) + s.processed(a, cap_a).0.supply(b) <= cap,
        0 < cap,
    ensures
        s.processed(a + b, cap) == ({
            let (s1, x) = s.processed(a, cap_a);
            let (s2, y) = s1.processed(b, cap_b);
            (s2, x + y)
        }),
{
    let ch = s.channels;
    let (s1, x) = s.processed(a, cap_a);
    let (s2, y) = s1.processed(b, cap_b);
    let both = a + b;
    let fa = s.frames(a);
    let fb = s.frames(b);
    lemma_whole(a.len(), ch);
    lemma_whole(b.len(), ch);
    assert(fa > 0 && fb > 0) by {
        if fa == 0 {
            assert(fa * ch == 0) by (nonlinear_arith)
                requires
                    fa == 0,
            ;
        }
        if fb == 0 {
            assert(fb * ch == 0) by (nonlinear_arith)
                requires
                    fb == 0,
            ;
        }
    }
    assert((fa + fb) * ch == fa * ch + fb * ch) by (nonlinear_arith);
    lemma_frame_index(fa + fb, 0, ch);
    assert(s.frames(both) == fa + fb);
    let ahead = s.ahead(a);
    let one = ONE_FRAME_Q32 as nat;
    let n1 = s.supply(a);
    let n2 = s1.supply(b);
    let n = n1 + n2;
    lemma_all_passed(s, a);
    lemma_all_passed(s1, b);
    assert(s.position(n1) / one >= ahead);
    assert(s1.pos == s.position(n1) - ahead * one);
    assert(s.ahead(both) == ahead + fb);
    assert forall|j: nat| #[trigger] s1.position(j) == s.position(n1 + j) - ahead * one by {
        assert((n1 + j) * s.step == n1 * s.step + j * s.step) by (nonlinear_arith);
    }
    assert(s1.position(n2) == s.position(n) - ahead * one);
    if n2 > 0 {
        assert(s1.position((n2 - 1) as nat) == s.position((n - 1) as nat) - ahead * one);
    }
    lemma_steps_before(s.pos, s.step, (ahead + fb) * one, n);
    assert(s.supply(both) == n);
    assert forall|i: int, c: int| 0 <= i <= fb && 0 <= c < ch implies #[trigger] s1.sample(b, i, c)
        == s.sample(both, ahead + i, c) by {
        lemma_same_sample(s, a, b, i, c);
    }
    assert forall|k: int| 0 <= k < n * ch implies #[trigger] s.processed(both, cap).1[k] == (x
        + y)[k] by {
        lemma_joined_output(s, s1, a, b, n1, n2, k);
        assert(n * ch == n1 * ch + n2 * ch) by (nonlinear_arith)
            requires
                n == n1 + n2,
        ;
    }
    assert(n * ch == n1 * ch + n2 * ch) by (nonlinear_arith)
        requires
            n == n1 + n2,
    ;
    assert(s.processed(both, cap).1 =~= x + y);
    assert(s.processed(both, cap).0.anchor =~= s2.anchor) by {
        assert forall|c: int| 0 <= c < ch implies s.processed(both, cap).0.anchor[c]
            == s2.anchor[c] by {
            assert(s1.sample(b, fb as int, c) == s.sample(both, (ahead + fb) as int, c));
        }
    }
    assert(s.processed(both, cap).0 =~= s2);
}

/// Cutting the input in two, anywhere between frames, makes no difference: the
/// two outputs, one after the other, are the output for the whole input, and the
/// state afterwards is the same. An empty chunk gives nothing and changes
/// nothing. The limits on the output are taken to be out of the way.
pub proof fn law_chunks_are_seamless(
    s: ResamplerModel,
    a: Seq<u32>,
    b: Seq<u32>,
    cap_a: nat,
    cap_b: nat,
    cap: nat,
)
    requires
        s.wf(),
        s.channels > 0,
        a.len() % s.channels == 0,
        b.len() % s.channels == 0,
        0 < cap_a,
        s.supply(a) <= cap_a,
        0 < cap_b,
        s.processed(a, cap_a).0.supply(b) <= cap_b,
        s.supply(a) + s.processed(a, cap_a).0.supply(b) <= cap,
        0 < cap,
    ensures
        s.processed(a + b, cap) == ({
            let (s1, x) = s.processed(a, cap_a);
            let (s2, y) = s1.processed(b, cap_b);
            (s2, x + y)
        }),
        a.len() == 0 ==> s.processed(a, cap_a) == (s, Seq::<Blend>::empty()),
        b.len() == 0 ==> s.processed(b, cap_b) == (s, Seq::<Blend>::empty()),
{
    let ch = s.channels;
    let (s1, x) = s.processed(a, cap_a);
    let (s2, y) = s1.processed(b, cap_b);
    assert(0nat / ch == 0) by (nonlinear_arith)
        requires
            ch > 0,
    ;
    if a.len() == 0 {
        assert(a + b =~= b);
        assert(x + y =~= y);
        assert(s.processed(b, cap) == s.processed(b, cap_b));
    } else if b.len() == 0 {
        assert(a + b =~= a);
        assert(x + y =~= x);
        assert(s.processed(a, cap) == s.processed(a, cap_a));
    } else {
        lemma_chunks_join(s, a, b, cap_a, cap_b, cap);
    }
}

/// Every sample of channel `c` is `v`: in the input and, where there is one, in
/// the anchor.
pub open spec fn is_constant(s: ResamplerModel, input: Seq<u32>, c: int, v: u32) -> bool {
    &&& forall|i: int|
        0 <= i < s.frames(input) ==> #[trigger] input[i * s.channels as int + c] == v
    &&& s.seeded ==> s.anchor[c] == v
}

/// A channel that is constant stays so at any pair of rates and any correction:
/// every output sample lies between two samples that are that constant. The
/// anchor is that constant afterwards too, so that this goes on from one chunk
/// to the next.
pub proof fn law_constant_input_stays_constant(
    s: ResamplerModel,
    input: Seq<u32>,
    cap: nat,
    c: int,
    v: u32,
)
    requires
        s.wf(),
        0 <= c < s.channels,
        input.len() % s.channels == 0,
        is_constant(s, input, c, v),
    ensures
        forall|j: nat|
            j < s.produced(input, cap) ==> (#[trigger] s.blend(input, j, c)).left == v && s.blend(
                input,
                j,
                c,
            ).right == v,
        forall|k: int|
            0 <= k < s.processed(input, cap).1.len() && k % s.channels as int == c ==> (
            #[trigger] s.processed(input, cap).1[k]).left == v && s.processed(
                input,
                cap,
            ).1[k].right == v,
        s.processed(input, cap).0.seeded ==> s.processed(input, cap).0.anchor[c] == v,
{
    let (t, out) = s.processed(input, cap);
    if cap > 0 && s.frames(input) > 0 {
        let ahead = s.ahead(input);
        let one = ONE_FRAME_Q32 as nat;
        let n = s.produced(input, cap);
        assert forall|i: int| 0 <= i <= ahead implies #[trigger] s.sample(input, i, c) == v by {
            let at = if s.seeded {
                i - 1
            } else {
                i
            };
            if at >= 0 {
                assert(input[at * s.channels as int + c] == v);
            }
        }
        assert forall|j: nat| j < n implies (#[trigger] s.blend(input, j, c)).left == v && s.blend(
            input,
            j,
            c,
        ).right == v by {
            lemma_steps_reach(s.pos, s.step, ahead * one);
            let last = (s.supply(input) - 1) as nat;
            assert(j * s.step <= last * s.step) by (nonlinear_arith)
                requires
                    j <= last,
            ;
            let at = s.position(j) as int / one as int;
            assert(0 <= at < ahead);
            assert(s.sample(input, at, c) == v && s.sample(input, at + 1, c) == v);
        }
        assert forall|k: int| 0 <= k < out.len() && k % s.channels as int == c implies (
        #[trigger] out[k]).left == v && out[k].right == v by {
            let w = s.channels as int;
            assert(0 <= k / w < n) by (nonlinear_arith)
                requires
                    0 <= k < n * w,
                    w > 0,
            ;
            assert(out[k] == s.blend(input, (k / w) as nat, c));
        }
        let passed = arith::smaller(s.position(n) / one, ahead);
        assert(t.anchor[c] == s.sample(input, passed as int, c));
    }
}

/// After the first part of a cut input, frame `i` counted from the new anchor
/// is frame `ahead + i` of the whole.
proof fn lemma_same_sample(s: ResamplerModel, a: Seq<u32>, b: Seq<u32>, i: int, c: int)
    requires
        s.wf(),
        s.channels > 0,
        a.len() == s.frames(a) * s.channels,
        b.len() == s.frames(b) * s.channels,
        s.frames(a) > 0,
        0 <= i <= s.frames(b),
        0 <= c < s.channels,
    ensures
        ({
            let s1 = s.processed(a, s.supply(a) + 1).0;
            s1.sample(b, i, c) == s.sample(a + b, s.ahead(a) + i, c)
        }),
{
    let ch = s.channels;
    let ahead = s.ahead(a);
    let fa = s.frames(a);
    lemma_all_passed(s, a);
    assert(s.position(s.supply(a)) / ONE_FRAME_Q32 as nat >= ahead);
    let s1 = s.processed(a, s.supply(a) + 1).0;
    assert(s1.anchor[c] == s.sample(a, ahead as int, c));
    assert((ahead + 1) * ch == ahead * ch + ch) by (nonlinear_arith);
    if i == 0 {
        lemma_prefix_sample(s, a, b, ahead as int, c);
    } else {
        lemma_frame_within((i - 1) as nat, s.frames(b), ch);
        assert((i - 1) * ch >= 0) by (nonlinear_arith)
            requires
                i >= 1,
        ;
        assert((fa + i - 1) * ch == fa * ch + (i - 1) * ch) by (nonlinear_arith);
        assert((a + b)[fa * ch + (i - 1) * ch + c] == b[(i - 1) * ch + c]);
    }
}

/// Output sample `k` of a cut input.
proof fn lemma_joined_output(
    s: ResamplerModel,
    s1: ResamplerModel,
    a: Seq<u32>,
    b: Seq<u32>,
    n1: nat,
    n2: nat,
    k: int,
)
    requires
        s.wf(),
        s.channels > 0,
        a.len() == s.frames(a) * s.channels,
        b.len() == s.frames(b) * s.channels,
        s.frames(a) > 0,
        s.frames(b) > 0,
        n1 == s.supply(a),
        s1 == s.processed(a, n1 + 1).0,
        n2 == s1.supply(b),
        0 <= k < (n1 + n2) * s.channels,
    ensures
        ({
            let ch = s.channels as int;
            let whole = s.blend(a + b, (k / ch) as nat, k % ch);
            if k < n1 * ch {
                whole == s.blend(a, (k / ch) as nat, k % ch)
            } else {
                whole == s1.blend(b, ((k - n1 * ch) / ch) as nat, (k - n1 * ch) % ch)
            }
        }),
{
    let ch = s.channels as int;
    let j = (k / ch) as nat;
    let c = k % ch;
    let one = ONE_FRAME_Q32 as nat;
    let ahead = s.ahead(a);
    lemma_all_passed(s, a);
    lemma_all_passed(s1, b);
    vstd::arithmetic::div_mod::lemma_fundamental_div_mod(k, ch);
    assert(0 <= c < ch);
    assert(k / ch >= 0) by (nonlinear_arith)
        requires
            k >= 0,
            ch > 0,
    ;
    assert(k == j * ch + c) by (nonlinear_arith)
        requires
            k == ch * (k / ch) + c,
            j == k / ch,
    ;
    assert(s.position(n1) / one >= ahead);
    if k < n1 * ch {
        assert(j < n1) by (nonlinear_arith)
            requires
                k == j * ch + c,
                k < n1 * ch,
                c >= 0,
                ch > 0,
        ;
        lemma_position_before(s, j, n1, ahead * one);
        let at = s.position(j) as int / one as int;
        assert(at + 1 <= ahead);
        lemma_prefix_sample(s, a, b, at, c);
        lemma_prefix_sample(s, a, b, at + 1, c);
    } else {
        let d = (j - n1) as nat;
        assert(j >= n1 && j < n1 + n2) by (nonlinear_arith)
            requires
                k == j * ch + c,
                n1 * ch <= k < (n1 + n2) * ch,
                0 <= c < ch,
        ;
        assert(k - n1 * ch == d * ch + c) by (nonlinear_arith)
            requires
                k == j * ch + c,
                d == j - n1,
        ;
        lemma_frame_index(d, c as nat, s.channels);
        assert((n1 + d) * s.step == n1 * s.step + d * s.step) by (nonlinear_arith);
        assert(s1.position(d) == s.position(j) - ahead * one);
        lemma_position_before(s1, d, n2, s1.ahead(b) * one);
        let at = s1.position(d) as int / one as int;
        assert(s.position(j) as int / one as int == at + ahead);
        assert(s.position(j) % one == s1.position(d) % one);
        lemma_same_sample(s, a, b, at, c);
        lemma_same_sample(s, a, b, at + 1, c);
    }
}

/// What follows a run of input does not change the frames in it.
proof fn lemma_prefix_sample(s: ResamplerModel, a: Seq<u32>, b: Seq<u32>, i: int, c: int)
    requires
        s.wf(),
        s.channels > 0,
        a.len() == s.frames(a) * s.channels,
        s.frames(a) > 0,
        0 <= i <= s.ahead(a),
        0 <= c < s.channels,
    ensures
        s.sample(a + b, i, c) == s.sample(a, i, c),
{
    let ch = s.channels;
    if s.seeded {
        if i > 0 {
            lemma_frame_within((i - 1) as nat, s.frames(a), ch);
            assert((i - 1) * ch >= 0) by (nonlinear_arith)
                requires
                    i >= 1,
            ;
        }
    } else {
        lemma_frame_within(i as nat, s.frames(a), ch);
        assert(i * ch >= 0) by (nonlinear_arith)
            requires
                i >= 0,
        ;
    }
}

/// Between equal rates, from a frame boundary on, every output frame is an
/// input frame, and all input frames but the last come out.
pub proof fn law_equal_rates_keep_samples(s: ResamplerModel, input: Seq<u32>, cap: nat, j: nat, c: int)
    requires
        s.wf(),
        s.channels > 0,
        s.step == ONE_FRAME_Q32,
        s.pos == 0,
        s.frames(input) > 0,
        cap > 0,
        j < s.produced(input, cap),
        0 <= c < s.channels,
    ensures
        s.produced(input, cap) == arith::smaller(cap, s.ahead(input)),
        s.blend(input, j, c).left == s.sample(input, j as int, c),
        s.blend(input, j, c).pos_q32 == 0,
        step_for(s.input_rate, s.input_rate) == ONE_FRAME_Q32,
{
    let ahead = s.ahead(input);
    let one = ONE_FRAME_Q32 as nat;
    if ahead > 0 {
        assert(s.pos + (ahead - 1) * s.step < ahead * one);
    }
    lemma_steps_before(s.pos, s.step, ahead * one, ahead);
    assert(s.position(j) == j * one);
    let rate = s.input_rate as nat;
    assert((rate * one) / rate == one) by (nonlinear_arith)
        requires
            rate > 0,
    ;
}

/// Averaging loses no input channel and uses none twice: the shares of the
/// output channels follow one another and cover the whole frame.
pub proof fn law_shares_partition_the_frame(ic: nat, oc: nat, c: nat)
    requires
        0 < oc < ic,
        c < oc,
    ensures
        share_start(ic, oc, 0) == 0,
        share_start(ic, oc, c) < share_start(ic, oc, c + 1),
        share_start(ic, oc, oc) == ic,
{
    lemma_share_range(ic, oc, c);
    vstd::arithmetic::div_mod::lemma_fundamental_div_mod(ic as int, oc as int);
}

/// Between equal channel counts every sample is kept in its place.
pub proof fn law_equal_channels_pass_through<T>(input: Seq<T>, ch: nat, n: nat, k: int)
    requires
        ch > 0,
        input.len() == n * ch,
        0 <= k < n * ch,
    ensures
        mixed_frames(input, ch, ch, n)[k] == MixedView::Keep(input[k]),
{
    let c = ch as int;
    vstd::arithmetic::div_mod::lemma_fundamental_div_mod(k, c);
    assert(0 <= k / c < n) by (nonlinear_arith)
        requires
            0 <= k < n * c,
            c > 0,
    ;
    lemma_frame_within((k / c) as nat, n, ch);
    assert((k / c) * c + k % c == k) by (nonlinear_arith)
        requires
            k == c * (k / c) + k % c,
    ;
}

/// One channel through two and back: both of the two are the one sample, and
/// what comes back is half the sum of that sample and itself.
pub proof fn law_mono_survives_stereo<T>(input: Seq<T>, i: int)
    requires
        0 <= i < input.len(),
    ensures
        ({
            let n = input.len();
            let up = mixed_frames(input, 1, 2, n);
            let stereo = Seq::new(2 * n, |k: int| up[k]->Keep_0);
            &&& up[2 * i] == MixedView::Keep(input[i])
            &&& up[2 * i + 1] == MixedView::Keep(input[i])
            &&& mixed_frames(stereo, 2, 1, n)[i] == MixedView::HalfSum(input[i], input[i])
        }),
{
    let n = input.len();
    let up = mixed_frames(input, 1, 2, n);
    let stereo = Seq::new(2 * n, |k: int| up[k]->Keep_0);
    assert(input.subrange(i * 1, i * 1 + 1) =~= seq![input[i]]);
    assert(stereo.subrange(i * 2, i * 2 + 2) =~= seq![input[i], input[i]]);
}

/// Feeding keeps what is queued and adds behind it; nothing is reordered.
pub proof fn law_feed_appends(s: PipelineModel, input: Seq<u32>)
    ensures
        s.fed(input).pending.len() >= s.pending.len(),
        s.fed(input).pending.take(s.pending.len() as int) == s.pending,
        s.fed(input).mixer == s.mixer,
{
    assert(s.pending.take(s.pending.len() as int) =~= s.pending);
    assert(s.fed(input).pending.take(s.pending.len() as int) =~= s.pending);
}

/// The output that a run allows for is never cut short, whatever the rates, the
/// drift correction and the length of the run.
pub proof fn law_feed_never_truncates(s: PipelineModel, input: Seq<u32>)
    requires
        s.wf(),
    ensures
        s.resampler.frames(input) > 0 ==> s.resampler.produced(input, s.budget(input))
            == s.resampler.supply(input) && s.fed(input).pending.len() == s.pending.len()
            + s.resampler.supply(input) * s.mixer.oc(),
        s.resampler.frames(input) == 0 ==> s.fed(input) == s,
{
    let r = s.resampler;
    let one = ONE_FRAME_Q32 as nat;
    let end = r.ahead(input) * one;
    let n = r.frames(input);
    lemma_steps_reach(r.pos, r.step, end);
    arith::lemma_ceil_div_covers(n * one, r.step);
    let q = r.supply(input);
    let b = s.budget(input);
    if q > b && n > 0 {
        assert((q - 1) * r.step >= b * r.step) by (nonlinear_arith)
            requires
                q - 1 >= b,
        ;
    }
}

/// Frames are mixed one by one.
proof fn lemma_mixed_join<T>(x: Seq<T>, y: Seq<T>, ic: nat, oc: nat, n1: nat, n2: nat)
    requires
        oc > 0,
        x.len() == n1 * ic,
        y.len() == n2 * ic,
    ensures
        mixed_frames(x + y, ic, oc, n1 + n2) == mixed_frames(x, ic, oc, n1) + mixed_frames(
            y,
            ic,
            oc,
            n2,
        ),
{
    let left = mixed_frames(x + y, ic, oc, n1 + n2);
    let right = mixed_frames(x, ic, oc, n1) + mixed_frames(y, ic, oc, n2);
    assert((n1 + n2) * oc == n1 * oc + n2 * oc) by (nonlinear_arith);
    assert forall|k: int| 0 <= k < left.len() implies left[k] == right[k] by {
        let c = oc as int;
        let w = ic as int;
        if k < n1 * oc {
            let i = k / c;
            assert(0 <= i < n1) by (nonlinear_arith)
                requires
                    0 <= k < n1 * c,
                    i == k / c,
                    c > 0,
            ;
            assert(0 <= i * w && i * w + w <= n1 * w) by (nonlinear_arith)
                requires
                    0 <= i < n1,
                    w >= 0,
            ;
            assert((x + y).subrange(i * w, i * w + w) =~= x.subrange(i * w, i * w + w));
        } else {
            let j = k - n1 * oc;
            let i = j / c;
            vstd::arithmetic::div_mod::lemma_fundamental_div_mod(j, c);
            assert((n1 + i) * c == n1 * c + c * i) by (nonlinear_arith);
            vstd::arithmetic::div_mod::lemma_fundamental_div_mod_converse(k, c, n1 + i, j % c);
            assert(0 <= i < n2) by (nonlinear_arith)
                requires
                    0 <= j < n2 * c,
                    i == j / c,
                    c > 0,
            ;
            assert(0 <= i * w && i * w + w <= n2 * w && (n1 + i) * w == n1 * w + i * w)
                by (nonlinear_arith)
                requires
                    0 <= i < n2,
                    w >= 0,
            ;
            assert((x + y).subrange((n1 + i) * w, (n1 + i) * w + w) =~= y.subrange(
                i * w,
                i * w + w,
            ));
        }
    }
    assert(left =~= right);
}

/// Input may be fed in pieces of whole frames: the output that is queued, the
/// counts and the state are those of feeding it in one go.
pub proof fn law_feeds_join(s: PipelineModel, a: Seq<u32>, b: Seq<u32>)
    requires
        s.wf(),
        a.len() % s.resampler.channels == 0,
        b.len() % s.resampler.channels == 0,
    ensures
        s.fed(a).fed(b) == s.fed(a + b),
{
    let r = s.resampler;
    let ch = r.channels;
    lemma_whole(a.len(), ch);
    lemma_whole(b.len(), ch);
    assert(0 * ch == 0) by (nonlinear_arith);
    if a.len() == 0 {
        assert(a + b =~= b);
        lemma_frame_index(0, 0, ch);
        assert(s.fed(a) == s);
    } else if b.len() == 0 {
        assert(a + b =~= a);
        lemma_frame_index(0, 0, ch);
        assert(s.fed(a).fed(b) == s.fed(a));
    } else {
        let t = s.fed(a);
        let both = a + b;
        lemma_budget_covers(s, a);
        let (r1, x) = r.processed(a, s.budget(a));
        assert(t.resampler == r1);
        assert(r1.wf() && r1.channels == ch);
        lemma_budget_covers(t, b);
        let (r2, y) = r1.processed(b, t.budget(b));
        let n1 = r.supply(a);
        let n2 = r1.supply(b);
        let wide = n1 + n2 + r.supply(both) + 1;
        law_chunks_are_seamless(r, a, b, s.budget(a), t.budget(b), wide);
        assert(r.processed(both, wide).0.frames_out == r.frames_out + r.supply(both));
        assert(r2.frames_out == r.frames_out + n1 + n2);
        assert(r.supply(both) == n1 + n2);
        vstd::arithmetic::div_mod::lemma_add_mod_noop(a.len() as int, b.len() as int, ch as int);
        vstd::arithmetic::div_mod::lemma_small_mod(0, ch);
        lemma_budget_covers(s, both);
        law_chunks_are_seamless(r, a, b, s.budget(a), t.budget(b), s.budget(both));
        lemma_mixed_join(x, y, ch, s.mixer.oc(), n1, n2);
        let oc = s.mixer.oc();
        assert((n1 + n2) * oc == n1 * oc + n2 * oc) by (nonlinear_arith);
        assert(s.fed(a).fed(b) =~= s.fed(both));
    }
}

/// The budget for a run that holds a frame is not zero and covers the supply.
proof fn lemma_budget_covers(s: PipelineModel, input: Seq<u32>)
    requires
        s.wf(),
        input.len() > 0,
        input.len() % s.resampler.channels == 0,
    ensures
        s.resampler.frames(input) > 0,
        0 < s.budget(input),
        s.resampler.supply(input) <= s.budget(input),
{
    let r = s.resampler;
    let n = r.frames(input);
    lemma_whole(input.len(), r.channels);
    if n == 0 {
        assert(n * r.channels == 0) by (nonlinear_arith)
            requires
                n == 0,
        ;
    }
    law_feed_never_truncates(s, input);
    arith::lemma_ceil_div_covers(n * ONE_FRAME_Q32 as nat, r.step);
    let b = s.budget(input);
    if b == 0 {
        assert(b * r.step == 0) by (nonlinear_arith)
            requires
                b == 0,
        ;
    }
}

/// An output sample lies between the two input samples that its position falls
/// between, at the fraction of the position. Output frame `j` of a call stands
/// `j` steps behind where the last call stopped; positions count in parts of a
/// frame, 2^32 to the frame, from the last frame that was passed, or from the
/// first input frame where there was none.
pub proof fn law_output_lies_between_its_neighbours(
    s: ResamplerModel,
    input: Seq<u32>,
    cap: nat,
    j: nat,
    c: nat,
)
    requires
        s.wf(),
        c < s.channels,
        input.len() % s.channels == 0,
        (j + 1) * s.channels <= s.processed(input, cap).1.len(),
    ensures
        ({
            let b = s.processed(input, cap).1[(j * s.channels + c) as int];
            let at = s.pos + j * s.step;
            let i = at as int / 0x1_0000_0000;
            let ch = s.channels as int;
            &&& b.pos_q32 == at as int % 0x1_0000_0000
            &&& i + 1 <= input.len() as int / ch - if s.seeded {
                0int
            } else {
                1int
            }
            &&& b.left == if !s.seeded {
                input[i * ch + c]
            } else if i == 0 {
                s.anchor[c as int]
            } else {
                input[(i - 1) * ch + c]
            }
            &&& b.right == if s.seeded {
                input[i * ch + c]
            } else {
                input[(i + 1) * ch + c]
            }
        }),
{
    let ch = s.channels;
    let k = (j * ch + c) as int;
    let n = s.produced(input, cap);
    assert(j * ch + c < (j + 1) * ch) by (nonlinear_arith)
        requires
            c < ch,
    ;
    vstd::arithmetic::div_mod::lemma_fundamental_div_mod_converse(k, ch as int, j as int, c as int);
    assert(s.frames(input) > 0 && cap > 0);
    assert(j < n) by (nonlinear_arith)
        requires
            (j + 1) * ch <= n * ch,
            ch > 0,
    ;
    let one = ONE_FRAME_Q32 as nat;
    lemma_steps_reach(s.pos, s.step, s.ahead(input) * one);
    lemma_position_before(s, j, s.supply(input), s.ahead(input) * one);
    let i = s.position(j) as int / one as int;
    assert(0 <= i < s.ahead(input));
    assert(s.processed(input, cap).1[k] == s.blend(input, j, c as int));
}

/// A straight line stays a straight line, at any pair of rates: where the
/// samples of a channel, read as numbers in whatever way, rise by `d` from frame
/// to frame, output frame `j` has, by linear interpolation, the value of the line
/// at its position `j` steps on. All values are scaled by 2^32.
pub proof fn law_lines_stay_lines(
    s: ResamplerModel,
    input: Seq<u32>,
    cap: nat,
    j: nat,
    c: nat,
    value: spec_fn(u32) -> int,
    a: int,
    d: int,
)
    requires
        s.wf(),
        c < s.channels,
        input.len() % s.channels == 0,
        (j + 1) * s.channels <= s.processed(input, cap).1.len(),
        s.seeded ==> value(s.anchor[c as int]) == a,
        forall|i: int|
            0 <= i < input.len() as int / s.channels as int ==> value(
                #[trigger] input[i * s.channels as int + c],
            ) == a + (i + if s.seeded {
                1int
            } else {
                0int
            }) * d,
    ensures
        ({
            let b = s.processed(input, cap).1[(j * s.channels + c) as int];
            let t = b.pos_q32 as int;
            &&& 0 <= t < 0x1_0000_0000
            &&& value(b.left) * (0x1_0000_0000 - t) + value(b.right) * t == a * 0x1_0000_0000 + (
            s.pos + j * s.step) * d
        }),
{
    law_output_lies_between_its_neighbours(s, input, cap, j, c);
    let b = s.processed(input, cap).1[(j * s.channels + c) as int];
    let at = s.pos + j * s.step;
    let ch = s.channels as int;
    let one = 0x1_0000_0000int;
    let i = at as int / one;
    let t = at as int % one;
    vstd::arithmetic::div_mod::lemma_fundamental_div_mod(at as int, one);
    assert(j * s.step >= 0) by (nonlinear_arith);
    let l = value(b.left);
    let r = value(b.right);
    if s.seeded {
        assert(r == a + (i + 1) * d) by {
            assert(value(input[i * ch + c]) == a + (i + 1) * d);
        }
        if i > 0 {
            assert(value(input[(i - 1) * ch + c]) == a + (i - 1 + 1) * d);
        } else {
            assert(i * d == 0) by (nonlinear_arith)
                requires
                    i == 0,
            ;
        }
    } else {
        assert(value(input[i * ch + c]) == a + (i + 0) * d);
        assert(value(input[(i + 1) * ch + c]) == a + (i + 1 + 0) * d);
    }
    assert(l == a + i * d && r == a + (i + 1) * d);
    assert(l * (one - t) + r * t == a * one + at * d) by (nonlinear_arith)
        requires
            l == a + i * d,
            r == a + (i + 1) * d,
            at == one * i + t,
            one == 0x1_0000_0000,
    ;
}

/// A call gives as many output frames as have an input frame on both sides, no
/// more than the limit: the last one stands before the last input frame, and one
/// more would not, or the limit is reached.
pub proof fn law_output_is_complete(s: ResamplerModel, input: Seq<u32>, cap: nat)
    requires
        s.wf(),
        s.channels > 0,
        input.len() % s.channels == 0,
        input.len() > 0,
        cap > 0,
    ensures
        ({
            let out = s.processed(input, cap).1;
            let n = out.len() / s.channels;
            let last = (input.len() / s.channels - if s.seeded {
                0int
            } else {
                1int
            }) * 0x1_0000_0000;
            &&& out.len() == n * s.channels
            &&& n <= cap
            &&& n > 0 ==> s.pos + (n - 1) * s.step < last
            &&& n < cap ==> s.pos + n * s.step >= last
            &&& s.processed(input, cap).0.frames_out == s.frames_out + n
        }),
{
    let ch = s.channels;
    lemma_whole(input.len(), ch);
    let f = s.frames(input);
    assert(f > 0) by (nonlinear_arith)
        requires
            f * ch == input.len(),
            input.len() > 0,
    ;
    let n = s.produced(input, cap);
    let one = ONE_FRAME_Q32 as nat;
    vstd::arithmetic::div_mod::lemma_fundamental_div_mod_converse(
        (n * ch) as int,
        ch as int,
        n as int,
        0,
    );
    lemma_steps_reach(s.pos, s.step, s.ahead(input) * one);
    if n > 0 {
        lemma_position_before(s, (n - 1) as nat, s.supply(input), s.ahead(input) * one);
    }
}

/// The step is the ratio of the rates, in parts of a frame, rounded down; a
/// conversion begins at the first input frame, with no correction.
pub proof fn law_step_is_the_ratio(input_rate: u32, output_rate: u32, channels: nat)
    requires
        input_rate > 0,
        output_rate > 0,
    ensures
        ({
            let r = ResamplerModel::fresh(input_rate, output_rate, channels);
            &&& r.step * output_rate <= input_rate * 0x1_0000_0000 < (r.step + 1) * output_rate
            &&& r.nominal_step == r.step
            &&& r.pos == 0 && !r.seeded && !r.drift_active
            &&& r.frames_in == 0 && r.frames_out == 0
            &&& r.input_rate == input_rate && r.output_rate == output_rate && r.channels == channels
        }),
{
    let x = input_rate as int * 0x1_0000_0000;
    let y = output_rate as int;
    vstd::arithmetic::div_mod::lemma_fundamental_div_mod(x, y);
    let q = x / y;
    assert(q * y <= x < (q + 1) * y) by (nonlinear_arith)
        requires
            x == y * q + x % y,
            0 <= x % y < y,
    ;
}

/// Feeding is rate conversion and then channel conversion: what is queued behind
/// the rest are the frames that the rate conversion gives, without a limit, each
/// turned into an output frame; and all of it is counted.
pub proof fn law_feed_resamples_then_mixes(s: PipelineModel, input: Seq<u32>, cap: nat)
    requires
        s.wf(),
        input.len() > 0,
        input.len() % s.resampler.channels == 0,
        cap > s.resampler.supply(input),
    ensures
        ({
            let t = s.fed(input);
            let (r, frames) = s.resampler.processed(input, cap);
            let n = frames.len() / s.resampler.channels;
            &&& t.resampler == r
            &&& t.mixer == s.mixer
            &&& t.pending == s.pending + mixed_frames(frames, s.mixer.ic(), s.mixer.oc(), n)
            &&& t.samples_in == s.samples_in + input.len()
            &&& t.samples_out == s.samples_out + n * s.mixer.oc()
            &&& t.mixer_frames_in == s.mixer_frames_in + n
            &&& t.samples_out - s.samples_out == t.pending.len() - s.pending.len()
        }),
{
    let ch = s.resampler.channels;
    lemma_budget_covers(s, input);
    law_output_is_complete(s.resampler, input, cap);
    assert(s.resampler.processed(input, cap) == s.resampler.processed(input, s.budget(input)));
    let n = s.resampler.supply(input);
    vstd::arithmetic::div_mod::lemma_fundamental_div_mod_converse(
        (n * ch) as int,
        ch as int,
        n as int,
        0,
    );
}

/// The conversion has no more behind it than one step, and takes no larger steps
/// than the rates ask for. It is so from the beginning, unless the drift is
/// corrected.
pub open spec fn is_steady(r: ResamplerModel) -> bool {
    &&& r.pos < r.step
    &&& r.step * r.output_rate <= r.input_rate * 0x1_0000_0000
}

/// A steady conversion stays steady, and gives at least the frames that the rates
/// promise for its input: `need`, where the input lasts as long as `need` output
/// frames do.
pub proof fn law_steady_conversion_delivers(s: PipelineModel, input: Seq<u32>, need: nat)
    requires
        s.wf(),
        is_steady(s.resampler),
        input.len() > 0,
        input.len() % s.resampler.channels == 0,
        need * s.resampler.input_rate <= input.len() / s.resampler.channels
            * s.resampler.output_rate,
    ensures
        is_steady(s.fed(input).resampler),
        s.fed(input).resampler.seeded,
        s.resampler.seeded ==> s.fed(input).pending.len() >= s.pending.len() + need
            * s.mixer.oc(),
        is_steady(
            ResamplerModel::fresh(
                s.resampler.input_rate,
                s.resampler.output_rate,
                s.resampler.channels,
            ),
        ),
{
    let r = s.resampler;
    let one = 0x1_0000_0000int;
    let f = r.frames(input);
    let q = r.supply(input);
    lemma_budget_covers(s, input);
    lemma_steps_reach(r.pos, r.step, r.ahead(input) * ONE_FRAME_Q32 as nat);
    law_feed_never_truncates(s, input);
    law_step_is_the_ratio(r.input_rate, r.output_rate, r.channels);
    let t = s.fed(input).resampler;
    let end = r.position(q) as int;
    let ahead = r.ahead(input) as int;
    assert(end / one >= ahead) by {
        vstd::arithmetic::div_mod::lemma_fundamental_div_mod(end, one);
    }
    assert(t.pos == end - ahead * one);
    if q > 0 {
        assert(q * r.step == (q - 1) * r.step + r.step) by (nonlinear_arith);
    } else {
        assert(q * r.step == 0) by (nonlinear_arith)
            requires
                q == 0,
        ;
    }
    assert(is_steady(t));
    let fresh = ResamplerModel::fresh(r.input_rate, r.output_rate, r.channels);
    assert(fresh.step > 0) by {
        let x = fresh.step;
        let y = r.output_rate as int;
        assert(x > 0) by (nonlinear_arith)
            requires
                r.input_rate * 0x1_0000_0000 < (x + 1) * y,
                r.input_rate >= 1,
                y < 0x1_0000_0000,
        ;
    }
    if r.seeded && q < need {
        let a = r.input_rate as int;
        let b = r.output_rate as int;
        let st = r.step as int;
        let qi = q as int;
        let ni = need as int;
        let fi = f as int;
        assert(r.pos + qi * st < ni * st) by (nonlinear_arith)
            requires
                r.pos < st,
                qi + 1 <= ni,
        ;
        assert(ni * st * b <= ni * (a * one)) by (nonlinear_arith)
            requires
                st * b <= a * one,
                ni >= 0,
        ;
        assert(ni * (a * one) == (ni * a) * one && (ni * a) * one <= (fi * b) * one && (fi * b)
            * one == (fi * one) * b) by (nonlinear_arith)
            requires
                ni * a <= fi * b,
                one == 0x1_0000_0000,
        ;
        assert(ni * st <= fi * one) by (nonlinear_arith)
            requires
                ni * st * b <= (fi * one) * b,
                b > 0,
        ;
        assert(false);
    }
    let oc = s.mixer.oc();
    if r.seeded {
        assert(q * oc >= need * oc) by (nonlinear_arith)
            requires
                q >= need,
        ;
    }
}

/// Sample `c` of frame `i` after channel conversion.
proof fn lemma_mixed_at<T>(input: Seq<T>, ic: nat, oc: nat, n: nat, i: nat, c: nat)
    requires
        ic > 0,
        i < n,
        c < oc,
        input.len() == n * ic,
    ensures
        mixed_frames(input, ic, oc, n).len() == n * oc,
        i * oc + c < n * oc,
        i * ic + ic <= input.len(),
        input.subrange((i * ic) as int, (i * ic + ic) as int).len() == ic,
        mixed_frames(input, ic, oc, n)[(i * oc + c) as int] == mixed_sample(
            input.subrange((i * ic) as int, (i * ic + ic) as int),
            oc,
            c,
        ),
{
    lemma_frame_index(i, c, oc);
    lemma_frame_within(i, n, oc);
    lemma_frame_within(i, n, ic);
}

/// More channels keep the frame: the first output channels are the input channels,
/// the others are silent. Only a single channel is copied to both of two.
pub proof fn law_more_channels_keep_the_frame<T>(
    input: Seq<T>,
    ic: nat,
    oc: nat,
    n: nat,
    i: nat,
    c: nat,
)
    requires
        0 < ic < oc,
        i < n,
        c < oc,
        input.len() == n * ic,
    ensures
        mixed_frames(input, ic, oc, n)[(i * oc + c) as int] == if ic == 1 && oc == 2 {
            MixedView::Keep(input[i as int])
        } else if c < ic {
            MixedView::Keep(input[(i * ic + c) as int])
        } else {
            MixedView::Silence
        },
{
    lemma_mixed_at(input, ic, oc, n, i, c);
}

/// Two channels become one as half their sum, the left before the right.
pub proof fn law_stereo_becomes_its_half_sum<T>(input: Seq<T>, n: nat, i: nat)
    requires
        i < n,
        input.len() == n * 2,
    ensures
        mixed_frames(input, 2, 1, n).len() == n,
        mixed_frames(input, 2, 1, n)[i as int] == MixedView::HalfSum(
            input[2 * i as int],
            input[2 * i as int + 1],
        ),
{
    lemma_mixed_at(input, 2, 1, n, i, 0);
}

/// Fewer channels each average a run of the input channels: `q` each, in their
/// order, and the first one also what is left over, `r` more. So every input channel
/// goes into exactly one output channel.
pub proof fn law_fewer_channels_share_the_frame<T>(
    input: Seq<T>,
    ic: nat,
    oc: nat,
    n: nat,
    i: nat,
    c: nat,
    q: nat,
    r: nat,
)
    requires
        0 < oc < ic,
        !(ic == 2 && oc == 1),
        i < n,
        c < oc,
        input.len() == n * ic,
        ic == q * oc + r,
        r < oc,
    ensures
        ({
            let first = i * ic + if c == 0 {
                0
            } else {
                r + c * q
            };
            let count = if c == 0 {
                q + r
            } else {
                q
            };
            &&& mixed_frames(input, ic, oc, n)[(i * oc + c) as int] matches MixedView::Mean(v)
                && v.len() == count && forall|x: int|
                0 <= x < count ==> #[trigger] v[x] == input[first + x]
        }),
{
    lemma_mixed_at(input, ic, oc, n, i, c);
    vstd::arithmetic::div_mod::lemma_fundamental_div_mod_converse(
        ic as int,
        oc as int,
        q as int,
        r as int,
    );
    lemma_share_range(ic, oc, c);
    assert(ic / oc == q && ic % oc == r);
    assert((c + 1) * q == c * q + q) by (nonlinear_arith);
    let frame = input.subrange((i * ic) as int, (i * ic + ic) as int);
    let a = share_start(ic, oc, c) as int;
    let b = share_start(ic, oc, c + 1) as int;
    assert(b == r + (c + 1) * q);
    assert(c == 0 ==> a == 0 && c * q == 0) by (nonlinear_arith)
        requires
            c == 0 ==> a == 0,
    ;
    assert(c > 0 ==> a == r + c * q);
    let v = frame.subrange(a, b);
    assert(mixed_sample(frame, oc, c) == MixedView::Mean(v));
    assert forall|x: int| 0 <= x < b - a implies #[trigger] v[x] == input[i * ic + a + x] by {
        assert(v[x] == frame[a + x]);
    }
}

/// A conversion is told by its two formats. Nothing has to be converted exactly
/// where these are equal, as long as no drift was corrected.
pub proof fn law_new_pipeline_is_idle(
    input_rate: u32,
    output_rate: u32,
    input_channels: u8,
    output_channels: u8,
)
    ensures
        ({
            let p = PipelineModel::fresh(input_rate, output_rate, input_channels, output_channels);
            &&& p.pending.len() == 0 && p.samples_in == 0 && p.samples_out == 0
                && p.mixer_frames_in == 0
            &&& p.mixer.ic() == input_channels && p.mixer.oc() == output_channels
            &&& p.resampler.input_rate == input_rate && p.resampler.output_rate == output_rate
                && p.resampler.channels == input_channels
            &&& p.resampler.pos == 0 && !p.resampler.seeded && !p.resampler.drift_active
            &&& p.resampler.frames_in == 0 && p.resampler.frames_out == 0
            &&& p.passes_through() <==> input_rate == output_rate && input_channels
                == output_channels
        }),
{
    ChannelMixer::lemma_between(input_channels, output_channels);
}

} // verus!
