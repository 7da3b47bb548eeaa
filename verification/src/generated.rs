//! A test tone.
//!
//! The tone is computed from the number of the frame alone, so that it goes
//! on without a click from one chunk to the next.

use vstd::prelude::*;

verus! {

/// A sine tone. The value of frame `n` is `sin(2 * pi * frequency * n / rate)`
/// on every channel.
#[derive(Debug, Clone, Copy, PartialEq, Eq, Structural)]
pub struct SineSource {
    pub sample_rate: u32,
    pub channels: u8,
    /// The bit pattern of the frequency, a 32-bit float.
    pub frequency: u32,
    /// Frames generated so far.
    pub sample_pos: u64,
}

/// The frame number for each of the interleaved samples of `frames` frames
/// from frame `start` on.
pub open spec fn frame_numbers(start: nat, frames: nat, channels: nat) -> Seq<u64> {
    Seq::new(frames * channels, |k: int| (start + k / channels as int) as u64)
}

/// Where sample `k` of a frame lies.
proof fn lemma_frame_of(i: nat, ch: nat, channels: nat)
    requires
        ch < channels,
    ensures
        (i * channels + ch) / channels == i,
{
    vstd::arithmetic::div_mod::lemma_fundamental_div_mod_converse(
        (i * channels + ch) as int,
        channels as int,
        i as int,
        ch as int,
    );
}

impl SineSource {
    /// The frame number behind each of the samples of the whole frames in
    /// `out_len` samples, and the tone moved on by those frames.
    pub open spec fn filled(self, out_len: nat) -> (SineSource, Seq<u64>) {
        let frames = out_len / self.channels as nat;
        (
            SineSource { sample_pos: (self.sample_pos + frames) as u64, ..self },
            frame_numbers(self.sample_pos as nat, frames, self.channels as nat),
        )
    }

    /// A tone of the given frequency, from its beginning.
    pub fn new(sample_rate: u32, channels: u8, frequency: u32) -> (r: SineSource)
        requires
            sample_rate > 0,
            channels > 0,
        ensures
            r == (SineSource { sample_rate, channels, frequency, sample_pos: 0 }),
    {
        SineSource { sample_rate, channels, frequency, sample_pos: 0 }
    }

    /// The frame number to compute each of the next samples from: as many as
    /// there are whole frames in `out_len` samples. The tone moves on by those
    /// frames.
    pub fn fill_chunk(&mut self, out_len: usize) -> (r: Vec<u64>)
        requires
            old(self).channels > 0,
            old(self).sample_pos + out_len <= u64::MAX,
        ensures
            (*final(self), r@) == old(self).filled(out_len as nat),
    {
        let ch: usize = self.channels as usize;
        let frames: usize = out_len / ch;
        let start: u64 = self.sample_pos;
        let mut out: Vec<u64> = Vec::new();
        let mut i: usize = 0;
        proof {
            assert(frames <= out_len) by (nonlinear_arith)
                requires
                    frames == out_len as nat / ch as nat,
                    ch > 0,
            ;
        }
        assert(0 * ch == 0) by (nonlinear_arith);
        while i < frames
            invariant
                i <= frames <= out_len,
                ch > 0,
                start + out_len <= u64::MAX,
                out@.len() == i * ch,
                forall|k: int|
                    0 <= k < out@.len() ==> #[trigger] out@[k] == (start + k / ch as int) as u64,
            decreases frames - i,
        {
            let n: u64 = start + i as u64;
            let mut c: usize = 0;
            while c < ch
                invariant
                    c <= ch,
                    ch > 0,
                    n == start + i,
                    out@.len() == i * ch + c,
                    forall|k: int|
                        0 <= k < out@.len() ==> #[trigger] out@[k] == (start + k / ch as int) as u64,
                decreases ch - c,
            {
                proof {
                    lemma_frame_of(i as nat, c as nat, ch as nat);
                }
                out.push(n);
                c += 1;
            }
            assert((i + 1) * ch == i * ch + ch) by (nonlinear_arith);
            i += 1;
        }
        self.sample_pos = start + frames as u64;
        assert(out@ =~= frame_numbers(start as nat, frames as nat, ch as nat));
        out
    }
}

/// Two runs of frames in a row are one long run.
proof fn lemma_runs_join(start: nat, a: nat, b: nat, channels: nat)
    requires
        channels > 0,
    ensures
        frame_numbers(start, a, channels) + frame_numbers(start + a, b, channels) == frame_numbers(
            start,
            a + b,
            channels,
        ),
{
    let left = frame_numbers(start, a, channels) + frame_numbers(start + a, b, channels);
    let right = frame_numbers(start, a + b, channels);
    assert((a + b) * channels == a * channels + b * channels) by (nonlinear_arith);
    assert forall|k: int| 0 <= k < right.len() implies left[k] == right[k] by {
        if k >= a * channels {
            let j = k - a * channels;
            let c = channels as int;
            vstd::arithmetic::div_mod::lemma_fundamental_div_mod(j, c);
            let q = j / c;
            assert((a + q) * c == a * c + c * q) by (nonlinear_arith);
            vstd::arithmetic::div_mod::lemma_fundamental_div_mod_converse(k, c, a + q, j % c);
        }
    }
    assert(left =~= right);
}

/// The tone goes on where it stopped: a chunk of whole frames and the chunk
/// after it are one long chunk.
pub proof fn law_tone_is_continuous(s: SineSource, a: nat, b: nat)
    requires
        s.channels > 0,
        a % (s.channels as nat) == 0,
        s.sample_pos + a + b <= u64::MAX,
    ensures
        ({
            let (s1, x) = s.filled(a);
            let (s2, y) = s1.filled(b);
            s.filled(a + b) == (s2, x + y)
        }),
{
    let ch = s.channels as nat;
    let (s1, x) = s.filled(a);
    let (s2, y) = s1.filled(b);
    let fa = a / ch;
    let fb = b / ch;
    vstd::arithmetic::div_mod::lemma_fundamental_div_mod(a as int, ch as int);
    vstd::arithmetic::div_mod::lemma_fundamental_div_mod(b as int, ch as int);
    assert((fa + fb) * ch == fa * ch + fb * ch && fa * ch == ch * fa && fb * ch == ch * fb)
        by (nonlinear_arith);
    vstd::arithmetic::div_mod::lemma_fundamental_div_mod_converse(
        (a + b) as int,
        ch as int,
        (fa + fb) as int,
        (b % ch) as int,
    );
    assert(fa <= ch * fa && fb <= ch * fb) by (nonlinear_arith)
        requires
            ch > 0,
    ;
    lemma_runs_join(s.sample_pos as nat, fa, fb, ch);
    assert(s1.sample_pos == s.sample_pos + fa);
}

/// Every channel of frame `i` of a chunk is computed from the same number, that
/// of the frame since the beginning of the tone, where the number is 0. A chunk
/// without a whole frame changes nothing.
pub proof fn law_samples_follow_the_frame(s: SineSource, out_len: nat, i: nat, c: nat)
    requires
        s.channels > 0,
        s.sample_pos + out_len <= u64::MAX,
    ensures
        i < out_len / (s.channels as nat) && c < s.channels ==> s.filled(
            out_len,
        ).1[(i * s.channels as nat + c) as int] == s.sample_pos + i,
        s.filled(out_len).1.len() == out_len / (s.channels as nat) * s.channels as nat,
        out_len < s.channels ==> s.filled(out_len) == (s, Seq::<u64>::empty()),
{
    let ch = s.channels as nat;
    let frames = out_len / ch;
    assert(frames <= out_len) by (nonlinear_arith)
        requires
            frames == out_len / ch,
            ch > 0,
    ;
    if i < frames && c < ch {
        lemma_frame_of(i, c, ch);
        assert(i * ch + ch <= frames * ch) by (nonlinear_arith)
            requires
                i < frames,
        ;
    }
    if out_len < ch {
        vstd::arithmetic::div_mod::lemma_small_mod(out_len, ch);
        vstd::arithmetic::div_mod::lemma_fundamental_div_mod_converse(
            out_len as int,
            ch as int,
            0,
            out_len as int,
        );
        assert(frames * ch == 0) by (nonlinear_arith)
            requires
                frames == 0,
        ;
        assert(s.filled(out_len).1 =~= Seq::empty());
    }
}

/// A chunk moves the tone on by its whole frames and changes nothing else of it.
pub proof fn law_chunk_moves_the_tone_on(s: SineSource, out_len: nat, frames: nat)
    requires
        s.channels > 0,
        frames * s.channels as nat <= out_len,
        out_len < (frames + 1) * s.channels as nat,
        s.sample_pos + out_len <= u64::MAX,
    ensures
        s.filled(out_len).0 == (SineSource { sample_pos: (s.sample_pos + frames) as u64, ..s }),
        s.filled(out_len).1.len() == frames * s.channels as nat,
{
    let c = s.channels as int;
    let r = out_len - frames * c;
    assert(r < c) by (nonlinear_arith)
        requires
            r == out_len - frames * c,
            out_len < (frames + 1) * c,
    ;
    assert(out_len == c * frames + r) by (nonlinear_arith)
        requires
            r == out_len - frames * c,
    ;
    vstd::arithmetic::div_mod::lemma_fundamental_div_mod_converse(
        out_len as int,
        c,
        frames as int,
        r,
    );
}

} // verus!
