//! Receive-side reorder buffer.
//!
//! The buffer is a ring of packet-sized slots; the packet with sequence
//! number `seq` belongs in slot `seq % capacity`. Until playback starts the
//! buffer is in *prebuffer* mode: it hands out silence and has no play head.
//! Once the optional prebuffer is filled, the play head is anchored at the earliest
//! sequence number seen and packets come out in sequence order, silence
//! standing in for those that are missing.
//!
//! A request may be of any length: the buffer remembers how much of the head
//! packet has been handed out. When the head packet is missing and the ring is
//! empty, the buffer goes back to prebuffer mode and remembers where it
//! stopped, so that nothing is played twice.
//!
//! Sequence numbers wrap around: all comparisons are modular.
//!
//! Samples are the bit patterns of 32-bit floats; silence is the pattern 0.

use vstd::prelude::*;

verus! {

/// What became of a pushed packet.
#[derive(Debug, Clone, Copy, PartialEq, Eq, Structural)]
pub enum PushOutcome {
    /// The packet is in the ring.
    Stored,
    /// The packet was in the ring already.
    Duplicate,
    /// The packet was played already, or is being played: refused.
    Late,
    /// The packet belongs in the slot that is being read: refused.
    MidReadCollision,
    /// The packet is so far behind the play head that the sender must have
    /// restarted: the buffer was emptied and the packet stored.
    StreamReset,
}

/// Running counts.
#[derive(Debug, Clone, Copy, PartialEq, Eq, Structural)]
pub struct Stats {
    /// Packets refused as late.
    pub late_drops: u64,
    /// Packets refused as duplicates.
    pub duplicates: u64,
    /// Missing packets that silence stood in for.
    pub silence_insertions: u64,
    /// Packets refused because their slot was being read.
    pub mid_read_collisions: u64,
    /// Requests answered with silence because the prebuffer was not filled.
    pub prebuffer_holds: u64,
    /// Packets written over a packet that was still to be played.
    pub ring_overruns: u64,
    /// Sender restarts noticed.
    pub sender_restarts: u64,
    /// Packets skipped to bring the fill below the high-water mark.
    pub latency_trims: u64,
    /// Times the ring ran empty during playback.
    pub underrun_resyncs: u64,
}

impl Default for Stats {
    fn default() -> (r: Stats)
        ensures
            r == Stats::zero(),
    {
        Stats {
            late_drops: 0,
            duplicates: 0,
            silence_insertions: 0,
            mid_read_collisions: 0,
            prebuffer_holds: 0,
            ring_overruns: 0,
            sender_restarts: 0,
            latency_trims: 0,
            underrun_resyncs: 0,
        }
    }
}

impl Stats {
    /// Nothing counted yet.
    pub open spec fn zero() -> Stats {
        Stats {
            late_drops: 0,
            duplicates: 0,
            silence_insertions: 0,
            mid_read_collisions: 0,
            prebuffer_holds: 0,
            ring_overruns: 0,
            sender_restarts: 0,
            latency_trims: 0,
            underrun_resyncs: 0,
        }
    }

    /// Every counter can grow by `n`.
    pub open spec fn has_room(self, n: nat) -> bool {
        &&& self.late_drops + n <= u64::MAX
        &&& self.duplicates + n <= u64::MAX
        &&& self.silence_insertions + n <= u64::MAX
        &&& self.mid_read_collisions + n <= u64::MAX
        &&& self.prebuffer_holds + n <= u64::MAX
        &&& self.ring_overruns + n <= u64::MAX
        &&& self.sender_restarts + n <= u64::MAX
        &&& self.latency_trims + n <= u64::MAX
        &&& self.underrun_resyncs + n <= u64::MAX
    }
}

/// Steps forward from `a` to `b` on the ring of sequence numbers.
pub open spec fn distance(a: u32, b: u32) -> nat {
    if b >= a {
        (b - a) as nat
    } else {
        (b - a + 0x1_0000_0000) as nat
    }
}

/// The sequence number after `a`.
pub open spec fn next_seq(a: u32) -> u32 {
    if a == u32::MAX {
        0
    } else {
        (a + 1) as u32
    }
}

/// `a` is `b`, or reaches `b` in less than half a turn.
pub open spec fn earlier_or_equal(a: u32, b: u32) -> bool {
    distance(a, b) < 0x7fff_ffff
}

/// True if `a` is at or before `b` on the ring of sequence numbers.
pub fn modular_is_earlier_or_equal(a: u32, b: u32) -> (r: bool)
    ensures
        r == earlier_or_equal(a, b),
{
    let fwd: u32 = b.wrapping_sub(a);
    fwd < u32::MAX / 2
}

/// A packet in the ring.
pub struct Stored {
    pub seq: u32,
    pub samples: Seq<u32>,
}

/// `n` samples of silence.
pub open spec fn silence(n: nat) -> Seq<u32> {
    Seq::new(n, |i: int| 0u32)
}

/// Occupied slots.
pub open spec fn filled(slots: Seq<Option<Stored>>) -> nat
    decreases slots.len(),
{
    if slots.len() == 0 {
        0
    } else {
        filled(slots.drop_last()) + if slots.last() is Some {
            1nat
        } else {
            0nat
        }
    }
}

/// The state of a buffer.
#[verifier::ext_equal]
pub struct JitterModel {
    pub samples_per_packet: nat,
    pub capacity: nat,
    /// What each slot of the ring holds.
    pub slots: Seq<Option<Stored>>,
    /// The next sequence number to play; `None` in prebuffer mode.
    pub head: Option<u32>,
    /// Samples of the head packet that were handed out.
    pub head_offset: nat,
    /// The earliest sequence number pushed since prebuffer mode began.
    pub min_pushed: Option<u32>,
    /// Samples that must be queued before playback starts.
    pub prebuffer_target: Option<usize>,
    /// Fill above which packets are skipped.
    pub high_water: Option<usize>,
    /// Where playback stopped when the ring last ran empty.
    pub resync_floor: Option<u32>,
    pub stats: Stats,
}

impl JitterModel {
    /// The slot of a sequence number.
    pub open spec fn index(self, seq: u32) -> int {
        seq as int % self.capacity as int
    }

    /// The ring holds the packet `seq`.
    pub open spec fn holds(self, seq: u32) -> bool {
        self.slots[self.index(seq)] matches Some(p) && p.seq == seq
    }

    /// Samples waiting to be played.
    pub open spec fn queued(self) -> nat {
        let all = filled(self.slots) * self.samples_per_packet;
        match self.head {
            Some(h) if self.holds(h) => (all - self.head_offset) as nat,
            _ => all,
        }
    }

    /// What every operation keeps.
    pub open spec fn wf(self) -> bool {
        &&& self.samples_per_packet > 0
        &&& self.slots.len() == self.capacity > 0
        &&& forall|i: int|
            0 <= i < self.slots.len() ==> (#[trigger] self.slots[i] matches Some(p)
                ==> p.samples.len() == self.samples_per_packet && self.index(p.seq) == i)
        &&& self.head_offset < self.samples_per_packet
        &&& self.head is None ==> self.head_offset == 0
        &&& self.head is None && filled(self.slots) > 0 ==> self.min_pushed is Some
        &&& self.head is None ==> (self.resync_floor matches Some(f) ==> (self.min_pushed matches Some(
            m,
        ) ==> !(earlier_or_equal(m, f) && m != f)))
        &&& self.prebuffer_target matches Some(t) ==> t > 0
        &&& self.high_water matches Some(h) ==> h > 0
    }

    /// An empty buffer in prebuffer mode.
    pub open spec fn fresh(
        samples_per_packet: nat,
        capacity: nat,
        prebuffer_target: Option<usize>,
        high_water: Option<usize>,
    ) -> JitterModel {
        JitterModel {
            samples_per_packet,
            capacity,
            slots: Seq::new(capacity, |i: int| None),
            head: None,
            head_offset: 0,
            min_pushed: None,
            prebuffer_target,
            high_water,
            resync_floor: None,
            stats: Stats::zero(),
        }
    }

    /// The buffer emptied, back in prebuffer mode.
    pub open spec fn emptied(self) -> JitterModel {
        JitterModel {
            slots: Seq::new(self.capacity, |i: int| None),
            head: None,
            head_offset: 0,
            min_pushed: None,
            resync_floor: None,
            ..self
        }
    }

    /// One more packet refused as late.
    pub open spec fn count_late(self) -> JitterModel {
        JitterModel {
            stats: Stats { late_drops: (self.stats.late_drops + 1) as u64, ..self.stats },
            ..self
        }
    }

    /// One more sender restart noticed.
    pub open spec fn count_restart(self) -> JitterModel {
        JitterModel {
            stats: Stats { sender_restarts: (self.stats.sender_restarts + 1) as u64, ..self.stats },
            ..self
        }
    }

    /// Storing `seq` writes over a packet that is still to be played.
    pub open spec fn overruns(self, seq: u32) -> bool {
        self.head matches Some(h) && self.slots[self.index(seq)] matches Some(p) && p.seq != seq && (
        p.seq == h || distance(h, p.seq) < self.capacity as u32)
    }

    /// A packet that is not refused goes into its slot.
    pub open spec fn stored(self, seq: u32, samples: Seq<u32>) -> (JitterModel, PushOutcome) {
        if self.holds(seq) {
            (
                JitterModel {
                    stats: Stats { duplicates: (self.stats.duplicates + 1) as u64, ..self.stats },
                    ..self
                },
                PushOutcome::Duplicate,
            )
        } else {
            (
                JitterModel {
                    slots: self.slots.update(self.index(seq), Some(Stored { seq, samples })),
                    min_pushed: if self.head is None && (self.min_pushed matches Some(m)
                        ==> earlier_or_equal(seq, m)) {
                        Some(seq)
                    } else {
                        self.min_pushed
                    },
                    stats: if self.overruns(seq) {
                        Stats {
                            ring_overruns: (self.stats.ring_overruns + 1) as u64,
                            ..self.stats
                        }
                    } else {
                        self.stats
                    },
                    ..self
                },
                PushOutcome::Stored,
            )
        }
    }

    /// The packet `seq` is so far behind that the sender must have restarted.
    pub open spec fn restarted(self, seq: u32) -> bool {
        match self.head {
            None => self.resync_floor matches Some(floor) && earlier_or_equal(seq, floor)
                && distance(seq, floor) > self.capacity as u32,
            Some(head) => earlier_or_equal(seq, head) && distance(seq, head)
                > self.capacity as u32,
        }
    }

    /// The same buffer with other counts.
    pub open spec fn with_stats(self, stats: Stats) -> JitterModel {
        JitterModel { stats, ..self }
    }

    /// A packet arrives.
    ///
    /// In prebuffer mode it is late if it comes strictly before the place
    /// where playback stopped. During playback it is late if it comes before
    /// the play head, or is the head packet and partly played. In both cases
    /// a gap of more than a ring's length means that the sender restarted: the
    /// buffer is emptied before the packet goes in.
    /// A packet for the slot that is being read is refused.
    pub open spec fn pushed(self, seq: u32, samples: Seq<u32>) -> (JitterModel, PushOutcome) {
        match self.head {
            None => match self.resync_floor {
                Some(floor) if earlier_or_equal(seq, floor) && seq != floor => if distance(
                    seq,
                    floor,
                ) > self.capacity as u32 {
                    self.emptied().count_restart().stored(seq, samples)
                } else {
                    (self.count_late(), PushOutcome::Late)
                },
                _ => self.stored(seq, samples),
            },
            Some(head) => if earlier_or_equal(seq, head) && (seq != head || self.head_offset > 0) {
                if distance(seq, head) > self.capacity as u32 {
                    (
                        self.emptied().count_restart().stored(seq, samples).0,
                        PushOutcome::StreamReset,
                    )
                } else {
                    (self.count_late(), PushOutcome::Late)
                }
            } else if self.index(seq) == self.index(head) && self.head_offset > 0 {
                (
                    JitterModel {
                        stats: Stats {
                            mid_read_collisions: (self.stats.mid_read_collisions + 1) as u64,
                            ..self.stats
                        },
                        ..self
                    },
                    PushOutcome::MidReadCollision,
                )
            } else {
                self.stored(seq, samples)
            },
        }
    }

    /// The sequence number that playback goes on from, if there is one.
    pub open spec fn anchor(self) -> Option<u32> {
        match self.head {
            Some(h) => Some(h),
            None => self.min_pushed,
        }
    }

    /// The next `n` samples of the packet `h` are handed out. At the end of
    /// the packet its slot is cleared and the head moves on.
    pub open spec fn advanced(self, h: u32, n: nat) -> JitterModel {
        if self.head_offset + n == self.samples_per_packet {
            JitterModel {
                slots: self.slots.update(self.index(h), None),
                head: Some(next_seq(h)),
                head_offset: 0,
                stats: if self.holds(h) {
                    self.stats
                } else {
                    Stats {
                        silence_insertions: (self.stats.silence_insertions + 1) as u64,
                        ..self.stats
                    }
                },
                ..self
            }
        } else {
            JitterModel { head: Some(h), head_offset: self.head_offset + n, ..self }
        }
    }

    /// The ring ran empty at `h`: back to prebuffer mode.
    pub open spec fn frozen(self, h: u32) -> JitterModel {
        JitterModel {
            head: None,
            head_offset: 0,
            min_pushed: None,
            resync_floor: Some(h),
            stats: Stats {
                underrun_resyncs: (self.stats.underrun_resyncs + 1) as u64,
                ..self.stats
            },
            ..self
        }
    }

    /// The packet `h` is missing and there is no other to wait for.
    pub open spec fn ran_empty(self, h: u32) -> bool {
        !self.holds(h) && filled(self.slots) == 0
    }

    /// How many of `n` samples the head packet supplies: at least one.
    pub open spec fn chunk(self, n: nat) -> nat {
        if 0 < self.samples_per_packet - self.head_offset < n {
            (self.samples_per_packet - self.head_offset) as nat
        } else {
            n
        }
    }

    /// The next `n` samples of the packet `h`, or silence where it is missing.
    pub open spec fn piece(self, h: u32, n: nat) -> Seq<u32> {
        if self.holds(h) {
            self.slots[self.index(h)]->0.samples.subrange(
                self.head_offset as int,
                (self.head_offset + n) as int,
            )
        } else {
            silence(n)
        }
    }

    /// Playback hands out `n` samples.
    pub open spec fn played(self, n: nat) -> (JitterModel, Seq<u32>)
        decreases n,
    {
        if n == 0 {
            (self, Seq::empty())
        } else {
            match self.anchor() {
                None => (self, silence(n)),
                Some(h) => if self.ran_empty(h) {
                    (self.frozen(h), silence(n))
                } else {
                    let chunk = self.chunk(n);
                    let (end, rest) = self.advanced(h, chunk).played((n - chunk) as nat);
                    (end, self.piece(h, chunk) + rest)
                },
            }
        }
    }

    /// The packet at the head, or its place, is skipped.
    pub open spec fn skipped(self, h: u32) -> JitterModel {
        JitterModel {
            slots: if self.holds(h) {
                self.slots.update(self.index(h), None)
            } else {
                self.slots
            },
            head: Some(next_seq(h)),
            head_offset: 0,
            stats: Stats { latency_trims: (self.stats.latency_trims + 1) as u64, ..self.stats },
            ..self
        }
    }

    /// Packets are skipped, at most `fuel` of them, while the fill is above
    /// `high` and, after the first, above `target`.
    pub open spec fn skipping(self, high: nat, target: nat, fuel: nat) -> JitterModel
        decreases fuel,
    {
        if fuel == 0 || self.queued() <= high {
            self
        } else {
            let next = self.skipped(self.head->0);
            if next.queued() <= target {
                next
            } else {
                next.skipping(high, target, (fuel - 1) as nat)
            }
        }
    }

    /// The fill is brought below the high-water mark, down towards the
    /// prebuffer target, where both are set and playback can start.
    pub open spec fn trimmed(self) -> JitterModel {
        match (self.high_water, self.prebuffer_target, self.anchor()) {
            (Some(high), Some(target), Some(h)) if high > target => (JitterModel {
                head: Some(h),
                ..self
            }).skipping(high as nat, target as nat, 0x1_0000_0000),
            _ => self,
        }
    }

    /// Playback has not started and fewer samples are queued than the prebuffer
    /// asks for.
    pub open spec fn held_back(self) -> bool {
        self.head is None && (self.prebuffer_target matches Some(t) && self.queued() < t)
    }

    /// A request for `n` samples.
    pub open spec fn popped(self, n: nat) -> (JitterModel, Seq<u32>) {
        if n == 0 {
            (self, Seq::empty())
        } else if self.held_back() {
            (
                JitterModel {
                    stats: Stats {
                        prebuffer_holds: (self.stats.prebuffer_holds + 1) as u64,
                        ..self.stats
                    },
                    ..self
                },
                silence(n),
            )
        } else {
            self.trimmed().played(n)
        }
    }
}

struct Slot {
    seq: u32,
    samples: Vec<u32>,
    filled: bool,
}

impl Slot {
    spec fn model(self) -> Option<Stored> {
        if self.filled {
            Some(Stored { seq: self.seq, samples: self.samples@ })
        } else {
            None
        }
    }
}

impl Slot {
    /// Puts a packet into the slot.
    fn load(&mut self, seq: u32, samples: &[u32])
        requires
            old(self).samples@.len() == samples@.len(),
        ensures
            final(self).model() == Some(Stored { seq, samples: samples@ }),
            final(self).samples@.len() == samples@.len(),
    {
        let n: usize = samples.len();
        let mut i: usize = 0;
        while i < n
            invariant
                i <= n == samples@.len(),
                self.samples@.len() == n,
                forall|k: int| 0 <= k < i ==> self.samples@[k] == samples@[k],
            decreases n - i,
        {
            self.samples[i] = samples[i];
            i += 1;
        }
        self.seq = seq;
        self.filled = true;
        assert(self.samples@ =~= samples@);
    }

    /// Marks the slot as empty.
    fn clear(&mut self)
        ensures
            final(self).model() is None,
            final(self).samples == old(self).samples,
    {
        self.seq = 0;
        self.filled = false;
    }
}

/// Writes silence to `out[from..to]`.
fn fill_silence(out: &mut [u32], from: usize, to: usize)
    requires
        from <= to <= old(out)@.len(),
    ensures
        final(out)@ == old(out)@.take(from as int) + silence((to - from) as nat) + old(out)@.skip(
            to as int,
        ),
{
    let mut i: usize = from;
    while i < to
        invariant
            from <= i <= to <= out@.len(),
            out@.len() == old(out)@.len(),
            forall|k: int| from <= k < i ==> out@[k] == 0u32,
            forall|k: int| 0 <= k < from || i <= k < out@.len() ==> out@[k] == old(out)@[k],
        decreases to - i,
    {
        out[i] = 0;
        i += 1;
    }
    assert(out@ =~= old(out)@.take(from as int) + silence((to - from) as nat) + old(out)@.skip(
        to as int,
    ));
}

/// Copies `src[start..start + n]` to `out[at..at + n]`.
fn copy_samples(out: &mut [u32], at: usize, src: &[u32], start: usize, n: usize)
    requires
        at + n <= old(out)@.len(),
        start + n <= src@.len(),
    ensures
        final(out)@ == old(out)@.take(at as int) + src@.subrange(start as int, start + n) + old(
            out,
        )@.skip(at + n),
{
    let out_len: usize = out.len();
    let src_len: usize = src.len();
    let mut i: usize = 0;
    while i < n
        invariant
            i <= n,
            at + n <= out@.len() == out_len,
            start + n <= src@.len() == src_len,
            out@.len() == old(out)@.len(),
            forall|k: int| at <= k < at + i ==> out@[k] == src@[start + k - at],
            forall|k: int| 0 <= k < at || at + i <= k < out@.len() ==> out@[k] == old(out)@[k],
        decreases n - i,
    {
        out[at + i] = src[start + i];
        i += 1;
    }
    assert(out@ =~= old(out)@.take(at as int) + src@.subrange(start as int, start + n) + old(
        out,
    )@.skip(at + n));
}

spec fn slot_models(slots: Seq<Slot>) -> Seq<Option<Stored>> {
    Seq::new(slots.len(), |i: int| slots[i].model())
}

/// A reorder buffer of packet-sized slots.
pub struct JitterBuffer {
    samples_per_packet: usize,
    capacity_packets: usize,
    slots: Vec<Slot>,
    head: Option<u32>,
    head_offset: usize,
    min_pushed: Option<u32>,
    prebuffer_target_frames: Option<usize>,
    high_water_frames: Option<usize>,
    filled_count: usize,
    resync_floor: Option<u32>,
    stats: Stats,
}

impl View for JitterBuffer {
    type V = JitterModel;

    closed spec fn view(&self) -> JitterModel {
        JitterModel {
            samples_per_packet: self.samples_per_packet as nat,
            capacity: self.capacity_packets as nat,
            slots: slot_models(self.slots@),
            head: self.head,
            head_offset: self.head_offset as nat,
            min_pushed: self.min_pushed,
            prebuffer_target: self.prebuffer_target_frames,
            high_water: self.high_water_frames,
            resync_floor: self.resync_floor,
            stats: self.stats,
        }
    }
}

proof fn lemma_filled_bounds(slots: Seq<Option<Stored>>)
    ensures
        filled(slots) <= slots.len(),
    decreases slots.len(),
{
    if slots.len() > 0 {
        lemma_filled_bounds(slots.drop_last());
    }
}

proof fn lemma_filled_update(slots: Seq<Option<Stored>>, i: int, x: Option<Stored>)
    requires
        0 <= i < slots.len(),
    ensures
        filled(slots.update(i, x)) == filled(slots) - (if slots[i] is Some {
            1int
        } else {
            0int
        }) + (if x is Some {
            1int
        } else {
            0int
        }),
    decreases slots.len(),
{
    let front = slots.drop_last();
    if i < front.len() {
        lemma_filled_update(front, i, x);
        assert(slots.update(i, x).drop_last() =~= front.update(i, x));
    } else {
        assert(slots.update(i, x).drop_last() =~= front);
    }
}

proof fn lemma_filled_some(slots: Seq<Option<Stored>>, i: int)
    requires
        0 <= i < slots.len(),
        slots[i] is Some,
    ensures
        filled(slots) > 0,
    decreases slots.len(),
{
    if i < slots.len() - 1 {
        lemma_filled_some(slots.drop_last(), i);
    }
}

proof fn lemma_filled_none(slots: Seq<Option<Stored>>)
    requires
        forall|i: int| 0 <= i < slots.len() ==> slots[i] is None,
    ensures
        filled(slots) == 0,
    decreases slots.len(),
{
    if slots.len() > 0 {
        lemma_filled_none(slots.drop_last());
    }
}

/// An occupied slot, where there is one.
proof fn lemma_filled_witness(slots: Seq<Option<Stored>>) -> (i: int)
    requires
        filled(slots) > 0,
    ensures
        0 <= i < slots.len(),
        slots[i] is Some,
    decreases slots.len(),
{
    if slots.last() is Some {
        slots.len() - 1
    } else {
        lemma_filled_witness(slots.drop_last())
    }
}

impl JitterBuffer {
    /// The representation is sound.
    pub closed spec fn inv(&self) -> bool {
        &&& self@.wf()
        &&& self.slots@.len() == self.capacity_packets
        &&& self.capacity_packets * self.samples_per_packet <= usize::MAX
        &&& self.filled_count == filled(self@.slots)
        &&& forall|i: int|
            0 <= i < self.slots@.len() ==> (#[trigger] self.slots@[i]).samples@.len()
                == self.samples_per_packet
    }

    /// A sound buffer has a well-formed state.
    pub proof fn lemma_inv_wf(&self)
        requires
            self.inv(),
        ensures
            self@.wf(),
            self@.samples_per_packet <= usize::MAX,
            self@.capacity <= usize::MAX,
    {
    }

    /// A buffer of `capacity_packets` slots with `samples_per_packet` samples
    /// each. With a target, playback waits until that many samples are queued.
    pub fn new(
        samples_per_packet: usize,
        capacity_packets: usize,
        prebuffer_target_frames: Option<usize>,
    ) -> (r: JitterBuffer)
        requires
            samples_per_packet > 0,
            capacity_packets > 0,
            samples_per_packet * capacity_packets <= usize::MAX,
            prebuffer_target_frames matches Some(t) ==> t > 0,
        ensures
            r.inv(),
            r@ == JitterModel::fresh(
                samples_per_packet as nat,
                capacity_packets as nat,
                prebuffer_target_frames,
                None,
            ),
    {
        JitterBuffer::with_high_water(
            samples_per_packet,
            capacity_packets,
            prebuffer_target_frames,
            None,
        )
    }

    /// Like `new`, with a fill above which packets are skipped.
    pub fn with_high_water(
        samples_per_packet: usize,
        capacity_packets: usize,
        prebuffer_target_frames: Option<usize>,
        high_water_frames: Option<usize>,
    ) -> (r: JitterBuffer)
        requires
            samples_per_packet > 0,
            capacity_packets > 0,
            samples_per_packet * capacity_packets <= usize::MAX,
            prebuffer_target_frames matches Some(t) ==> t > 0,
            high_water_frames matches Some(h) ==> h > 0,
        ensures
            r.inv(),
            r@ == JitterModel::fresh(
                samples_per_packet as nat,
                capacity_packets as nat,
                prebuffer_target_frames,
                high_water_frames,
            ),
    {
        let mut slots: Vec<Slot> = Vec::with_capacity(capacity_packets);
        let mut i: usize = 0;
        while i < capacity_packets
            invariant
                i <= capacity_packets,
                slots@.len() == i,
                forall|k: int|
                    0 <= k < i ==> (#[trigger] slots@[k]).samples@.len() == samples_per_packet
                        && !slots@[k].filled,
            decreases capacity_packets - i,
        {
            slots.push(Slot { seq: 0, samples: vec![0u32; samples_per_packet], filled: false });
            i += 1;
        }
        let r: JitterBuffer = JitterBuffer {
            samples_per_packet,
            capacity_packets,
            slots,
            head: None,
            head_offset: 0,
            min_pushed: None,
            prebuffer_target_frames,
            high_water_frames,
            filled_count: 0,
            resync_floor: None,
            stats: Stats::default(),
        };
        proof {
            lemma_filled_none(r@.slots);
            assert(r@.slots =~= Seq::new(capacity_packets as nat, |i: int| None));
            assert(capacity_packets * samples_per_packet == samples_per_packet * capacity_packets)
                by (nonlinear_arith);
        }
        r
    }

    /// Empties the ring and goes back to prebuffer mode.
    fn reset_state(&mut self)
        requires
            old(self).inv(),
        ensures
            final(self).inv(),
            final(self)@ == old(self)@.emptied(),
    {
        self.head = None;
        self.head_offset = 0;
        self.min_pushed = None;
        self.resync_floor = None;
        self.filled_count = 0;
        let n: usize = self.slots.len();
        let ghost rest = *self;
        let mut i: usize = 0;
        while i < n
            invariant
                i <= n == self.slots@.len() == rest.slots@.len(),
                *self == (JitterBuffer { slots: self.slots, ..rest }),
                forall|k: int|
                    0 <= k < n ==> (#[trigger] self.slots@[k]).samples == rest.slots@[k].samples,
                forall|k: int| 0 <= k < i ==> (#[trigger] self.slots@[k]).model() is None,
            decreases n - i,
        {
            self.slots[i].clear();
            i += 1;
        }
        proof {
            assert(self@.slots =~= Seq::new(self@.capacity, |i: int| None));
            lemma_filled_none(self@.slots);
        }
    }

    /// Samples per packet.
    pub fn samples_per_packet(&self) -> (r: usize)
        ensures
            r == self@.samples_per_packet,
    {
        self.samples_per_packet
    }

    /// Puts a packet that is not refused into its slot.
    fn store(&mut self, seq: u32, samples: &[u32]) -> (r: PushOutcome)
        requires
            old(self).inv(),
            samples@.len() == old(self)@.samples_per_packet,
            old(self)@.stats.duplicates < u64::MAX,
            old(self)@.stats.ring_overruns < u64::MAX,
            old(self)@.head is None ==> (old(self)@.resync_floor matches Some(f) ==> !(
            earlier_or_equal(seq, f) && seq != f)),
        ensures
            final(self).inv(),
            (final(self)@, r) == old(self)@.stored(seq, samples@),
    {
        let ghost s = self@;
        let idx: usize = seq as usize % self.capacity_packets;
        assert(idx == s.index(seq));
        assert(s.slots[idx as int] == self.slots@[idx as int].model());
        if self.slots[idx].filled && self.slots[idx].seq == seq {
            self.stats.duplicates = self.stats.duplicates + 1;
            return PushOutcome::Duplicate;
        }
        if let Some(h) = self.head {
            if self.slots[idx].filled {
                let fwd: u32 = self.slots[idx].seq.wrapping_sub(h);
                if fwd == 0 || fwd < self.capacity_packets as u32 {
                    self.stats.ring_overruns = self.stats.ring_overruns + 1;
                }
            }
        }
        proof {
            lemma_filled_update(s.slots, idx as int, Some(Stored { seq, samples: samples@ }));
            lemma_filled_bounds(s.slots.update(idx as int, Some(Stored { seq, samples: samples@ })));
        }
        if !self.slots[idx].filled {
            self.filled_count = self.filled_count + 1;
        }
        self.slots[idx].load(seq, samples);
        assert(self@.slots =~= s.slots.update(idx as int, Some(Stored { seq, samples: samples@ })));
        if self.head.is_none() {
            let first: bool = match self.min_pushed {
                Some(prev) => modular_is_earlier_or_equal(seq, prev),
                None => true,
            };
            if first {
                self.min_pushed = Some(seq);
            }
        }
        PushOutcome::Stored
    }

    /// Takes in a packet and says what became of it.
    pub fn push(&mut self, seq: u32, samples: &[u32]) -> (r: PushOutcome)
        requires
            old(self).inv(),
            samples@.len() == old(self)@.samples_per_packet,
            old(self)@.stats.has_room(1),
        ensures
            final(self).inv(),
            (final(self)@, r) == old(self)@.pushed(seq, samples@),
    {
        let ghost s = self@;
        match self.head {
            None => {
                if let Some(floor) = self.resync_floor {
                    if modular_is_earlier_or_equal(seq, floor) && seq != floor {
                        let gap: u32 = floor.wrapping_sub(seq);
                        if gap > self.capacity_packets as u32 {
                            self.reset_state();
                            self.stats.sender_restarts = self.stats.sender_restarts + 1;
                        } else {
                            self.stats.late_drops = self.stats.late_drops + 1;
                            return PushOutcome::Late;
                        }
                    }
                }
                self.store(seq, samples)
            },
            Some(head) => {
                if modular_is_earlier_or_equal(seq, head) && (seq != head || self.head_offset > 0) {
                    let gap: u32 = head.wrapping_sub(seq);
                    if gap > self.capacity_packets as u32 {
                        self.reset_state();
                        self.stats.sender_restarts = self.stats.sender_restarts + 1;
                        let _ = self.store(seq, samples);
                        return PushOutcome::StreamReset;
                    }
                    self.stats.late_drops = self.stats.late_drops + 1;
                    return PushOutcome::Late;
                }
                let idx: usize = seq as usize % self.capacity_packets;
                let head_idx: usize = head as usize % self.capacity_packets;
                if idx == head_idx && self.head_offset > 0 {
                    self.stats.mid_read_collisions = self.stats.mid_read_collisions + 1;
                    return PushOutcome::MidReadCollision;
                }
                self.store(seq, samples)
            },
        }
    }

    /// Samples waiting to be played: all that the ring holds, less what was
    /// handed out of the head packet.
    pub fn queued_frames(&self) -> (r: usize)
        requires
            self.inv(),
        ensures
            r == self@.queued(),
    {
        proof {
            lemma_filled_bounds(self@.slots);
            assert(self.filled_count * self.samples_per_packet <= self.capacity_packets
                * self.samples_per_packet) by (nonlinear_arith)
                requires
                    self.filled_count <= self.capacity_packets,
            ;
        }
        let base: usize = self.filled_count * self.samples_per_packet;
        if let Some(h) = self.head {
            let idx: usize = h as usize % self.capacity_packets;
            assert(idx == self@.index(h));
            assert(self@.slots[idx as int] == self.slots@[idx as int].model());
            if self.slots[idx].filled && self.slots[idx].seq == h {
                proof {
                    lemma_filled_some(self@.slots, idx as int);
                    assert(self.filled_count * self.samples_per_packet >= self.samples_per_packet)
                        by (nonlinear_arith)
                        requires
                            self.filled_count >= 1,
                    ;
                }
                return base - self.head_offset;
            }
        }
        base
    }

    /// The counts so far.
    pub fn stats(&self) -> (r: Stats)
        ensures
            r == self@.stats,
    {
        self.stats
    }

    /// Skips packets while the fill is above the high-water mark, down
    /// towards the prebuffer target.
    fn trim_latency_if_needed(&mut self)
        requires
            old(self).inv(),
            old(self)@.stats.latency_trims + 0x1_0000_0000 <= u64::MAX,
        ensures
            final(self).inv(),
            final(self)@ == old(self)@.trimmed(),
            old(self)@.high_water matches Some(high) ==> (old(self)@.prebuffer_target matches Some(
                target,
            ) ==> (high > target ==> {
                &&& final(self)@.queued() <= high
                &&& old(self)@.queued() <= high ==> final(self)@.queued() == old(self)@.queued()
                    && final(self)@.stats == old(self)@.stats
                &&& old(self)@.queued() > high ==> final(self)@.stats.latency_trims > old(
                    self,
                )@.stats.latency_trims && final(self)@.queued() + old(self)@.samples_per_packet
                    > target
            })),
    {
        proof {
            self.lemma_trim_bounds();
        }
        let high: usize = match self.high_water_frames {
            Some(h) => h,
            None => {
                return;
            },
        };
        let target: usize = match self.prebuffer_target_frames {
            Some(t) => t,
            None => {
                return;
            },
        };
        if high <= target {
            return;
        }
        let start: u32 = match self.anchor() {
            Some(h) => h,
            None => {
                return;
            },
        };
        self.head = Some(start);
        let ghost s0 = self@;
        let mut h: u32 = start;
        let mut fill: usize = self.queued_frames();
        let ghost mut k: nat = 0;
        while fill > high
            invariant
                self.inv(),
                fill == self@.queued(),
                self@.head == Some(h),
                k <= 0x1_0000_0000,
                h as int == (start + k) % 0x1_0000_0000,
                self@.stats.latency_trims == s0.stats.latency_trims + k,
                s0.stats.latency_trims + 0x1_0000_0000 <= u64::MAX,
                all_ahead(self@, start, k),
                s0 == (JitterModel { head: Some(start), ..old(self)@ }),
                old(self)@.wf(),
                old(self)@.high_water == Some(high),
                old(self)@.prebuffer_target == Some(target),
                old(self)@.anchor() == Some(start),
                high > target,
                s0.skipping(high as nat, target as nat, 0x1_0000_0000) == self@.skipping(
                    high as nat,
                    target as nat,
                    (0x1_0000_0000 - k) as nat,
                ),
            decreases 0x1_0000_0000 - k,
        {
            let ghost s = self@;
            proof {
                lemma_skip_step(s, start, k);
            }
            let idx: usize = h as usize % self.capacity_packets;
            assert(idx == s.index(h));
            assert(s.slots[idx as int] == self.slots@[idx as int].model());
            if self.slots[idx].filled && self.slots[idx].seq == h {
                self.filled_count = self.filled_count - 1;
                self.slots[idx].clear();
            }
            assert(self@.slots =~= s.skipped(h).slots);
            h = h.wrapping_add(1);
            self.head = Some(h);
            self.head_offset = 0;
            self.stats.latency_trims = self.stats.latency_trims + 1;
            assert(self@ =~= s.skipped(s.head->0));
            proof {
                k = k + 1;
            }
            fill = self.queued_frames();
            if fill <= target {
                proof {
                    law_trimming_reaches_high_water(old(self)@, high, target);
                }
                return;
            }
        }
    }

    /// What trimming this buffer comes to.
    proof fn lemma_trim_bounds(&self)
        requires
            self.inv(),
            self@.stats.latency_trims + 0x1_0000_0000 <= u64::MAX,
        ensures
            self@.high_water matches Some(high) ==> (self@.prebuffer_target matches Some(target)
                ==> (high > target ==> {
                let t = self@.trimmed();
                &&& t.queued() <= high
                &&& self@.queued() <= high ==> t.queued() == self@.queued() && t.stats
                    == self@.stats
                &&& self@.queued() > high ==> t.stats.latency_trims > self@.stats.latency_trims
                    && t.queued() + self@.samples_per_packet > target
            })),
    {
        if let Some(high) = self@.high_water {
            if let Some(target) = self@.prebuffer_target {
                if high > target {
                    law_trimming_reaches_high_water(self@, high, target);
                }
            }
        }
    }

    /// The sequence number that playback goes on from.
    fn anchor(&self) -> (r: Option<u32>)
        ensures
            r == self@.anchor(),
    {
        match self.head {
            Some(h) => Some(h),
            None => self.min_pushed,
        }
    }

    /// Whether the ring holds the packet `seq`.
    fn holds(&self, seq: u32) -> (r: bool)
        requires
            self.inv(),
        ensures
            r == self@.holds(seq),
    {
        let idx: usize = seq as usize % self.capacity_packets;
        assert(self@.slots[idx as int] == self.slots@[idx as int].model());
        self.slots[idx].filled && self.slots[idx].seq == seq
    }

    /// Goes back to prebuffer mode because the ring ran empty at `h`.
    fn freeze(&mut self, h: u32)
        requires
            old(self).inv(),
            filled(old(self)@.slots) == 0,
            old(self)@.stats.underrun_resyncs < u64::MAX,
        ensures
            final(self).inv(),
            final(self)@ == old(self)@.frozen(h),
    {
        self.head = None;
        self.head_offset = 0;
        self.min_pushed = None;
        self.resync_floor = Some(h);
        self.stats.underrun_resyncs = self.stats.underrun_resyncs + 1;
    }

    /// Hands out what is left of the packet `h`, as far as `out[at..]` has
    /// room, and returns how many samples that is.
    fn play_chunk(&mut self, h: u32, out: &mut [u32], at: usize) -> (chunk: usize)
        requires
            old(self).inv(),
            at < old(out)@.len(),
            old(self)@.stats.silence_insertions < u64::MAX,
        ensures
            final(self).inv(),
            chunk == old(self)@.chunk((old(out)@.len() - at) as nat),
            0 < chunk <= old(out)@.len() - at,
            final(self)@ == old(self)@.advanced(h, chunk as nat),
            final(out)@ == old(out)@.take(at as int) + old(self)@.piece(h, chunk as nat) + old(
                out,
            )@.skip(at + chunk),
    {
        let ghost s = self@;
        let idx: usize = h as usize % self.capacity_packets;
        assert(s.slots[idx as int] == self.slots@[idx as int].model());
        let room: usize = out.len() - at;
        let left: usize = self.samples_per_packet - self.head_offset;
        let chunk: usize = if left < room {
            left
        } else {
            room
        };
        let present: bool = self.holds(h);
        if present {
            copy_samples(
                out,
                at,
                self.slots[idx].samples.as_slice(),
                self.head_offset,
                chunk,
            );
        } else {
            fill_silence(out, at, at + chunk);
        }
        self.head_offset = self.head_offset + chunk;
        if self.head_offset == self.samples_per_packet {
            if !present {
                self.stats.silence_insertions = self.stats.silence_insertions + 1;
            }
            proof {
                lemma_filled_update(s.slots, idx as int, None);
            }
            if self.slots[idx].filled {
                self.filled_count = self.filled_count - 1;
            }
            self.slots[idx].clear();
            self.head = Some(h.wrapping_add(1));
            self.head_offset = 0;
            assert(self@.slots =~= s.slots.update(idx as int, None));
        } else {
            self.head = Some(h);
        }
        assert(self@ =~= s.advanced(h, chunk as nat));
        chunk
    }

    /// Fills `out` with the next samples and returns how many were written,
    /// which is all of `out`.
    pub fn pop_frames(&mut self, out: &mut [u32]) -> (r: usize)
        requires
            old(self).inv(),
            old(self)@.stats.has_room(1),
            old(self)@.stats.silence_insertions + old(out)@.len() <= u64::MAX,
            old(self)@.stats.latency_trims + 0x1_0000_0000 <= u64::MAX,
        ensures
            final(self).inv(),
            r == old(out)@.len(),
            (final(self)@, final(out)@) == old(self)@.popped(old(out)@.len()),
    {
        let n: usize = out.len();
        if n == 0 {
            assert(out@ =~= Seq::empty());
            return 0;
        }
        if let Some(target) = self.prebuffer_target_frames {
            if self.head.is_none() && self.queued_frames() < target {
                self.stats.prebuffer_holds = self.stats.prebuffer_holds + 1;
                fill_silence(out, 0, n);
                assert(out@ =~= silence(n as nat));
                return n;
            }
        }
        proof {
            lemma_trimmed_keeps(self@);
        }
        self.trim_latency_if_needed();
        let ghost s0 = self@;
        let mut written: usize = 0;
        assert(out@.take(0) + s0.played(n as nat).1 =~= s0.played(n as nat).1);
        while written < n
            invariant
                self.inv(),
                written <= n == out@.len() == old(out)@.len(),
                n > 0,
                s0 == old(self)@.trimmed(),
                !old(self)@.held_back(),
                self@.stats.underrun_resyncs < u64::MAX,
                self@.stats.silence_insertions + (n - written) <= u64::MAX,
                s0.played(n as nat) == (
                    self@.played((n - written) as nat).0,
                    out@.take(written as int) + self@.played((n - written) as nat).1,
                ),
            decreases n - written,
        {
            let ghost s = self@;
            let ghost before = out@;
            let h: u32 = match self.anchor() {
                Some(h) => h,
                None => {
                    fill_silence(out, written, n);
                    assert(out@ =~= before.take(written as int) + silence((n - written) as nat));
                    return n;
                },
            };
            if self.filled_count == 0 && !self.holds(h) {
                fill_silence(out, written, n);
                self.freeze(h);
                assert(out@ =~= before.take(written as int) + silence((n - written) as nat));
                return n;
            }
            let chunk: usize = self.play_chunk(h, out, written);
            proof {
                let rest = self@.played((n - written - chunk) as nat);
                assert(s.played((n - written) as nat) == (
                    rest.0,
                    s.piece(h, chunk as nat) + rest.1,
                ));
                assert(before.take(written as int) + (s.piece(h, chunk as nat) + rest.1)
                    =~= out@.take(written + chunk) + rest.1);
            }
            written = written + chunk;
        }
        assert(out@.take(n as int) + Seq::<u32>::empty() =~= out@);
        n
    }
}

/// A fill above zero needs an occupied slot.
proof fn lemma_queued_filled(s: JitterModel)
    requires
        s.queued() > 0,
        s.wf(),
    ensures
        filled(s.slots) > 0,
{
    if filled(s.slots) == 0 {
        assert(filled(s.slots) * s.samples_per_packet == 0) by (nonlinear_arith)
            requires
                filled(s.slots) == 0,
        ;
        if let Some(h) = s.head {
            if s.holds(h) {
                lemma_filled_some(s.slots, s.index(h));
            }
        }
    }
}

/// Skipping packets touches no counter but its own.
proof fn lemma_skipping_keeps(s: JitterModel, high: nat, target: nat, fuel: nat)
    ensures
        s.skipping(high, target, fuel).stats == (Stats {
            latency_trims: s.skipping(high, target, fuel).stats.latency_trims,
            ..s.stats
        }),
    decreases fuel,
{
    if fuel > 0 && s.queued() > high {
        let next = s.skipped(s.head->0);
        if next.queued() > target {
            lemma_skipping_keeps(next, high, target, (fuel - 1) as nat);
        }
    }
}

/// Trimming touches no counter but its own.
proof fn lemma_trimmed_keeps(s: JitterModel)
    ensures
        s.trimmed().stats == (Stats { latency_trims: s.trimmed().stats.latency_trims, ..s.stats }),
{
    match (s.high_water, s.prebuffer_target, s.anchor()) {
        (Some(high), Some(target), Some(h)) => {
            if high > target {
                lemma_skipping_keeps(
                    JitterModel { head: Some(h), ..s },
                    high as nat,
                    target as nat,
                    0x1_0000_0000,
                );
            }
        },
        _ => {},
    }
}

proof fn lemma_stored_wf(s: JitterModel, seq: u32, samples: Seq<u32>)
    requires
        s.wf(),
        samples.len() == s.samples_per_packet,
        s.head is None ==> (s.resync_floor matches Some(f) ==> !(earlier_or_equal(seq, f) && seq
            != f)),
    ensures
        s.stored(seq, samples).0.wf(),
{
    lemma_filled_update(s.slots, s.index(seq), Some(Stored { seq, samples }));
}

proof fn lemma_emptied_wf(s: JitterModel)
    requires
        s.wf(),
    ensures
        s.emptied().wf(),
        filled(s.emptied().slots) == 0,
{
    lemma_filled_none(s.emptied().slots);
}

/// A new buffer is well-formed.
pub proof fn lemma_fresh_wf(
    samples_per_packet: nat,
    capacity: nat,
    prebuffer_target: Option<usize>,
    high_water: Option<usize>,
)
    requires
        samples_per_packet > 0,
        capacity > 0,
        prebuffer_target matches Some(t) ==> t > 0,
        high_water matches Some(h) ==> h > 0,
    ensures
        JitterModel::fresh(samples_per_packet, capacity, prebuffer_target, high_water).wf(),
{
    lemma_filled_none(
        JitterModel::fresh(samples_per_packet, capacity, prebuffer_target, high_water).slots,
    );
}

/// Every push keeps the state well-formed.
pub proof fn law_push_keeps_wf(s: JitterModel, seq: u32, samples: Seq<u32>)
    requires
        s.wf(),
        samples.len() == s.samples_per_packet,
    ensures
        s.pushed(seq, samples).0.wf(),
{
    lemma_emptied_wf(s);
    lemma_stored_wf(s.emptied().count_restart(), seq, samples);
    if s.pushed(seq, samples) == s.stored(seq, samples) {
        if s.head is None {
            if let Some(f) = s.resync_floor {
                if earlier_or_equal(seq, f) && seq != f {
                    assert(s.pushed(seq, samples).0.wf());
                } else {
                    lemma_stored_wf(s, seq, samples);
                }
            } else {
                lemma_stored_wf(s, seq, samples);
            }
        } else {
            lemma_stored_wf(s, seq, samples);
        }
    }
}

proof fn lemma_advanced_wf(s: JitterModel, h: u32, n: nat)
    requires
        s.wf(),
        s.head_offset + n <= s.samples_per_packet,
    ensures
        s.advanced(h, n).wf(),
{
    lemma_filled_update(s.slots, s.index(h), None);
}

proof fn lemma_played_wf(s: JitterModel, n: nat)
    requires
        s.wf(),
    ensures
        s.played(n).0.wf(),
        s.played(n).1.len() == n,
    decreases n,
{
    if n > 0 {
        if let Some(h) = s.anchor() {
            if !s.ran_empty(h) {
                let chunk = s.chunk(n);
                lemma_advanced_wf(s, h, chunk);
                lemma_played_wf(s.advanced(h, chunk), (n - chunk) as nat);
            }
        }
    }
}

/// Every packet in the ring is at least `k` steps ahead of `start`.
spec fn all_ahead(s: JitterModel, start: u32, k: nat) -> bool {
    forall|i: int|
        0 <= i < s.slots.len() ==> (#[trigger] s.slots[i] matches Some(p) ==> distance(start, p.seq)
            >= k)
}

/// One skip, `k` steps from `start`, leaves only packets further ahead.
proof fn lemma_skip_step(s: JitterModel, start: u32, k: nat)
    requires
        s.wf(),
        s.queued() > 0,
        s.head == Some(((start + k) % 0x1_0000_0000) as u32),
        all_ahead(s, start, k),
    ensures
        k < 0x1_0000_0000,
        s.skipped(s.head->0).wf(),
        all_ahead(s.skipped(s.head->0), start, k + 1),
        s.holds(s.head->0) ==> filled(s.skipped(s.head->0).slots) == filled(s.slots) - 1,
{
    let h = s.head->0;
    lemma_queued_filled(s);
    let w = lemma_filled_witness(s.slots);
    assert(distance(start, s.slots[w]->0.seq) >= k);
    lemma_filled_update(s.slots, s.index(h), None);
    let next = s.skipped(h);
    assert forall|i: int| 0 <= i < next.slots.len() implies (#[trigger] next.slots[i] matches Some(
        p,
    ) ==> distance(start, p.seq) >= k + 1) by {
        assert(s.slots[i] is Some ==> s.index(s.slots[i]->0.seq) == i);
    }
}

/// After `k` skips from `start`, every packet left is at least `k` steps
/// ahead of `start`; so the skipping ends before the allowed number of steps
/// is used up.
proof fn lemma_skipping_ends(s: JitterModel, start: u32, k: nat, high: nat, target: nat)
    requires
        s.wf(),
        k <= 0x1_0000_0000,
        target < high,
        s.head == Some(((start + k) % 0x1_0000_0000) as u32),
        all_ahead(s, start, k),
    ensures
        s.skipping(high, target, (0x1_0000_0000 - k) as nat).wf(),
        s.skipping(high, target, (0x1_0000_0000 - k) as nat).queued() <= high,
    decreases 0x1_0000_0000 - k,
{
    if s.queued() > high {
        lemma_skip_step(s, start, k);
        let next = s.skipped(s.head->0);
        if next.queued() > target {
            lemma_skipping_ends(next, start, k + 1, high, target);
        }
    }
}

/// A skip takes at most one packet's samples off the fill.
proof fn lemma_skip_takes_one(s: JitterModel, start: u32, k: nat)
    requires
        s.wf(),
        s.queued() > 0,
        s.head == Some(((start + k) % 0x1_0000_0000) as u32),
        all_ahead(s, start, k),
    ensures
        s.skipped(s.head->0).queued() + s.samples_per_packet >= s.queued(),
{
    lemma_skip_step(s, start, k);
    let f = filled(s.slots);
    if s.holds(s.head->0) {
        lemma_filled_some(s.slots, s.index(s.head->0));
        assert((f - 1) * s.samples_per_packet == f * s.samples_per_packet - s.samples_per_packet)
            by (nonlinear_arith);
    }
}

/// Where packets are skipped at all, the skipping is counted and stops within
/// a packet of the target.
proof fn lemma_skipping_stops(s: JitterModel, start: u32, k: nat, high: nat, target: nat)
    requires
        s.wf(),
        k <= 0x1_0000_0000,
        target < high,
        s.queued() > target,
        s.head == Some(((start + k) % 0x1_0000_0000) as u32),
        all_ahead(s, start, k),
        s.stats.latency_trims + 0x1_0000_0000 - k <= u64::MAX,
    ensures
        ({
            let t = s.skipping(high, target, (0x1_0000_0000 - k) as nat);
            &&& t.queued() + s.samples_per_packet > target
            &&& t.stats.latency_trims >= s.stats.latency_trims
            &&& s.queued() > high ==> t.stats.latency_trims > s.stats.latency_trims
        }),
    decreases 0x1_0000_0000 - k,
{
    if s.queued() > high {
        lemma_skip_step(s, start, k);
        lemma_skip_takes_one(s, start, k);
        let next = s.skipped(s.head->0);
        if next.queued() > target {
            lemma_skipping_stops(next, start, k + 1, high, target);
        }
    }
}

/// Trimming keeps the fill at the high-water mark, where that is set above the
/// prebuffer target. A fill at or below the mark is left as it is, and nothing is
/// counted; a fill above it is brought to the mark or below, at least one skipped
/// packet is counted, and no more is skipped than brings the fill within a packet
/// of the target.
pub proof fn law_trimming_reaches_high_water(s: JitterModel, high: usize, target: usize)
    requires
        s.wf(),
        s.high_water == Some(high),
        s.prebuffer_target == Some(target),
        high > target,
        s.stats.latency_trims + 0x1_0000_0000 <= u64::MAX,
    ensures
        ({
            let t = s.trimmed();
            &&& t.wf()
            &&& t.queued() <= high
            &&& s.queued() <= high ==> t == (JitterModel { head: s.anchor(), ..s }) && t.queued()
                == s.queued()
            &&& s.queued() > high ==> t.queued() + s.samples_per_packet > target
                && t.stats.latency_trims > s.stats.latency_trims
        }),
{
    let anchored = JitterModel { head: s.anchor(), ..s };
    assert(anchored.queued() == s.queued());
    lemma_trimmed_wf(s);
    if s.queued() > 0 {
        lemma_queued_filled(s);
    }
    if s.queued() > high {
        lemma_skipping_stops(anchored, s.anchor()->0, 0, high as nat, target as nat);
    }
}

/// Trimming keeps the state well-formed and reaches the mark.
proof fn lemma_trimmed_wf(s: JitterModel)
    requires
        s.wf(),
    ensures
        s.trimmed().wf(),
        s.high_water matches Some(high) ==> (s.prebuffer_target matches Some(target) ==> (high
            > target && s.anchor() is Some ==> s.trimmed().queued() <= high)),
{
    match (s.high_water, s.prebuffer_target, s.anchor()) {
        (Some(high), Some(target), Some(h)) => {
            if high > target {
                lemma_skipping_ends(
                    JitterModel { head: Some(h), ..s },
                    h,
                    0,
                    high as nat,
                    target as nat,
                );
            }
        },
        _ => {},
    }
}

/// Every request keeps to the high-water mark, where that is set above the
/// prebuffer target: afterwards no more is queued than the mark allows, and
/// packets were skipped exactly where more was queued before.
pub proof fn law_requests_keep_to_the_mark(s: JitterModel, high: usize, target: usize, n: nat)
    requires
        s.wf(),
        s.high_water == Some(high),
        s.prebuffer_target == Some(target),
        high > target,
        n > 0,
        s.stats.has_room(1),
        s.stats.silence_insertions + n <= u64::MAX,
        s.stats.latency_trims + 0x1_0000_0000 <= u64::MAX,
    ensures
        ({
            let t = s.popped(n).0;
            &&& t.queued() <= high
            &&& s.queued() <= high ==> t.stats.latency_trims == s.stats.latency_trims
            &&& s.queued() > high ==> t.stats.latency_trims > s.stats.latency_trims
        }),
{
    if !s.held_back() {
        let u = s.trimmed();
        law_trimming_reaches_high_water(s, high, target);
        lemma_trimmed_keeps(s);
        lemma_played_counts(u, n);
        if u.anchor() is Some {
            lemma_played_drains(u, n);
        }
    } else {
        assert(s.popped(n).0.queued() == s.queued());
    }
}

/// Trimming is for buffers with a high-water mark above a prebuffer target: any
/// other is left as it is.
pub proof fn law_no_mark_no_trimming(s: JitterModel)
    requires
        !(s.high_water matches Some(high) && s.prebuffer_target matches Some(target) && high
            > target),
    ensures
        s.trimmed() == s,
{
}

/// Every request keeps the state well-formed and is answered in full.
pub proof fn law_pop_keeps_wf(s: JitterModel, n: nat)
    requires
        s.wf(),
    ensures
        s.popped(n).0.wf(),
        s.popped(n).1.len() == n,
{
    lemma_trimmed_wf(s);
    lemma_played_wf(s.trimmed(), n);
}

/// Skipping counts at most one trim per step.
proof fn lemma_skipping_counts(s: JitterModel, high: nat, target: nat, fuel: nat)
    requires
        s.stats.latency_trims + fuel <= u64::MAX,
    ensures
        s.skipping(high, target, fuel).stats.latency_trims <= s.stats.latency_trims + fuel,
    decreases fuel,
{
    if fuel > 0 && s.queued() > high {
        let next = s.skipped(s.head->0);
        if next.queued() > target {
            lemma_skipping_counts(next, high, target, (fuel - 1) as nat);
        }
    }
}

/// Playing `n` samples counts at most `n` insertions and one underrun.
proof fn lemma_played_counts(s: JitterModel, n: nat)
    requires
        s.stats.silence_insertions + n <= u64::MAX,
        s.stats.underrun_resyncs < u64::MAX,
    ensures
        s.played(n).0.stats == (Stats {
            silence_insertions: s.played(n).0.stats.silence_insertions,
            underrun_resyncs: s.played(n).0.stats.underrun_resyncs,
            ..s.stats
        }),
        s.played(n).0.stats.silence_insertions <= s.stats.silence_insertions + n,
        s.played(n).0.stats.underrun_resyncs <= s.stats.underrun_resyncs + 1,
    decreases n,
{
    if n > 0 {
        if let Some(h) = s.anchor() {
            if !s.ran_empty(h) {
                let chunk = s.chunk(n);
                lemma_played_counts(s.advanced(h, chunk), (n - chunk) as nat);
            }
        }
    }
}

/// One request moves each counter by no more than its length allows: missing
/// packets by at most the samples asked for, trims by at most a full turn of
/// the sequence numbers, the others by at most one. Counters never run back.
pub proof fn law_pop_counts_are_bounded(s: JitterModel, n: nat)
    requires
        s.stats.has_room(1),
        s.stats.silence_insertions + n <= u64::MAX,
        s.stats.latency_trims + 0x1_0000_0000 <= u64::MAX,
    ensures
        ({
            let t = s.popped(n).0.stats;
            &&& t.silence_insertions <= s.stats.silence_insertions + n
            &&& t.latency_trims <= s.stats.latency_trims + 0x1_0000_0000
            &&& t.prebuffer_holds <= s.stats.prebuffer_holds + 1
            &&& t.underrun_resyncs <= s.stats.underrun_resyncs + 1
            &&& t == (Stats {
                silence_insertions: t.silence_insertions,
                latency_trims: t.latency_trims,
                prebuffer_holds: t.prebuffer_holds,
                underrun_resyncs: t.underrun_resyncs,
                ..s.stats
            })
        }),
{
    if n > 0 && !s.held_back() {
        lemma_trimmed_keeps(s);
        match (s.high_water, s.prebuffer_target, s.anchor()) {
            (Some(high), Some(target), Some(h)) => {
                if high > target {
                    lemma_skipping_counts(
                        JitterModel { head: Some(h), ..s },
                        high as nat,
                        target as nat,
                        0x1_0000_0000,
                    );
                }
            },
            _ => {},
        }
        lemma_played_counts(s.trimmed(), n);
    }
}

/// No more is ever queued than the ring can hold.
pub proof fn law_fill_is_bounded(s: JitterModel)
    requires
        s.wf(),
    ensures
        s.queued() <= s.capacity * s.samples_per_packet,
{
    lemma_filled_bounds(s.slots);
    assert(filled(s.slots) * s.samples_per_packet <= s.capacity * s.samples_per_packet)
        by (nonlinear_arith)
        requires
            filled(s.slots) <= s.capacity,
    ;
    if let Some(h) = s.head {
        if s.holds(h) {
            lemma_filled_some(s.slots, s.index(h));
            assert(filled(s.slots) * s.samples_per_packet >= s.samples_per_packet)
                by (nonlinear_arith)
                requires
                    filled(s.slots) >= 1,
            ;
        }
    }
}

/// Skipping does not depend on the counts.
proof fn lemma_skipping_uncounted(s: JitterModel, other: Stats, high: nat, target: nat, fuel: nat)
    ensures
        exists|c: Stats|
            s.with_stats(other).skipping(high, target, fuel) == #[trigger] s.skipping(
                high,
                target,
                fuel,
            ).with_stats(c),
    decreases fuel,
{
    let o = s.with_stats(other);
    assert(o.queued() == s.queued());
    if fuel == 0 || s.queued() <= high {
        assert(o.skipping(high, target, fuel) == s.skipping(high, target, fuel).with_stats(other));
    } else {
        let next = s.skipped(s.head->0);
        let o_next = o.skipped(o.head->0);
        assert(o_next == next.with_stats(o_next.stats));
        assert(o_next.queued() == next.queued());
        if next.queued() <= target {
            assert(o.skipping(high, target, fuel) == s.skipping(high, target, fuel).with_stats(
                o_next.stats,
            ));
        } else {
            lemma_skipping_uncounted(next, o_next.stats, high, target, (fuel - 1) as nat);
            let c = choose|c: Stats|
                o_next.skipping(high, target, (fuel - 1) as nat) == #[trigger] next.skipping(
                    high,
                    target,
                    (fuel - 1) as nat,
                ).with_stats(c);
            assert(o.skipping(high, target, fuel) == s.skipping(high, target, fuel).with_stats(c));
        }
    }
}

/// Playback does not depend on the counts.
proof fn lemma_played_uncounted(s: JitterModel, other: Stats, n: nat)
    ensures
        s.with_stats(other).played(n).1 == s.played(n).1,
        exists|c: Stats|
            s.with_stats(other).played(n).0 == #[trigger] s.played(n).0.with_stats(c),
    decreases n,
{
    let o = s.with_stats(other);
    if n == 0 {
        assert(o.played(n).0 == s.played(n).0.with_stats(other));
    } else {
        assert(o.anchor() == s.anchor());
        match s.anchor() {
            None => {
                assert(o.played(n).0 == s.played(n).0.with_stats(other));
            },
            Some(h) => {
                assert(o.holds(h) == s.holds(h));
                if s.ran_empty(h) {
                    assert(o.played(n).0 == s.played(n).0.with_stats(o.frozen(h).stats));
                } else {
                    let chunk = s.chunk(n);
                    let t = s.advanced(h, chunk);
                    let u = o.advanced(h, chunk);
                    assert(u == t.with_stats(u.stats));
                    lemma_played_uncounted(t, u.stats, (n - chunk) as nat);
                    let c = choose|c: Stats|
                        u.played((n - chunk) as nat).0 == #[trigger] t.played(
                            (n - chunk) as nat,
                        ).0.with_stats(c);
                    assert(o.played(n).0 == s.played(n).0.with_stats(c));
                }
            },
        }
    }
}

/// The counts only count: two buffers that differ in them alone answer every
/// request alike, and differ in them alone afterwards.
pub proof fn law_counts_do_not_steer(s: JitterModel, other: Stats, n: nat)
    ensures
        s.with_stats(other).queued() == s.queued(),
        s.with_stats(other).popped(n).1 == s.popped(n).1,
        s.with_stats(other).popped(n).0 == s.popped(n).0.with_stats(
            s.with_stats(other).popped(n).0.stats,
        ),
{
    let o = s.with_stats(other);
    if n > 0 && !s.held_back() {
        let u = s.trimmed();
        let v = o.trimmed();
        assert(v == u.with_stats(v.stats)) by {
            match (s.high_water, s.prebuffer_target, s.anchor()) {
                (Some(high), Some(target), Some(h)) => {
                    let a = JitterModel { head: Some(h), ..s };
                    lemma_skipping_uncounted(
                        a,
                        other,
                        high as nat,
                        target as nat,
                        0x1_0000_0000,
                    );
                    assert(a.with_stats(other) == (JitterModel { head: Some(h), ..o }));
                },
                _ => {},
            }
        }
        lemma_played_uncounted(u, v.stats, n);
    }
}

/// What a run of requests gets, one after the other.
pub open spec fn answers(s: JitterModel, requests: Seq<nat>) -> Seq<Seq<u32>>
    decreases requests.len(),
{
    if requests.len() == 0 {
        Seq::empty()
    } else {
        let (next, out) = s.popped(requests.first());
        seq![out] + answers(next, requests.drop_first())
    }
}

proof fn lemma_answers_uncounted(s: JitterModel, other: Stats, requests: Seq<nat>)
    ensures
        answers(s.with_stats(other), requests) == answers(s, requests),
    decreases requests.len(),
{
    if requests.len() > 0 {
        let n = requests.first();
        law_counts_do_not_steer(s, other, n);
        lemma_answers_uncounted(
            s.popped(n).0,
            s.with_stats(other).popped(n).0.stats,
            requests.drop_first(),
        );
    }
}

/// A refused packet changes nothing but the one counter of such packets, by
/// one; what is queued, and what every later request gets, stays as it was.
pub proof fn law_refused_push_only_counts(s: JitterModel, seq: u32, samples: Seq<u32>)
    requires
        s.wf(),
        s.stats.has_room(1),
        s.pushed(seq, samples).1 != PushOutcome::Stored,
        s.pushed(seq, samples).1 != PushOutcome::StreamReset,
    ensures
        ({
            let (t, outcome) = s.pushed(seq, samples);
            &&& t == s.with_stats(t.stats)
            &&& t.stats == match outcome {
                PushOutcome::Late => Stats {
                    late_drops: (s.stats.late_drops + 1) as u64,
                    ..s.stats
                },
                PushOutcome::MidReadCollision => Stats {
                    mid_read_collisions: (s.stats.mid_read_collisions + 1) as u64,
                    ..s.stats
                },
                _ => Stats { duplicates: (s.stats.duplicates + 1) as u64, ..s.stats },
            }
            &&& t.queued() == s.queued()
            &&& forall|requests: Seq<nat>| #[trigger] answers(t, requests) == answers(s, requests)
        }),
{
    let t = s.pushed(seq, samples).0;
    lemma_emptied_wf(s);
    assert(t == s.with_stats(t.stats));
    assert forall|requests: Seq<nat>| #[trigger] answers(t, requests) == answers(s, requests) by {
        lemma_answers_uncounted(s, t.stats, requests);
    }
    law_counts_do_not_steer(s, t.stats, 0);
}

/// A packet is refused as late only where it is at most a ring's length
/// behind the play head or, in prebuffer mode, behind the place where
/// playback stopped: a restarted sender is never locked out.
pub proof fn law_late_means_near(s: JitterModel, seq: u32, samples: Seq<u32>)
    requires
        s.pushed(seq, samples).1 == PushOutcome::Late,
    ensures
        match s.head {
            Some(h) => distance(seq, h) <= s.capacity,
            None => s.resync_floor matches Some(f) && seq != f && distance(seq, f) <= s.capacity,
        },
{
    lemma_truncation(s.capacity);
}

proof fn lemma_truncation(n: nat)
    ensures
        (n as u32) <= n,
{
}

/// A stored packet is in the ring with the samples that were pushed. No other
/// packet was touched, unless the sender restarted.
pub proof fn law_stored_packet_is_held(s: JitterModel, seq: u32, samples: Seq<u32>)
    requires
        s.wf(),
        s.pushed(seq, samples).1 == PushOutcome::Stored,
    ensures
        ({
            let t = s.pushed(seq, samples).0;
            &&& t.slots[t.index(seq)] == Some(Stored { seq, samples })
            &&& !s.restarted(seq) ==> forall|q: u32| #[trigger]
                s.index(q) != s.index(seq) ==> t.slots[s.index(q)] == s.slots[s.index(q)]
            &&& t.head == s.head
            &&& t.head_offset == s.head_offset
        }),
{
}

/// A burst that outruns the ring is counted: a packet that is stored over
/// another one that was still to be played adds one to the overruns. Nothing
/// else is counted when a packet is stored, and before playback starts nothing
/// is.
pub proof fn law_overwriting_is_counted(s: JitterModel, seq: u32, samples: Seq<u32>)
    requires
        s.wf(),
        s.capacity <= u32::MAX,
        s.stats.has_room(1),
        !s.restarted(seq),
        s.pushed(seq, samples).1 == PushOutcome::Stored,
    ensures
        ({
            let lost = s.head matches Some(h) && s.slots[s.index(seq)] matches Some(p) && p.seq
                != seq && distance(h, p.seq) < s.capacity;
            s.pushed(seq, samples).0.stats == (Stats {
                ring_overruns: (s.stats.ring_overruns + if lost {
                    1int
                } else {
                    0int
                }) as u64,
                ..s.stats
            })
        }),
{
}

/// After a sender restart, noticed during playback or after it stopped, the
/// ring holds the new packet alone, and playback will start with it.
pub proof fn law_restart_starts_afresh(s: JitterModel, seq: u32, samples: Seq<u32>)
    requires
        s.wf(),
        s.restarted(seq),
    ensures
        ({
            let (t, outcome) = s.pushed(seq, samples);
            &&& outcome == if s.head is Some {
                PushOutcome::StreamReset
            } else {
                PushOutcome::Stored
            }
            &&& t.head is None
            &&& t.anchor() == Some(seq)
            &&& t.holds(seq)
            &&& filled(t.slots) == 1
            &&& t.stats.sender_restarts == (s.stats.sender_restarts + 1) as u64
        }),
{
    lemma_emptied_wf(s);
    let e = s.emptied().count_restart();
    lemma_filled_update(e.slots, e.index(seq), Some(Stored { seq, samples }));
}

/// While the prebuffer is not filled a request gets silence, and nothing
/// changes but the count of such requests; once playback started, no request
/// is held back.
pub proof fn law_gate(s: JitterModel, n: nat)
    requires
        n > 0,
    ensures
        s.held_back() ==> s.popped(n).1 == silence(n) && s.popped(n).0 == (JitterModel {
            stats: Stats {
                prebuffer_holds: (s.stats.prebuffer_holds + 1) as u64,
                ..s.stats
            },
            ..s
        }),
        !s.held_back() ==> s.popped(n) == s.trimmed().played(n),
        s.head is Some ==> !s.held_back(),
        s.head is None && (s.prebuffer_target matches Some(t) && s.queued() < t) ==> s.held_back(),
{
}

/// Playback that starts again after the ring ran empty starts no earlier than
/// where it stopped.
pub proof fn law_no_replay(s: JitterModel)
    requires
        s.wf(),
        s.head is None,
    ensures
        s.resync_floor matches Some(f) ==> (s.anchor() matches Some(m) ==> m == f
            || !earlier_or_equal(m, f)),
{
}

/// When the head packet is missing and the ring is empty, a request gets
/// silence, playback stops, and the packet it stopped at is still welcome.
pub proof fn law_underrun_waits_for_the_head(s: JitterModel, h: u32, n: nat, samples: Seq<u32>)
    requires
        s.wf(),
        s.head == Some(h),
        filled(s.slots) == 0,
        n > 0,
        samples.len() == s.samples_per_packet,
    ensures
        s.popped(n).1 == silence(n),
        s.popped(n).0 == s.frozen(h),
        s.frozen(h).pushed(h, samples).1 == PushOutcome::Stored,
        s.frozen(h).pushed(h, samples).0.anchor() == Some(h),
{
    if s.holds(h) {
        lemma_filled_some(s.slots, s.index(h));
    }
    if s.frozen(h).holds(h) {
        lemma_filled_some(s.slots, s.index(h));
    }
    if s.queued() > 0 {
        lemma_queued_filled(s);
    }
    assert((JitterModel { head: Some(h), ..s }) == s);
    assert(s.trimmed() == s);
}

/// Playing `a` samples and then `b` gives the same samples, and leaves the same
/// state, as playing `a + b`.
proof fn lemma_played_splits(s: JitterModel, a: nat, b: nat)
    requires
        s.wf(),
    ensures
        s.played(a + b) == ({
            let (s1, x) = s.played(a);
            let (s2, y) = s1.played(b);
            (s2, x + y)
        }),
    decreases a,
{
    let (s1, x) = s.played(a);
    let (s2, y) = s1.played(b);
    if a == 0 {
        assert(x + y =~= y);
    } else if b == 0 {
        assert(x + y =~= x);
    } else {
        match s.anchor() {
            None => {
                assert(x + y =~= silence(a + b));
            },
            Some(h) => {
                if s.ran_empty(h) {
                    assert(x + y =~= silence(a + b));
                } else {
                    let left = (s.samples_per_packet - s.head_offset) as nat;
                    if a >= left {
                        lemma_advanced_wf(s, h, left);
                        let t = s.advanced(h, left);
                        lemma_played_splits(t, (a - left) as nat, b);
                        let piece = s.piece(h, left);
                        assert((a + b - left) as nat == (a - left) as nat + b);
                        assert(s.played(a) == (
                            t.played((a - left) as nat).0,
                            piece + t.played((a - left) as nat).1,
                        ));
                        assert(s.played(a + b) == (
                            t.played((a + b - left) as nat).0,
                            piece + t.played((a + b - left) as nat).1,
                        ));
                        assert(x + y =~= piece + (t.played((a - left) as nat).1 + y));
                    } else {
                        let c = if left < a + b {
                            left
                        } else {
                            a + b
                        };
                        let t = s.advanced(h, a);
                        assert(t == (JitterModel {
                            head: Some(h),
                            head_offset: s.head_offset + a,
                            ..s
                        }));
                        assert(t.holds(h) == s.holds(h));
                        let end = s.advanced(h, c);
                        assert(t.advanced(h, (c - a) as nat) =~= end);
                        let first = s.piece(h, a);
                        let second = t.piece(h, (c - a) as nat);
                        let both = s.piece(h, c);
                        let rest = end.played((a + b - c) as nat);
                        assert(first + second =~= both);
                        assert(t.played(0) == (t, Seq::<u32>::empty()));
                        assert(s.played(a) == (t, first + Seq::<u32>::empty()));
                        assert(t.anchor() == Some(h));
                        assert((b - (c - a)) as nat == (a + b - c) as nat);
                        assert(t.played(b) == (rest.0, second + rest.1));
                        assert(s.played(a + b) == (rest.0, both + rest.1));
                        assert(x + y =~= both + rest.1);
                    }
                }
            },
        }
    }
}

/// Playback never adds to the fill. It leaves a play head, or it ran empty.
proof fn lemma_played_drains(s: JitterModel, n: nat)
    requires
        s.wf(),
        s.anchor() is Some,
        n > 0,
    ensures
        ({
            let t = s.played(n).0;
            &&& t.queued() <= s.queued()
            &&& t.head is None ==> filled(t.slots) == 0 && t.min_pushed is None
            &&& t.prebuffer_target == s.prebuffer_target
            &&& t.high_water == s.high_water
        }),
    decreases n,
{
    let h = s.anchor()->0;
    let spp = s.samples_per_packet;
    if s.ran_empty(h) {
        assert(filled(s.slots) * spp == 0) by (nonlinear_arith)
            requires
                filled(s.slots) == 0,
        ;
        if s.queued() > 0 {
            lemma_queued_filled(s);
        }
    } else {
        let chunk = s.chunk(n);
        let t = s.advanced(h, chunk);
        lemma_advanced_wf(s, h, chunk);
        lemma_filled_update(s.slots, s.index(h), None);
        let f = filled(s.slots);
        if s.slots[s.index(h)] is Some {
            lemma_filled_some(s.slots, s.index(h));
        }
        assert((f - 1) * spp == f * spp - spp) by (nonlinear_arith);
        assert(s.holds(h) ==> f * spp >= spp) by (nonlinear_arith)
            requires
                s.holds(h) ==> f >= 1,
        ;
        assert(t.queued() <= s.queued());
        if n > chunk {
            lemma_played_drains(t, (n - chunk) as nat);
        }
    }
}

/// A request may be split in any way: asking for `a` samples and then for `b`
/// gives the same samples as asking for `a + b`, and leaves the buffer in the
/// same state, except that two requests may be counted as held back where one
/// would be. Where no prebuffer is asked for, the state is the same throughout.
pub proof fn law_playback_splits(s: JitterModel, a: nat, b: nat)
    requires
        s.wf(),
    ensures
        ({
            let (s1, x) = s.popped(a);
            let (s2, y) = s1.popped(b);
            let (whole, z) = s.popped(a + b);
            &&& z == x + y
            &&& s2 == whole.with_stats(
                Stats { prebuffer_holds: s2.stats.prebuffer_holds, ..whole.stats },
            )
            &&& s.prebuffer_target is None ==> s2 == whole
        }),
{
    let (s1, x) = s.popped(a);
    let (s2, y) = s1.popped(b);
    let (whole, z) = s.popped(a + b);
    if a == 0 {
        assert(x + y =~= y);
    } else if b == 0 {
        assert(x + y =~= x);
    } else if s.held_back() {
        assert(s1.queued() == s.queued());
        assert(x + y =~= silence(a + b));
    } else {
        let u = s.trimmed();
        lemma_trimmed_wf(s);
        lemma_played_splits(u, a, b);
        if let Some(target) = s.prebuffer_target {
            if s.head is None {
                lemma_queued_filled(s);
            }
            lemma_trimmed_anchor(s);
            lemma_played_drains(u, a);
            lemma_played_wf(u, a);
            if s1.head is None {
                assert(filled(s1.slots) * s1.samples_per_packet == 0) by (nonlinear_arith)
                    requires
                        filled(s1.slots) == 0,
                ;
                assert(s1.held_back());
                assert(s1.played(b) == (s1, silence(b)));
            } else {
                assert((JitterModel { head: s1.anchor(), ..s1 }) == s1);
                assert(s1.trimmed() == s1);
            }
        } else {
            lemma_trimmed_anchor(s);
            lemma_played_keeps_marks(u, a);
        }
    }
}

/// Trimming keeps the marks, and something to play stays something to play.
proof fn lemma_trimmed_anchor(s: JitterModel)
    ensures
        s.anchor() is Some ==> s.trimmed().anchor() is Some,
        s.trimmed().prebuffer_target == s.prebuffer_target,
        s.trimmed().high_water == s.high_water,
{
    match (s.high_water, s.prebuffer_target, s.anchor()) {
        (Some(high), Some(target), Some(h)) => {
            lemma_skipping_anchor(
                JitterModel { head: Some(h), ..s },
                high as nat,
                target as nat,
                0x1_0000_0000,
            );
        },
        _ => {},
    }
}

proof fn lemma_skipping_anchor(s: JitterModel, high: nat, target: nat, fuel: nat)
    requires
        s.head is Some,
    ensures
        s.skipping(high, target, fuel).head is Some,
        s.skipping(high, target, fuel).prebuffer_target == s.prebuffer_target,
        s.skipping(high, target, fuel).high_water == s.high_water,
    decreases fuel,
{
    if fuel > 0 && s.queued() > high {
        let next = s.skipped(s.head->0);
        if next.queued() > target {
            lemma_skipping_anchor(next, high, target, (fuel - 1) as nat);
        }
    }
}

proof fn lemma_played_keeps_marks(s: JitterModel, n: nat)
    ensures
        s.played(n).0.prebuffer_target == s.prebuffer_target,
        s.played(n).0.high_water == s.high_water,
    decreases n,
{
    if n > 0 {
        if let Some(h) = s.anchor() {
            if !s.ran_empty(h) {
                let chunk = s.chunk(n);
                lemma_played_keeps_marks(s.advanced(h, chunk), (n - chunk) as nat);
            }
        }
    }
}

/// The sequence number `i` steps after `h`.
pub open spec fn seq_after(h: u32, i: nat) -> u32 {
    ((h + i) % 0x1_0000_0000) as u32
}

/// The ring holds `packets`, with consecutive sequence numbers from `h` on.
pub open spec fn holds_run(s: JitterModel, h: u32, packets: Seq<Seq<u32>>) -> bool {
    forall|i: int|
        0 <= i < packets.len() ==> s.slots[s.index(seq_after(h, i as nat))] == Some(
            Stored { seq: seq_after(h, i as nat), samples: #[trigger] packets[i] },
        )
}

/// Packets come out in the order of their sequence numbers, whole and
/// unchanged, across the wrap of the sequence numbers too.
pub proof fn law_playback_is_in_order(s: JitterModel, h: u32, packets: Seq<Seq<u32>>)
    requires
        s.wf(),
        s.anchor() == Some(h),
        s.head_offset == 0,
        packets.len() <= 0x1_0000_0000,
        holds_run(s, h, packets),
    ensures
        s.played(packets.len() * s.samples_per_packet).1 == packets.flatten(),
    decreases packets.len(),
{
    let spp = s.samples_per_packet;
    let n = packets.len() * spp;
    if packets.len() == 0 {
        assert(n == 0) by (nonlinear_arith)
            requires
                n == packets.len() * spp,
                packets.len() == 0,
        ;
    } else {
        let tail = packets.drop_first();
        assert(n == spp + tail.len() * spp && n >= spp) by (nonlinear_arith)
            requires
                n == packets.len() * spp,
                tail.len() == packets.len() - 1,
                packets.len() >= 1,
        ;
        assert(seq_after(h, 0) == h);
        assert(s.slots[s.index(seq_after(h, 0nat))] == Some(
            Stored { seq: seq_after(h, 0nat), samples: packets[0] },
        ));
        let t = s.advanced(h, spp);
        lemma_advanced_wf(s, h, spp);
        assert forall|i: int| 0 <= i < tail.len() implies t.slots[t.index(
            seq_after(next_seq(h), i as nat),
        )] == Some(
            Stored { seq: seq_after(next_seq(h), i as nat), samples: #[trigger] tail[i] },
        ) by {
            assert(packets[i + 1] == tail[i]);
            assert(seq_after(next_seq(h), i as nat) == seq_after(h, (i + 1) as nat));
            assert(seq_after(h, (i + 1) as nat) != h);
        }
        assert(holds_run(t, next_seq(h), tail));
        law_playback_is_in_order(t, next_seq(h), tail);
        assert(packets[0].subrange(0, spp as int) =~= packets[0]);
        assert(s.played(n) == (
            t.played((n - spp) as nat).0,
            packets[0] + t.played((n - spp) as nat).1,
        ));
        assert(packets.first() == packets[0]);
    }
}

/// No two of `n` consecutive packets from `h` on share a slot. This can fail
/// only where the sequence numbers start over among them, or where they are
/// more than the ring has slots.
pub open spec fn apart(capacity: nat, h: u32, n: nat) -> bool {
    forall|i: nat, j: nat|
        i < j < n ==> #[trigger] seq_after(h, i) as int % capacity as int != #[trigger] seq_after(
            h,
            j,
        ) as int % capacity as int
}

/// A run that is no longer than the ring keeps its packets apart, as long as
/// the sequence numbers do not start over within it, or start over where the
/// ring does.
pub proof fn law_ring_keeps_a_run_apart(capacity: nat, h: u32, n: nat)
    requires
        capacity > 0,
        n <= capacity,
        h + n <= 0x1_0000_0000 || 0x1_0000_0000nat % capacity == 0,
    ensures
        apart(capacity, h, n),
{
    assert forall|i: nat, j: nat| i < j < n implies #[trigger] seq_after(h, i) as int
        % capacity as int != #[trigger] seq_after(h, j) as int % capacity as int by {
        let c = capacity as int;
        let a = h + i;
        let b = h + j;
        if h + n > 0x1_0000_0000 {
            let k = 0x1_0000_0000int / c;
            vstd::arithmetic::div_mod::lemma_fundamental_div_mod(0x1_0000_0000, c);
            assert(k > 0) by (nonlinear_arith)
                requires
                    c * k == 0x1_0000_0000,
                    c > 0,
            ;
            vstd::arithmetic::div_mod::lemma_mod_mod(a, c, k);
            vstd::arithmetic::div_mod::lemma_mod_mod(b, c, k);
        }
        assert(seq_after(h, i) as int % c == a % c && seq_after(h, j) as int % c == b % c);
        vstd::arithmetic::div_mod::lemma_fundamental_div_mod(a, c);
        vstd::arithmetic::div_mod::lemma_fundamental_div_mod(b, c);
        if a % c == b % c {
            let d = b / c - a / c;
            assert(b - a == c * d) by (nonlinear_arith)
                requires
                    a == c * (a / c) + a % c,
                    b == c * (b / c) + b % c,
                    a % c == b % c,
                    d == b / c - a / c,
            ;
            assert(false) by (nonlinear_arith)
                requires
                    0 < b - a < c,
                    b - a == c * d,
            ;
        }
    }
}

/// The packets number `order[0]`, `order[1]` and so on of a run from `h` on
/// arrive one after the other.
pub open spec fn arrived(
    s: JitterModel,
    h: u32,
    packets: Seq<Seq<u32>>,
    order: Seq<nat>,
) -> JitterModel
    decreases order.len(),
{
    if order.len() == 0 {
        s
    } else {
        arrived(s, h, packets, order.drop_last()).pushed(
            seq_after(h, order.last()),
            packets[order.last() as int],
        ).0
    }
}

/// The order of two packets of a run is that of their numbers.
proof fn lemma_run_order(h: u32, i: nat, j: nat)
    requires
        i < 0x7fff_ffff,
        j < 0x7fff_ffff,
    ensures
        earlier_or_equal(seq_after(h, i), seq_after(h, j)) <==> i <= j,
{
}

/// What the buffer holds after some packets of a run arrived: those packets,
/// and it will start with the earliest of them.
spec fn holds_some(t: JitterModel, h: u32, packets: Seq<Seq<u32>>, order: Seq<nat>) -> bool {
    &&& t.head is None
    &&& filled(t.slots) == order.to_set().len()
    &&& t.resync_floor is None
    &&& forall|i: nat|
        i < packets.len() ==> t.slots[t.index(#[trigger] seq_after(h, i))] == if order.contains(i) {
            Some(Stored { seq: seq_after(h, i), samples: packets[i as int] })
        } else {
            None
        }
    &&& order.len() > 0 ==> exists|m: nat|
        #![trigger order.contains(m)]
        order.contains(m) && t.min_pushed == Some(seq_after(h, m)) && forall|i: nat| #[trigger]
            order.contains(i) ==> m <= i
    &&& order.len() == 0 ==> t.min_pushed is None
}

proof fn lemma_arrived(s: JitterModel, h: u32, packets: Seq<Seq<u32>>, order: Seq<nat>)
    requires
        s.wf(),
        s == JitterModel::fresh(
            s.samples_per_packet,
            s.capacity,
            s.prebuffer_target,
            s.high_water,
        ),
        packets.len() < 0x7fff_ffff,
        forall|i: int| 0 <= i < packets.len() ==> (#[trigger] packets[i]).len() == s.samples_per_packet,
        forall|k: int| 0 <= k < order.len() ==> #[trigger] order[k] < packets.len(),
        apart(s.capacity, h, packets.len()),
    ensures
        ({
            let t = arrived(s, h, packets, order);
            &&& t.wf()
            &&& t.samples_per_packet == s.samples_per_packet
            &&& t.capacity == s.capacity
            &&& t.prebuffer_target == s.prebuffer_target
            &&& t.high_water == s.high_water
            &&& t.stats.silence_insertions == s.stats.silence_insertions
            &&& holds_some(t, h, packets, order)
        }),
    decreases order.len(),
{
    let t = arrived(s, h, packets, order);
    if order.len() == 0 {
        assert forall|i: nat| i < packets.len() implies !order.contains(i) by {}
        lemma_filled_none(t.slots);
        assert(order.to_set() =~= Set::<nat>::empty());
    } else {
        let before = order.drop_last();
        let k = order.last();
        assert(order[order.len() - 1] == k);
        assert forall|j: int| 0 <= j < before.len() implies #[trigger] before[j] < packets.len() by {
            assert(before[j] == order[j]);
        }
        lemma_arrived(s, h, packets, before);
        let u = arrived(s, h, packets, before);
        let seq = seq_after(h, k);
        law_push_keeps_wf(u, seq, packets[k as int]);
        assert forall|i: nat| order.contains(i) <==> before.contains(i) || i == k by {
            if before.contains(i) {
                let j = before.index_of(i);
                assert(order[j] == i);
            }
            if order.contains(i) {
                let j = order.index_of(i);
                if j < before.len() {
                    assert(before[j] == i);
                }
            }
            if i == k {
                assert(order[order.len() - 1] == i);
            }
        }
        assert(u.slots[u.index(seq_after(h, k))] == if before.contains(k) {
            Some(Stored { seq: seq_after(h, k), samples: packets[k as int] })
        } else {
            None
        });
        assert(order.to_set() =~= before.to_set().insert(k));
        vstd::seq_lib::seq_to_set_is_finite(before);
        lemma_filled_update(
            u.slots,
            u.index(seq),
            Some(Stored { seq, samples: packets[k as int] }),
        );
        assert forall|i: nat| i < packets.len() implies t.slots[t.index(
            #[trigger] seq_after(h, i),
        )] == if order.contains(i) {
            Some(Stored { seq: seq_after(h, i), samples: packets[i as int] })
        } else {
            None
        } by {
            if i < k {
                assert(seq_after(h, i) as int % s.capacity as int != seq_after(h, k) as int
                    % s.capacity as int);
            }
            if k < i {
                assert(seq_after(h, k) as int % s.capacity as int != seq_after(h, i) as int
                    % s.capacity as int);
            }
        }
        if before.len() == 0 {
            assert(!before.contains(k));
            assert(order.contains(k));
            assert(t.min_pushed == Some(seq));
            assert forall|i: nat| #[trigger] order.contains(i) implies k <= i by {
                assert(!before.contains(i));
            }
        } else {
            let m = choose|m: nat|
                #![trigger before.contains(m)]
                before.contains(m) && u.min_pushed == Some(seq_after(h, m)) && forall|i: nat| #[trigger]
                    before.contains(i) ==> m <= i;
            assert(order[before.index_of(m)] == m);
            lemma_run_order(h, k, m);
            let least = if k <= m && !before.contains(k) {
                k
            } else {
                m
            };
            assert(order.contains(least));
            assert(t.min_pushed == Some(seq_after(h, least)));
            assert forall|i: nat| #[trigger] order.contains(i) implies least <= i by {
                assert(before.contains(i) || i == k);
            }
        }
    }
}

/// Arriving packets leave the shape and the marks of the ring alone.
pub proof fn lemma_arrived_shape(
    s: JitterModel,
    h: u32,
    packets: Seq<Seq<u32>>,
    order: Seq<nat>,
)
    ensures
        arrived(s, h, packets, order).samples_per_packet == s.samples_per_packet,
        arrived(s, h, packets, order).capacity == s.capacity,
        arrived(s, h, packets, order).high_water == s.high_water,
    decreases order.len(),
{
    if order.len() > 0 {
        lemma_arrived_shape(s, h, packets, order.drop_last());
    }
}

/// The numbers below `n`.
spec fn below(n: nat) -> Set<nat> {
    Set::new(|i: nat| i < n)
}

proof fn lemma_below(n: nat)
    ensures
        below(n).finite(),
        below(n).len() == n,
    decreases n,
{
    if n == 0 {
        assert(below(n) =~= Set::empty());
    } else {
        lemma_below((n - 1) as nat);
        assert(below(n) =~= below((n - 1) as nat).insert((n - 1) as nat));
    }
}

/// Reordering is undone: in whatever order the packets of a run arrive, and
/// however often each, they come out in the order of their sequence numbers,
/// whole and unchanged. The run must fill the prebuffer, or playback does not
/// start yet, and must not go above the high-water mark, or packets are
/// skipped.
pub proof fn law_reordering_is_undone(
    samples_per_packet: nat,
    capacity: nat,
    prebuffer_target: Option<usize>,
    high_water: Option<usize>,
    h: u32,
    packets: Seq<Seq<u32>>,
    order: Seq<nat>,
)
    requires
        samples_per_packet > 0,
        capacity > 0,
        prebuffer_target matches Some(t) ==> t > 0,
        high_water matches Some(w) ==> w > 0,
        0 < packets.len() < 0x7fff_ffff,
        forall|i: int| 0 <= i < packets.len() ==> (#[trigger] packets[i]).len() == samples_per_packet,
        forall|k: int| 0 <= k < order.len() ==> #[trigger] order[k] < packets.len(),
        forall|i: nat| i < packets.len() ==> #[trigger] order.contains(i),
        apart(capacity, h, packets.len()),
        prebuffer_target matches Some(t) ==> t <= packets.len() * samples_per_packet,
        high_water matches Some(w) ==> (prebuffer_target matches Some(t) ==> (w > t
            ==> packets.len() * samples_per_packet <= w)),
    ensures
        ({
            let s = arrived(
                JitterModel::fresh(samples_per_packet, capacity, prebuffer_target, high_water),
                h,
                packets,
                order,
            );
            &&& s.queued() == packets.len() * samples_per_packet
            &&& s.popped(packets.len() * samples_per_packet).1 == packets.flatten()
        }),
{
    let fresh = JitterModel::fresh(samples_per_packet, capacity, prebuffer_target, high_water);
    lemma_fresh_wf(samples_per_packet, capacity, prebuffer_target, high_water);
    lemma_arrived(fresh, h, packets, order);
    let s = arrived(fresh, h, packets, order);
    assert(order.contains(0));
    assert(order.len() > 0);
    let m = choose|m: nat|
        #![trigger order.contains(m)]
        order.contains(m) && s.min_pushed == Some(seq_after(h, m)) && forall|i: nat| #[trigger]
            order.contains(i) ==> m <= i;
    assert(m == 0);
    assert(seq_after(h, 0) == h);
    lemma_below(packets.len());
    assert(order.to_set() =~= below(packets.len()));
    let anchored = JitterModel { head: Some(h), ..s };
    assert(s.queued() == packets.len() * samples_per_packet);
    assert(anchored.queued() == s.queued());
    let u = s.trimmed();
    assert(u == s || u == anchored);
    assert forall|i: int| 0 <= i < packets.len() implies u.slots[u.index(
        seq_after(h, i as nat),
    )] == Some(Stored { seq: seq_after(h, i as nat), samples: #[trigger] packets[i] }) by {
        assert(order.contains(i as nat));
    }
    assert(holds_run(u, h, packets));
    law_playback_is_in_order(u, h, packets);
    assert(packets.len() * samples_per_packet > 0) by (nonlinear_arith)
        requires
            packets.len() > 0,
            samples_per_packet > 0,
    ;
}

/// What is heard of a run of which only the packets in `present` arrived:
/// silence stands in for the others.
pub open spec fn heard(
    samples_per_packet: nat,
    packets: Seq<Seq<u32>>,
    present: Set<nat>,
) -> Seq<Seq<u32>> {
    Seq::new(
        packets.len(),
        |i: int|
            if present.contains(i as nat) {
                packets[i]
            } else {
                silence(samples_per_packet)
            },
    )
}

/// The members from `k` on.
spec fn from_on(present: Set<nat>, k: nat) -> Set<nat> {
    present.filter(|i: nat| i >= k)
}

/// Playback of a run with gaps, from its packet number `k` on.
proof fn lemma_play_gaps(
    s: JitterModel,
    h: u32,
    packets: Seq<Seq<u32>>,
    present: Set<nat>,
    k: nat,
)
    requires
        s.wf(),
        s.anchor() == Some(seq_after(h, k)),
        s.head_offset == 0,
        k <= packets.len() < 0x7fff_ffff,
        packets.len() > 0,
        apart(s.capacity, h, packets.len()),
        present.finite(),
        present.contains((packets.len() - 1) as nat),
        filled(s.slots) == from_on(present, k).len(),
        forall|i: int|
            0 <= i < packets.len() ==> (#[trigger] packets[i]).len() == s.samples_per_packet,
        forall|i: nat|
            k <= i < packets.len() ==> s.slots[s.index(#[trigger] seq_after(h, i))]
                == if present.contains(i) {
                Some(Stored { seq: seq_after(h, i), samples: packets[i as int] })
            } else {
                None
            },
        forall|i: nat| #[trigger] present.contains(i) ==> i < packets.len(),
        s.stats.silence_insertions + packets.len() - k <= u64::MAX,
    ensures
        ({
            let (end, out) = s.played(((packets.len() - k) * s.samples_per_packet) as nat);
            &&& out == heard(s.samples_per_packet, packets, present).skip(k as int).flatten()
            &&& end.stats.silence_insertions == s.stats.silence_insertions + packets.len() - k
                - from_on(present, k).len()
        }),
    decreases packets.len() - k,
{
    let spp = s.samples_per_packet;
    let n = packets.len();
    let voices = heard(spp, packets, present);
    let total = ((n - k) * spp) as nat;
    if k == n {
        assert(total == 0) by (nonlinear_arith)
            requires
                total == (n - k) * spp,
                n == k,
        ;
        assert(from_on(present, k) =~= Set::<nat>::empty());
        assert(voices.skip(k as int) =~= Seq::empty());
    } else {
        let g = seq_after(h, k);
        let left = ((n - (k + 1)) * spp) as nat;
        assert(total == spp + left && left >= 0) by (nonlinear_arith)
            requires
                total == (n - k) * spp,
                left == (n - (k + 1)) * spp,
                n >= k + 1,
        ;
        assert((n - (k + 1)) * spp >= 0) by (nonlinear_arith)
            requires
                n >= k + 1,
        ;
        assert(from_on(present, k).contains((n - 1) as nat));
        assert(from_on(present, k + 1) =~= from_on(present, k).remove(k));
        lemma_filled_update(s.slots, s.index(g), None);
        assert(s.slots[s.index(seq_after(h, k))] is Some <==> present.contains(k));
        assert(!s.ran_empty(g));
        assert(s.chunk(total) == spp);
        let t = s.advanced(g, spp);
        lemma_advanced_wf(s, g, spp);
        assert(next_seq(g) == seq_after(h, k + 1));
        assert forall|i: nat| k + 1 <= i < n implies t.slots[t.index(#[trigger] seq_after(h, i))]
            == if present.contains(i) {
            Some(Stored { seq: seq_after(h, i), samples: packets[i as int] })
        } else {
            None
        } by {
            assert(seq_after(h, k) as int % s.capacity as int != seq_after(h, i) as int
                % s.capacity as int);
        }
        lemma_play_gaps(t, h, packets, present, k + 1);
        let rest = voices.skip(k as int);
        assert(rest.drop_first() =~= voices.skip((k + 1) as int));
        assert(rest.first() == voices[k as int]);
        if present.contains(k) {
            assert(packets[k as int].subrange(0, spp as int) =~= packets[k as int]);
        }
        assert(s.piece(g, spp) =~= voices[k as int]);
        assert(s.played(total) == (t.played(left).0, s.piece(g, spp) + t.played(left).1));
    }
}

/// Gaps are heard as silence: where the packets of a run arrive in any order,
/// some repeatedly and some never, those that arrived come out in the order of
/// their sequence numbers, and silence for as long as a packet lasts stands in
/// for each of the others, which are counted. What comes out depends on which
/// packets arrived, not on the order. The first and the last packet of the run
/// arrived: the run starts and ends there.
pub proof fn law_gaps_are_silence(
    samples_per_packet: nat,
    capacity: nat,
    prebuffer_target: Option<usize>,
    high_water: Option<usize>,
    h: u32,
    packets: Seq<Seq<u32>>,
    order: Seq<nat>,
)
    requires
        samples_per_packet > 0,
        capacity > 0,
        prebuffer_target matches Some(t) ==> t > 0,
        high_water matches Some(w) ==> w > 0,
        0 < packets.len() < 0x7fff_ffff,
        forall|i: int| 0 <= i < packets.len() ==> (#[trigger] packets[i]).len() == samples_per_packet,
        forall|k: int| 0 <= k < order.len() ==> #[trigger] order[k] < packets.len(),
        order.contains(0),
        order.contains((packets.len() - 1) as nat),
        apart(capacity, h, packets.len()),
        prebuffer_target matches Some(t) ==> t <= order.to_set().len() * samples_per_packet,
        high_water matches Some(w) ==> (prebuffer_target matches Some(t) ==> (w > t
            ==> order.to_set().len() * samples_per_packet <= w)),
    ensures
        ({
            let s = arrived(
                JitterModel::fresh(samples_per_packet, capacity, prebuffer_target, high_water),
                h,
                packets,
                order,
            );
            let (end, out) = s.popped(packets.len() * samples_per_packet);
            &&& s.queued() == order.to_set().len() * samples_per_packet
            &&& out == heard(samples_per_packet, packets, order.to_set()).flatten()
            &&& end.stats.silence_insertions == packets.len() - order.to_set().len()
        }),
{
    let fresh = JitterModel::fresh(samples_per_packet, capacity, prebuffer_target, high_water);
    lemma_fresh_wf(samples_per_packet, capacity, prebuffer_target, high_water);
    lemma_arrived(fresh, h, packets, order);
    let s = arrived(fresh, h, packets, order);
    let present = order.to_set();
    vstd::seq_lib::seq_to_set_is_finite(order);
    assert(order.len() > 0);
    let m = choose|m: nat|
        #![trigger order.contains(m)]
        order.contains(m) && s.min_pushed == Some(seq_after(h, m)) && forall|i: nat| #[trigger]
            order.contains(i) ==> m <= i;
    assert(m == 0);
    assert(seq_after(h, 0) == h);
    let anchored = JitterModel { head: Some(h), ..s };
    assert(anchored.queued() == s.queued());
    let u = s.trimmed();
    assert(u == s || u == anchored);
    assert(from_on(present, 0) =~= present);
    assert forall|i: nat| #[trigger] present.contains(i) implies i < packets.len() by {
        assert(order[order.index_of(i)] == i);
    }
    assert forall|i: nat| i < packets.len() implies u.slots[u.index(#[trigger] seq_after(h, i))]
        == if present.contains(i) {
        Some(Stored { seq: seq_after(h, i), samples: packets[i as int] })
    } else {
        None
    } by {
        assert(present.contains(i) <==> order.contains(i));
    }
    lemma_play_gaps(u, h, packets, present, 0);
    assert(((packets.len() - 0) * samples_per_packet) as nat == packets.len() * samples_per_packet);
    let voices = heard(samples_per_packet, packets, present);
    assert(voices.skip(0) =~= voices);
    assert(packets.len() * samples_per_packet > 0) by (nonlinear_arith)
        requires
            packets.len() > 0,
            samples_per_packet > 0,
    ;
}

/// What is pushed into a fresh buffer that asks for no prebuffer is what the next
/// request of a packet's length gets.
pub proof fn law_push_then_pop(
    samples_per_packet: nat,
    capacity: nat,
    seq: u32,
    samples: Seq<u32>,
)
    requires
        samples_per_packet > 0,
        capacity > 0,
        samples.len() == samples_per_packet,
    ensures
        ({
            let s = JitterModel::fresh(samples_per_packet, capacity, None, None);
            let (t, outcome) = s.pushed(seq, samples);
            outcome == PushOutcome::Stored && t.popped(samples_per_packet).1 == samples
        }),
{
    let s = JitterModel::fresh(samples_per_packet, capacity, None, None);
    lemma_filled_none(s.slots);
    assert(s.wf());
    let t = s.pushed(seq, samples).0;
    law_push_keeps_wf(s, seq, samples);
    let run = seq![samples];
    assert(seq_after(seq, 0) == seq);
    assert(holds_run(t, seq, run));
    law_playback_is_in_order(t, seq, run);
    assert(run.len() * samples_per_packet == samples_per_packet) by (nonlinear_arith)
        requires
            run.len() == 1,
    ;
    assert(run.drop_first() =~= Seq::empty());
    assert(run.flatten() =~= samples) by {
        reveal_with_fuel(Seq::flatten, 2);
    }
}

/// The modular order: a number comes before the next one, and never two
/// different numbers each before the other.
pub proof fn law_modular_order(a: u32, b: u32)
    ensures
        earlier_or_equal(a, a),
        earlier_or_equal(a, next_seq(a)),
        a != b && earlier_or_equal(a, b) ==> !earlier_or_equal(b, a),
{
}

/// Sequence numbers turn: after the highest comes 0, ways are counted forward, and
/// of two numbers the one is earlier that reaches the other in less than half a
/// turn.
pub proof fn law_sequence_numbers_turn(a: u32, b: u32, k: nat)
    ensures
        next_seq(a) == (a + 1) % 0x1_0000_0000,
        distance(a, b) == (b - a) % 0x1_0000_0000,
        earlier_or_equal(a, b) <==> (b - a) % 0x1_0000_0000 < 0x7fff_ffff,
        seq_after(a, k) == (a + k) % 0x1_0000_0000,
{
}

/// What becomes of a packet, for every state and every sequence number. During
/// playback a packet less than half a turn behind the play head, or the head packet
/// once it is partly played, is late up to a ring's length and a restart beyond it.
/// One in the slot that is being read is refused. In prebuffer mode the same goes
/// for what comes before the place where playback stopped. Any other packet is a
/// duplicate where the ring holds it, and is stored where it does not.
pub proof fn law_what_becomes_of_a_packet(s: JitterModel, seq: u32, samples: Seq<u32>)
    requires
        s.wf(),
        s.capacity <= 0xffff_ffff,
    ensures
        ({
            let outcome = s.pushed(seq, samples).1;
            let slot = s.slots[seq as int % s.capacity as int];
            let known = slot matches Some(p) && p.seq == seq;
            match s.head {
                Some(h) => {
                    let behind = (h - seq) % 0x1_0000_0000;
                    let past = behind < 0x7fff_ffff && (behind > 0 || s.head_offset > 0);
                    let busy = s.head_offset > 0 && seq as int % s.capacity as int == h as int
                        % s.capacity as int;
                    &&& outcome == PushOutcome::Late <==> past && behind <= s.capacity
                    &&& outcome == PushOutcome::StreamReset <==> past && behind > s.capacity
                    &&& outcome == PushOutcome::MidReadCollision <==> !past && busy
                    &&& outcome == PushOutcome::Duplicate <==> !past && !busy && known
                    &&& outcome == PushOutcome::Stored <==> !past && !busy && !known
                },
                None => match s.resync_floor {
                    Some(f) => {
                        let behind = (f - seq) % 0x1_0000_0000;
                        let past = 0 < behind < 0x7fff_ffff;
                        &&& outcome == PushOutcome::Late <==> past && behind <= s.capacity
                        &&& outcome == PushOutcome::Duplicate <==> !past && known
                        &&& outcome == PushOutcome::Stored <==> (past && behind > s.capacity) || (
                        !past && !known)
                    },
                    None => outcome == if known {
                        PushOutcome::Duplicate
                    } else {
                        PushOutcome::Stored
                    },
                },
            }
        }),
{
    lemma_emptied_wf(s);
}

/// Before playback starts it is settled where it will: at the earliest packet
/// stored so far. During playback it goes on from the play head.
pub proof fn law_playback_starts_with_the_earliest(s: JitterModel, seq: u32, samples: Seq<u32>)
    requires
        s.wf(),
        !s.restarted(seq),
        s.pushed(seq, samples).1 == PushOutcome::Stored,
    ensures
        ({
            let t = s.pushed(seq, samples).0;
            match (s.head, s.min_pushed) {
                (Some(h), _) => t.head == Some(h) && t.anchor() == Some(h),
                (None, None) => t.head is None && t.anchor() == Some(seq),
                (None, Some(m)) => t.head is None && t.anchor() == if (m - seq) % 0x1_0000_0000
                    < 0x7fff_ffff {
                    Some(seq)
                } else {
                    Some(m)
                },
            }
        }),
{
}

proof fn lemma_filled_is_a_count(slots: Seq<Option<Stored>>)
    ensures
        filled(slots) == slots.filter(|x: Option<Stored>| x is Some).len(),
    decreases slots.len(),
{
    reveal(Seq::filter);
    if slots.len() > 0 {
        lemma_filled_is_a_count(slots.drop_last());
    }
}

/// What is queued: a packet's worth for every slot that holds one, less what was
/// handed out of the packet that is being played.
pub proof fn law_what_is_queued(s: JitterModel)
    requires
        s.wf(),
    ensures
        ({
            let n = s.slots.filter(|x: Option<Stored>| x is Some).len();
            let playing = s.head matches Some(h) && s.slots[h as int % s.capacity as int] matches Some(
                p,
            ) && p.seq == h;
            s.queued() + if playing {
                s.head_offset
            } else {
                0
            } == n * s.samples_per_packet
        }),
{
    lemma_filled_is_a_count(s.slots);
    if let Some(h) = s.head {
        if s.holds(h) {
            lemma_filled_some(s.slots, s.index(h));
            let f = filled(s.slots);
            let n = s.samples_per_packet;
            assert(f * n >= n) by (nonlinear_arith)
                requires
                    f >= 1,
            ;
        }
    }
}

/// A stored packet adds its samples to what is queued, unless it takes the place of
/// another one.
pub proof fn law_stored_packet_is_queued(s: JitterModel, seq: u32, samples: Seq<u32>)
    requires
        s.wf(),
        !s.restarted(seq),
        s.pushed(seq, samples).1 == PushOutcome::Stored,
    ensures
        s.pushed(seq, samples).0.queued() == s.queued() + if s.slots[seq as int
            % s.capacity as int] is None {
            s.samples_per_packet
        } else {
            0
        },
{
    let t = s.pushed(seq, samples).0;
    let x = Some(Stored { seq, samples });
    lemma_filled_update(s.slots, s.index(seq), x);
    let f = filled(s.slots);
    let n = s.samples_per_packet;
    assert((f + 1) * n == f * n + n) by (nonlinear_arith);
    if let Some(h) = s.head {
        if s.holds(h) {
            lemma_filled_some(s.slots, s.index(h));
            assert(f * n >= n) by (nonlinear_arith)
                requires
                    f >= 1,
            ;
        }
    }
}

/// A request that does not reach beyond the head packet gets the next samples of
/// it, or as much silence where it is missing while others are there. At the end of
/// the packet its slot is free and the play head on the next one, and only then is
/// a missing packet counted.
pub proof fn law_playing_the_head_packet(s: JitterModel, h: u32, n: nat)
    requires
        s.wf(),
        s.head == Some(h),
        s.high_water matches Some(high) ==> s.queued() <= high,
        0 < n <= s.samples_per_packet - s.head_offset,
        exists|i: int| 0 <= i < s.slots.len() && #[trigger] s.slots[i] is Some,
        s.stats.silence_insertions < u64::MAX,
    ensures
        ({
            let (t, out) = s.popped(n);
            let at = h as int % s.capacity as int;
            let there = s.slots[at] matches Some(p) && p.seq == h;
            &&& out.len() == n
            &&& forall|i: int|
                0 <= i < n ==> #[trigger] out[i] == if there {
                    s.slots[at]->0.samples[s.head_offset + i]
                } else {
                    0u32
                }
            &&& t == if s.head_offset + n < s.samples_per_packet {
                JitterModel { head_offset: s.head_offset + n, ..s }
            } else {
                JitterModel {
                    head: Some(((h + 1) % 0x1_0000_0000) as u32),
                    head_offset: 0,
                    slots: s.slots.update(at, None),
                    stats: Stats {
                        silence_insertions: (s.stats.silence_insertions + if there {
                            0int
                        } else {
                            1int
                        }) as u64,
                        ..s.stats
                    },
                    ..s
                }
            }
        }),
{
    let i = choose|i: int| 0 <= i < s.slots.len() && #[trigger] s.slots[i] is Some;
    lemma_filled_some(s.slots, i);
    assert(s.trimmed() == s);
    assert(s.chunk(n) == n);
    let next = s.advanced(h, n);
    assert(next.played(0) == (next, Seq::<u32>::empty()));
    assert(s.played(n).1 =~= s.piece(h, n));
}

/// Where the ring is empty a request during playback gets silence. Playback stops,
/// and it is remembered where.
pub proof fn law_playback_stops_on_an_empty_ring(s: JitterModel, h: u32, n: nat)
    requires
        s.wf(),
        s.head == Some(h),
        n > 0,
        forall|i: int| 0 <= i < s.slots.len() ==> #[trigger] s.slots[i] is None,
        s.stats.underrun_resyncs < u64::MAX,
    ensures
        ({
            let (t, out) = s.popped(n);
            &&& out == Seq::new(n, |i: int| 0u32)
            &&& t.head is None
            &&& t.head_offset == 0
            &&& t.min_pushed is None
            &&& t.resync_floor == Some(h)
            &&& t.slots == s.slots
            &&& t.stats == (Stats {
                underrun_resyncs: (s.stats.underrun_resyncs + 1) as u64,
                ..s.stats
            })
        }),
{
    lemma_filled_none(s.slots);
    assert(s.queued() == 0) by {
        assert(0 * s.samples_per_packet == 0) by (nonlinear_arith);
    }
    assert(s.trimmed() == s);
}

/// A new buffer holds nothing, waits for its first packet, and has counted nothing.
pub proof fn law_new_buffer_is_empty(
    samples_per_packet: nat,
    capacity: nat,
    target: Option<usize>,
    high: Option<usize>,
)
    ensures
        ({
            let s = JitterModel::fresh(samples_per_packet, capacity, target, high);
            &&& s.samples_per_packet == samples_per_packet
            &&& s.capacity == capacity == s.slots.len()
            &&& forall|i: int| 0 <= i < capacity ==> #[trigger] s.slots[i] is None
            &&& s.head is None && s.min_pushed is None && s.resync_floor is None
            &&& s.head_offset == 0
            &&& s.prebuffer_target == target && s.high_water == high
            &&& s.queued() == 0
            &&& s.anchor() is None
            &&& s.stats.late_drops == 0 && s.stats.duplicates == 0 && s.stats.silence_insertions
                == 0 && s.stats.mid_read_collisions == 0 && s.stats.prebuffer_holds == 0
            &&& s.stats.ring_overruns == 0 && s.stats.sender_restarts == 0 && s.stats.latency_trims
                == 0 && s.stats.underrun_resyncs == 0
        }),
{
    let s = JitterModel::fresh(samples_per_packet, capacity, target, high);
    lemma_filled_none(s.slots);
    assert(0 * samples_per_packet == 0) by (nonlinear_arith);
}

/// `t` is `s` without the packets up to `k` steps from the play head `h`, and with
/// the play head after these.
pub open spec fn without_the_first(s: JitterModel, h: u32, k: nat, t: JitterModel) -> bool {
    &&& t.capacity == s.capacity
    &&& t.slots.len() == s.slots.len()
    &&& t.head == Some(((h + k) % 0x1_0000_0000) as u32)
    &&& t.stats.latency_trims == s.stats.latency_trims + k
    &&& t.head_offset == if k > 0 {
        0
    } else {
        s.head_offset
    }
    &&& forall|i: int|
        0 <= i < s.slots.len() ==> #[trigger] t.slots[i] == if s.slots[i] matches Some(p) && (p.seq
            - h) % 0x1_0000_0000 < k {
            None
        } else {
            s.slots[i]
        }
}

proof fn lemma_without_one_more(s: JitterModel, next: JitterModel, h: u32, k: nat, t: JitterModel)
    requires
        k < 0x1_0000_0000,
        next == s.skipped(h),
        next.slots.len() == s.slots.len(),
        s.stats.latency_trims < u64::MAX,
        forall|i: int|
            0 <= i < s.slots.len() ==> #[trigger] next.slots[i] == if s.slots[i] matches Some(p) && (
            p.seq - h) % 0x1_0000_0000 < 1 {
                None
            } else {
                s.slots[i]
            },
        without_the_first(next, next_seq(h), k, t),
    ensures
        without_the_first(s, h, k + 1, t),
{
    let h1 = next_seq(h);
    assert forall|i: int| 0 <= i < s.slots.len() implies #[trigger] t.slots[i]
        == if s.slots[i] matches Some(p) && (p.seq - h) % 0x1_0000_0000 < k + 1 {
        None
    } else {
        s.slots[i]
    } by {
        let x = next.slots[i];
        if let Some(p) = s.slots[i] {
            if p.seq != h {
                assert((p.seq - h1) % 0x1_0000_0000 == (p.seq - h) % 0x1_0000_0000 - 1);
                assert(x == s.slots[i]);
            }
        }
    }
    assert((h1 + k) % 0x1_0000_0000 == (h + (k + 1)) % 0x1_0000_0000);
}

proof fn lemma_skipping_drops_the_first(s: JitterModel, h: u32, high: nat, target: nat, fuel: nat)
    requires
        s.wf(),
        s.head == Some(h),
        fuel <= 0x1_0000_0000,
        s.stats.latency_trims + fuel <= u64::MAX,
    ensures
        exists|k: nat|
            k <= fuel && #[trigger] without_the_first(s, h, k, s.skipping(high, target, fuel)),
    decreases fuel,
{
    let t = s.skipping(high, target, fuel);
    if fuel == 0 || s.queued() <= high {
        assert(without_the_first(s, h, 0, t));
    } else {
        let next = s.skipped(h);
        let h1 = next_seq(h);
        assert forall|i: int| 0 <= i < s.slots.len() implies #[trigger] next.slots[i]
            == if s.slots[i] matches Some(p) && (p.seq - h) % 0x1_0000_0000 < 1 {
            None
        } else {
            s.slots[i]
        } by {
            if let Some(p) = s.slots[i] {
                assert(s.index(p.seq) == i);
                if p.seq == h {
                    assert(s.holds(h));
                }
            }
        }
        if next.queued() <= target {
            assert(without_the_first(s, h, 1, t));
        } else {
            lemma_filled_update(s.slots, s.index(h), None);
            let f = (fuel - 1) as nat;
            lemma_skipping_drops_the_first(next, h1, high, target, f);
            let k = choose|k: nat|
                k <= f && #[trigger] without_the_first(next, h1, k, next.skipping(high, target, f));
            assert(t == next.skipping(high, target, f));
            lemma_without_one_more(s, next, h, k, t);
        }
    }
}

/// Trimming skips packets from the play head on, and no others: what it leaves is
/// what comes after these, each packet in its place, and as many are counted as
/// were passed over. It stops within a packet of the high-water mark.
pub proof fn law_trimming_skips_the_oldest(s: JitterModel, h: u32, high: usize, target: usize)
    requires
        s.wf(),
        s.anchor() == Some(h),
        s.high_water == Some(high),
        s.prebuffer_target == Some(target),
        high > target,
        s.stats.latency_trims + 0x1_0000_0000 <= u64::MAX,
    ensures
        exists|k: nat| #[trigger] without_the_first(s, h, k, s.trimmed()),
        s.queued() > high ==> s.trimmed().queued() + s.samples_per_packet > high,
{
    let a = JitterModel { head: Some(h), ..s };
    assert(a.wf());
    lemma_skipping_drops_the_first(a, h, high as nat, target as nat, 0x1_0000_0000);
    let k = choose|k: nat|
        k <= 0x1_0000_0000 && #[trigger] without_the_first(
            a,
            h,
            k,
            a.skipping(high as nat, target as nat, 0x1_0000_0000),
        );
    assert(without_the_first(s, h, k, s.trimmed()));
    assert(s.queued() == a.queued()) by {
        if s.head is None {
            assert(a.head_offset == 0);
        }
    }
    assert(all_ahead(a, h, 0));
    lemma_skipping_stops_early(a, h, 0, high as nat, target as nat);
}

proof fn lemma_skipping_stops_early(
    s: JitterModel,
    start: u32,
    k: nat,
    high: nat,
    target: nat,
)
    requires
        s.wf(),
        k <= 0x1_0000_0000,
        target < high,
        s.head == Some(((start + k) % 0x1_0000_0000) as u32),
        all_ahead(s, start, k),
    ensures
        s.queued() > high ==> s.skipping(high, target, (0x1_0000_0000 - k) as nat).queued()
            + s.samples_per_packet > high,
    decreases 0x1_0000_0000 - k,
{
    if s.queued() > high {
        lemma_skip_step(s, start, k);
        lemma_skip_takes_one(s, start, k);
        let next = s.skipped(s.head->0);
        if next.queued() > target {
            lemma_skipping_stops_early(next, start, k + 1, high, target);
        }
    }
}

/// Playback waits for the prebuffer and not longer: before it starts, a request is
/// held back exactly as long as fewer samples are queued than the target, and never
/// without one.
pub proof fn law_prebuffer_is_enough(s: JitterModel)
    ensures
        s.held_back() <==> s.head is None && (match s.prebuffer_target {
            Some(t) => s.queued() < t,
            None => false,
        }),
{
}

/// A restart leaves nothing of the stream before: only the new packet is in the ring,
/// playback will start with it, and nothing counts as played; the settings stay, and
/// of the counts only that of the restarts moves.
pub proof fn law_restart_forgets_the_stream(s: JitterModel, seq: u32, samples: Seq<u32>)
    requires
        s.wf(),
        s.restarted(seq),
        s.stats.sender_restarts < u64::MAX,
    ensures
        ({
            let t = s.pushed(seq, samples).0;
            &&& t.head is None && t.head_offset == 0 && t.resync_floor is None
            &&& t.min_pushed == Some(seq)
            &&& t.slots.len() == s.slots.len()
            &&& forall|i: int|
                0 <= i < t.slots.len() ==> #[trigger] t.slots[i] == if i == seq as int
                    % s.capacity as int {
                    Some(Stored { seq, samples })
                } else {
                    None
                }
            &&& t.samples_per_packet == s.samples_per_packet && t.capacity == s.capacity
            &&& t.prebuffer_target == s.prebuffer_target && t.high_water == s.high_water
            &&& t.stats == (Stats {
                sender_restarts: (s.stats.sender_restarts + 1) as u64,
                ..s.stats
            })
        }),
{
}

/// When a sender has restarted: a packet less than half a turn, but more than a
/// ring's length, behind the play head or the place where playback stopped.
pub proof fn law_what_is_a_restart(s: JitterModel, seq: u32)
    requires
        s.wf(),
        s.capacity <= 0xffff_ffff,
    ensures
        s.restarted(seq) <==> (match (s.head, s.resync_floor) {
            (Some(h), _) => s.capacity < (h - seq) % 0x1_0000_0000 < 0x7fff_ffff,
            (None, Some(f)) => s.capacity < (f - seq) % 0x1_0000_0000 < 0x7fff_ffff,
            (None, None) => false,
        }),
{
}

} // verus!
