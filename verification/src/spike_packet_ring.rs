//! Measures how evenly packets arrive.
//!
//! A ring of arrival times, in nanoseconds, with a running sum of the gaps
//! between consecutive arrivals. The mean gap is taken over all arrivals, not
//! over those still in the ring.

use std::time::Duration;
use vstd::prelude::*;

verus! {

/// Arrivals remembered where no capacity is given.
pub const DEFAULT_CAPACITY: usize = 64;

/// The length of a duration in nanoseconds.
pub uninterp spec fn duration_nanos(d: Duration) -> u128;

/// `std::time::Duration::as_nanos`: the whole length in nanoseconds.
pub assume_specification[ Duration::as_nanos ](d: &Duration) -> (r: u128)
    ensures
        r == duration_nanos(*d),
;

/// `std::time::Duration::from_nanos`: the duration of that many nanoseconds.
pub assume_specification[ Duration::from_nanos ](nanos: u64) -> (r: Duration)
    ensures
        duration_nanos(r) == nanos,
;

/// `std::time::Duration::MAX`: no duration is longer.
#[verifier::external_body]
fn longest_duration() -> (r: Duration)
    ensures
        forall|d: Duration| #[trigger] duration_nanos(d) <= duration_nanos(r),
{
    Duration::MAX
}

/// The distance between two times.
pub open spec fn gap(a: u128, b: u128) -> u128 {
    if a >= b {
        (a - b) as u128
    } else {
        (b - a) as u128
    }
}

/// `a + b`, or `u128::MAX` where that is less.
pub open spec fn capped_sum(a: nat, b: nat) -> nat {
    if a + b > u128::MAX {
        u128::MAX as nat
    } else {
        a + b
    }
}

/// The state of a ring.
#[verifier::ext_equal]
pub struct PacketRingModel {
    pub capacity: nat,
    /// The arrivals remembered, oldest first.
    pub arrivals: Seq<u128>,
    /// The latest arrival.
    pub last: Option<u128>,
    /// The latest gap.
    pub last_delta: Option<u128>,
    /// Arrivals so far.
    pub count: nat,
    /// Sum of all gaps so far.
    pub gap_sum: nat,
}

impl PacketRingModel {
    pub open spec fn wf(self) -> bool {
        &&& self.capacity > 0
        &&& self.arrivals.len() <= self.capacity
    }

    /// An empty ring.
    pub open spec fn fresh(capacity: nat) -> PacketRingModel {
        PacketRingModel {
            capacity: if capacity == 0 {
                1
            } else {
                capacity
            },
            arrivals: Seq::empty(),
            last: None,
            last_delta: None,
            count: 0,
            gap_sum: 0,
        }
    }

    /// A packet arrives at time `at`.
    pub open spec fn pushed(self, at: u128) -> PacketRingModel {
        PacketRingModel {
            arrivals: if self.arrivals.len() < self.capacity {
                self.arrivals.push(at)
            } else {
                self.arrivals.drop_first().push(at)
            },
            last: Some(at),
            last_delta: match self.last {
                Some(p) => Some(gap(at, p)),
                None => self.last_delta,
            },
            count: if self.count == usize::MAX {
                self.count
            } else {
                self.count + 1
            },
            gap_sum: match self.last {
                Some(p) => capped_sum(self.gap_sum, gap(at, p) as nat),
                None => self.gap_sum,
            },
            ..self
        }
    }

    /// One and a half times the mean gap, rounded down; nothing before the
    /// second arrival.
    pub open spec fn margin(self) -> nat {
        if self.count < 2 {
            0
        } else {
            3 * self.gap_sum / (2 * (self.count - 1) as nat)
        }
    }

    /// When to play a packet: its arrival, plus the wanted buffer, plus the
    /// margin, as far as that fits.
    pub open spec fn playout(self, at: u128, buffer: u128) -> nat {
        capped_sum(capped_sum(at as nat, buffer as nat), self.margin())
    }
}

/// A ring of arrival times.
#[derive(Debug, Clone)]
pub struct PacketRing {
    cap: usize,
    slots: Vec<Option<u128>>,
    head: usize,
    tail: usize,
    len: usize,
    last_arrival_ns: Option<u128>,
    last_delta_ns: Option<u128>,
    push_count: usize,
    jitter_sum_ns: u128,
}

/// The slot `i` places after `tail` in a ring of `cap` slots.
spec fn place(tail: int, i: int, cap: int) -> int {
    if tail + i < cap {
        tail + i
    } else {
        tail + i - cap
    }
}

impl View for PacketRing {
    type V = PacketRingModel;

    closed spec fn view(&self) -> PacketRingModel {
        PacketRingModel {
            capacity: self.cap as nat,
            arrivals: Seq::new(
                self.len as nat,
                |i: int| self.slots@[place(self.tail as int, i, self.cap as int)]->0,
            ),
            last: self.last_arrival_ns,
            last_delta: self.last_delta_ns,
            count: self.push_count as nat,
            gap_sum: self.jitter_sum_ns as nat,
        }
    }
}

impl PacketRing {
    /// The representation is sound.
    pub closed spec fn inv(&self) -> bool {
        &&& 0 < self.cap == self.slots@.len()
        &&& self.tail < self.cap
        &&& self.len <= self.cap
        &&& self.head == place(self.tail as int, self.len as int, self.cap as int)
        &&& forall|i: int|
            0 <= i < self.len ==> (#[trigger] self.slots@[place(
                self.tail as int,
                i,
                self.cap as int,
            )]) is Some
    }

    /// A ring of the given capacity, at least one.
    pub fn new(capacity: usize) -> (r: PacketRing)
        ensures
            r.inv(),
            r@ == PacketRingModel::fresh(capacity as nat),
    {
        let cap: usize = if capacity == 0 {
            1
        } else {
            capacity
        };
        PacketRing::with_capacity(cap)
    }

    fn with_capacity(capacity: usize) -> (r: PacketRing)
        requires
            capacity > 0,
        ensures
            r.inv(),
            r@ == PacketRingModel::fresh(capacity as nat),
    {
        let mut slots: Vec<Option<u128>> = Vec::with_capacity(capacity);
        let mut i: usize = 0;
        while i < capacity
            invariant
                i <= capacity,
                slots@.len() == i,
            decreases capacity - i,
        {
            slots.push(None);
            i += 1;
        }
        let r: PacketRing = PacketRing {
            cap: capacity,
            slots,
            head: 0,
            tail: 0,
            len: 0,
            last_arrival_ns: None,
            last_delta_ns: None,
            push_count: 0,
            jitter_sum_ns: 0,
        };
        assert(r@.arrivals =~= Seq::empty());
        r
    }

    /// Takes note of an arrival and returns the gap to the one before, if
    /// there was one.
    pub fn push(&mut self, arrived_at_ns: u128) -> (r: Option<u128>)
        requires
            old(self).inv(),
        ensures
            final(self).inv(),
            final(self)@ == old(self)@.pushed(arrived_at_ns),
            r == (match old(self)@.last {
                Some(p) => Some(gap(arrived_at_ns, p)),
                None => None,
            }),
    {
        let ghost before = *self;
        let prev: Option<u128> = self.last_arrival_ns;
        let at: usize = self.head;
        self.slots[at] = Some(arrived_at_ns);
        self.head = if at + 1 == self.cap {
            0
        } else {
            at + 1
        };
        if self.len < self.cap {
            self.len = self.len + 1;
        } else {
            self.tail = if self.tail + 1 == self.cap {
                0
            } else {
                self.tail + 1
            };
        }
        self.last_arrival_ns = Some(arrived_at_ns);
        self.push_count = self.push_count.saturating_add(1);
        proof {
            assert forall|i: int| 0 <= i < self.len implies (#[trigger] self.slots@[place(
                self.tail as int,
                i,
                self.cap as int,
            )]) is Some by {
                let j = if before.len < before.cap {
                    i
                } else {
                    i + 1
                };
                assert(j < before.len ==> before.slots@[place(
                    before.tail as int,
                    j,
                    before.cap as int,
                )] is Some);
            }
            assert(self@.arrivals =~= before@.pushed(arrived_at_ns).arrivals);
        }
        match prev {
            Some(p) => {
                let delta: u128 = if arrived_at_ns >= p {
                    arrived_at_ns - p
                } else {
                    p - arrived_at_ns
                };
                self.jitter_sum_ns = self.jitter_sum_ns.saturating_add(delta);
                self.last_delta_ns = Some(delta);
                Some(delta)
            },
            None => None,
        }
    }

    /// `push` for a time given as a duration.
    pub fn push_instant(&mut self, arrived: Duration) -> (r: Option<u128>)
        requires
            old(self).inv(),
        ensures
            final(self).inv(),
            final(self)@ == old(self)@.pushed(duration_nanos(arrived)),
            r == (match old(self)@.last {
                Some(p) => Some(gap(duration_nanos(arrived), p)),
                None => None,
            }),
    {
        self.push(arrived.as_nanos())
    }

    /// The sum of all gaps so far. Divided by the number of gaps, which is
    /// one less than the number of arrivals, it gives the mean gap.
    pub fn jitter_sum_ns(&self) -> (r: u128)
        ensures
            r == self@.gap_sum,
    {
        self.jitter_sum_ns
    }

    /// The latest gap, from the second arrival on.
    pub fn last_delta_ns(&self) -> (r: Option<u128>)
        ensures
            r == self@.last_delta,
    {
        self.last_delta_ns
    }

    /// One and a half times the mean gap, as far as it fits.
    fn margin_ns(&self) -> (r: u128)
        ensures
            r == capped_sum(0, self@.margin()),
    {
        if self.push_count < 2 {
            return 0;
        }
        let gaps: u128 = 2 * (self.push_count as u128 - 1);
        let whole: u128 = self.jitter_sum_ns / gaps;
        let rest: u128 = self.jitter_sum_ns % gaps;
        proof {
            lemma_split_quotient(self.jitter_sum_ns as nat, gaps as nat);
        }
        let part: u128 = 3 * rest / gaps;
        match whole.checked_mul(3) {
            Some(w) => w.saturating_add(part),
            None => u128::MAX,
        }
    }

    /// When to play a packet that arrived at the given time.
    pub fn next_playout_ns(&self, arrived_at_ns: u128, target_buffer_ns: u128) -> (r: u128)
        ensures
            r == self@.playout(arrived_at_ns, target_buffer_ns),
    {
        arrived_at_ns.saturating_add(target_buffer_ns).saturating_add(self.margin_ns())
    }

    /// `next_playout_ns` for durations. A result of more nanoseconds than 64
    /// bits hold becomes the longest duration there is.
    pub fn next_playout_instant(&self, arrived: Duration, target_buffer: Duration) -> (r: Duration)
        ensures
            ({
                let at = self@.playout(duration_nanos(arrived), duration_nanos(target_buffer));
                if at > u64::MAX {
                    forall|d: Duration| #[trigger] duration_nanos(d) <= duration_nanos(r)
                } else {
                    duration_nanos(r) == at
                }
            }),
    {
        let at: u128 = self.next_playout_ns(arrived.as_nanos(), target_buffer.as_nanos());
        if at > u64::MAX as u128 {
            longest_duration()
        } else {
            Duration::from_nanos(at as u64)
        }
    }

    /// Arrivals remembered.
    pub fn len(&self) -> (r: usize)
        ensures
            r == self@.arrivals.len(),
    {
        self.len
    }

    pub fn is_empty(&self) -> (r: bool)
        ensures
            r == (self@.arrivals.len() == 0),
    {
        self.len == 0
    }

    /// Arrivals that can be remembered.
    pub fn capacity(&self) -> (r: usize)
        ensures
            r == self@.capacity,
    {
        self.cap
    }

    /// Arrivals so far.
    pub fn push_count(&self) -> (r: usize)
        ensures
            r == self@.count,
    {
        self.push_count
    }
}

impl Default for PacketRing {
    fn default() -> (r: PacketRing)
        ensures
            r.inv(),
            r@ == PacketRingModel::fresh(DEFAULT_CAPACITY as nat),
    {
        PacketRing::new(DEFAULT_CAPACITY)
    }
}

/// Three times a quotient, from the quotient and the remainder.
proof fn lemma_split_quotient(n: nat, d: nat)
    requires
        d > 0,
    ensures
        3 * n / d == 3 * (n / d) + 3 * (n % d) / d,
        n % d < d,
        3 * (n % d) / d <= 2,
{
    let q = n / d;
    let r = n % d;
    assert(n == q * d + r) by (nonlinear_arith)
        requires
            d > 0,
            q == n / d,
            r == n % d,
    ;
    assert(3 * n == (3 * q) * d + 3 * r) by (nonlinear_arith)
        requires
            n == q * d + r,
    ;
    vstd::arithmetic::div_mod::lemma_hoist_over_denominator(3 * r as int, 3 * q as int, d);
    assert(3 * r / d <= 2) by (nonlinear_arith)
        requires
            d > 0,
            r < d,
    ;
}

/// Every arrival keeps the state well-formed.
pub proof fn law_push_keeps_wf(s: PacketRingModel, at: u128)
    requires
        s.wf(),
    ensures
        s.pushed(at).wf(),
{
}

/// What is measured does not depend on how much is remembered: two rings of
/// different capacity that agree on the measures agree after each arrival.
pub proof fn law_measures_ignore_capacity(a: PacketRingModel, b: PacketRingModel, at: u128)
    requires
        a.last == b.last,
        a.last_delta == b.last_delta,
        a.count == b.count,
        a.gap_sum == b.gap_sum,
    ensures
        a.pushed(at).last == b.pushed(at).last,
        a.pushed(at).last_delta == b.pushed(at).last_delta,
        a.pushed(at).count == b.pushed(at).count,
        a.pushed(at).gap_sum == b.pushed(at).gap_sum,
        a.pushed(at).margin() == b.pushed(at).margin(),
{
}

/// A packet is never played before its arrival and the wanted buffer, as far
/// as these fit.
pub proof fn law_playout_is_not_early(s: PacketRingModel, at: u128, buffer: u128)
    ensures
        s.playout(at, buffer) >= capped_sum(at as nat, buffer as nat),
{
}

/// A ring remembers the latest arrivals, as many as it has room for, in their order;
/// it counts every one, and adds up how far apart each two in a row are, whichever
/// is the later.
pub proof fn law_arrivals_are_measured(s: PacketRingModel, at: u128)
    requires
        s.wf(),
        s.count < usize::MAX,
    ensures
        ({
            let t = s.pushed(at);
            let all = s.arrivals.push(at);
            &&& t.arrivals == if all.len() > s.capacity {
                all.skip(1)
            } else {
                all
            }
            &&& t.last == Some(at)
            &&& t.count == s.count + 1
            &&& t.capacity == s.capacity
            &&& s.last is None ==> t.gap_sum == s.gap_sum && t.last_delta == s.last_delta
            &&& s.last matches Some(p) ==> {
                let apart = if at >= p {
                    at - p
                } else {
                    p - at
                };
                &&& t.last_delta matches Some(d) && d == apart
                &&& s.gap_sum + apart <= u128::MAX ==> t.gap_sum == s.gap_sum + apart
                &&& s.gap_sum + apart > u128::MAX ==> t.gap_sum == u128::MAX
            }
        }),
{
    let all = s.arrivals.push(at);
    if all.len() > s.capacity {
        assert(s.arrivals.drop_first().push(at) =~= all.skip(1));
    }
}

/// A new ring has room for at least one arrival and has seen none.
pub proof fn law_new_ring_is_empty(capacity: nat)
    ensures
        ({
            let s = PacketRingModel::fresh(capacity);
            &&& capacity > 0 ==> s.capacity == capacity
            &&& capacity == 0 ==> s.capacity == 1
            &&& s.arrivals.len() == 0 && s.count == 0 && s.gap_sum == 0
            &&& s.last is None && s.last_delta is None
        }),
{
}

/// The margin is one and a half times the mean gap, rounded down, once there are two
/// arrivals; a packet is played its arrival, the wanted buffer and the margin from
/// the start, as far as these fit.
pub proof fn law_margin_is_half_more_than_the_mean(s: PacketRingModel, at: u128, buffer: u128)
    ensures
        s.count < 2 ==> s.margin() == 0,
        s.count >= 2 ==> {
            let gaps = (s.count - 1) as nat;
            s.margin() * (2 * gaps) <= 3 * s.gap_sum < (s.margin() + 1) * (2 * gaps)
        },
        at + buffer + s.margin() <= u128::MAX ==> s.playout(at, buffer) == at + buffer + s.margin(),
        at + buffer + s.margin() > u128::MAX ==> s.playout(at, buffer) == u128::MAX,
{
    if s.count >= 2 {
        let d = 2 * (s.count - 1) as nat;
        let x = 3 * s.gap_sum;
        vstd::arithmetic::div_mod::lemma_fundamental_div_mod(x as int, d as int);
        let q = s.margin();
        assert(q * d <= x && x < (q + 1) * d) by (nonlinear_arith)
            requires
                x == d * q + x % d,
                0 <= x % d < d,
        ;
    }
}

} // verus!
