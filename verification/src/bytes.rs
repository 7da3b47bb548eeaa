//! Little-endian integers as byte sequences.

use vstd::prelude::*;

verus! {

/// The number that `b` spells in base 256, least significant byte first.
pub open spec fn le_value(b: Seq<u8>) -> nat
    decreases b.len(),
{
    if b.len() == 0 {
        0
    } else {
        b[0] as nat + 256 * le_value(b.drop_first())
    }
}

/// The `n` low bytes of `v`, least significant byte first.
pub open spec fn le_bytes(v: nat, n: nat) -> Seq<u8>
    decreases n,
{
    if n == 0 {
        Seq::empty()
    } else {
        seq![(v % 256) as u8] + le_bytes(v / 256, (n - 1) as nat)
    }
}

/// `256^n`.
pub open spec fn pow256(n: nat) -> nat
    decreases n,
{
    if n == 0 {
        1
    } else {
        256 * pow256((n - 1) as nat)
    }
}

/// `le_bytes(v, n)` has `n` bytes.
pub proof fn lemma_le_bytes_len(v: nat, n: nat)
    ensures
        le_bytes(v, n).len() == n,
    decreases n,
{
    if n > 0 {
        lemma_le_bytes_len(v / 256, (n - 1) as nat);
    }
}

/// `n` bytes spell a number below `256^n`.
pub proof fn lemma_le_value_bound(b: Seq<u8>)
    ensures
        le_value(b) < pow256(b.len()),
    decreases b.len(),
{
    if b.len() > 0 {
        lemma_le_value_bound(b.drop_first());
    }
}

/// Reading back the bytes of a number that fits gives the number.
pub proof fn lemma_le_value_of_bytes(v: nat, n: nat)
    requires
        v < pow256(n),
    ensures
        le_value(le_bytes(v, n)) == v,
    decreases n,
{
    if n > 0 {
        lemma_le_value_of_bytes(v / 256, (n - 1) as nat);
        lemma_le_bytes_len(v / 256, (n - 1) as nat);
        assert(le_bytes(v, n).drop_first() =~= le_bytes(v / 256, (n - 1) as nat));
    }
}

/// Writing out the number that some bytes spell gives the bytes.
pub proof fn lemma_le_bytes_of_value(b: Seq<u8>)
    ensures
        le_bytes(le_value(b), b.len()) == b,
    decreases b.len(),
{
    if b.len() > 0 {
        let rest = b.drop_first();
        lemma_le_bytes_of_value(rest);
        assert(le_value(b) / 256 == le_value(rest));
        assert(le_value(b) % 256 == b[0] as nat);
        assert(seq![b[0]] + rest =~= b);
    }
}

/// The powers of 256 that bound the integer types on the wire.
pub proof fn lemma_pow256_values()
    ensures
        pow256(1) == 0x100,
        pow256(2) == 0x1_0000,
        pow256(4) == 0x1_0000_0000,
        pow256(8) == 0x1_0000_0000_0000_0000,
{
    reveal_with_fuel(pow256, 9);
}

/// `256^i` does not exceed `256^j` for `i <= j`.
pub proof fn lemma_pow256_monotonic(i: nat, j: nat)
    requires
        i <= j,
    ensures
        pow256(i) <= pow256(j),
        pow256(i) >= 1,
    decreases j,
{
    if i > 0 {
        lemma_pow256_monotonic((i - 1) as nat, (j - 1) as nat);
    } else if j > 0 {
        lemma_pow256_monotonic(i, (j - 1) as nat);
    }
}

/// Appends the `n` low bytes of `v`.
pub fn push_le(out: &mut Vec<u8>, v: u64, n: usize)
    ensures
        final(out)@ == old(out)@ + le_bytes(v as nat, n as nat),
{
    let mut rest: u64 = v;
    let mut left: usize = n;
    while left > 0
        invariant
            out@ + le_bytes(rest as nat, left as nat) == old(out)@ + le_bytes(v as nat, n as nat),
        decreases left,
    {
        let ghost before = out@;
        let b: u8 = (rest % 256) as u8;
        out.push(b);
        proof {
            assert(before + le_bytes(rest as nat, left as nat) =~= out@ + le_bytes(
                (rest / 256) as nat,
                (left - 1) as nat,
            ));
        }
        rest = rest / 256;
        left = left - 1;
    }
    assert(out@ + le_bytes(rest as nat, 0) =~= out@);
}

/// The number spelled by the `n` bytes of `bytes` that start at `at`.
pub fn read_le(bytes: &[u8], at: usize, n: usize) -> (v: u64)
    requires
        n <= 8,
        at + n <= bytes@.len(),
    ensures
        v as nat == le_value(bytes@.subrange(at as int, at + n)),
        v < pow256(n as nat),
{
    let end: usize = bytes.len();
    let mut v: u64 = 0;
    let mut left: usize = n;
    assert(le_value(bytes@.subrange(at + n, at + n)) == 0);
    while left > 0
        invariant
            left <= n <= 8,
            at + n <= end == bytes@.len(),
            v as nat == le_value(bytes@.subrange(at + left, at + n)),
        decreases left,
    {
        let ghost tail = bytes@.subrange(at + left, at + n);
        let ghost wider = bytes@.subrange(at + left - 1, at + n);
        proof {
            assert(wider.drop_first() =~= tail);
            lemma_le_value_bound(wider);
            lemma_pow256_monotonic(wider.len(), 8);
            lemma_pow256_values();
        }
        left = left - 1;
        v = v * 256 + bytes[at + left] as u64;
    }
    proof {
        lemma_le_value_bound(bytes@.subrange(at as int, at + n));
    }
    v
}

} // verus!
