use vstd::prelude::*;

verus! {

/// Bit `j` of `v`, counted from the least significant one.
pub open spec fn bit_of(v: u32, j: u32) -> bool {
    (v >> j) & 1 == 1
}

/// The low `n` bits of `v`, least significant first.
pub open spec fn low_bits(v: u32, n: nat) -> Seq<bool> {
    Seq::new(n, |j: int| bit_of(v, j as u32))
}

/// The bits of a byte string: byte `i` contributes bits `8i .. 8i + 8`,
/// least significant first.
pub open spec fn byte_bits(bytes: Seq<u8>) -> Seq<bool> {
    Seq::new(8 * bytes.len(), |k: int| bit_of(bytes[k / 8] as u32, (k % 8) as u32))
}

/// `n` zero bits.
pub open spec fn zero_bits(n: nat) -> Seq<bool> {
    Seq::new(n, |j: int| false)
}

/// Number of zero bits that bring a stream of `n` bits to a byte boundary.
pub open spec fn padding(n: nat) -> nat {
    ((8 - n % 8) % 8) as nat
}

/// Bit `j` of byte `i` is bit `8i + j` of the bits of a byte string.
pub proof fn lemma_byte_bits_index(bytes: Seq<u8>, i: int, j: int)
    requires
        0 <= i < bytes.len(),
        0 <= j < 8,
    ensures
        byte_bits(bytes).len() == 8 * bytes.len(),
        byte_bits(bytes)[8 * i + j] == bit_of(bytes[i] as u32, j as u32),
{
}

/// Bits put above the `bp` pending ones leave those as they are and come
/// to stand behind them.
pub proof fn lemma_merge(acc: u32, v: u32, bp: u32, size: u32, j: u32)
    by (bit_vector)
    requires
        bp <= 7,
        size <= 16,
        acc < (1u32 << bp),
        j < bp + size,
    ensures
        ((acc | ((v & ((1u32 << size) - 1) as u32) << bp)) >> j) & 1 == 1 <==> (if j < bp {
            (acc >> j) & 1 == 1
        } else {
            (v >> ((j - bp) as u32)) & 1 == 1
        }),
{
}

/// After `size` bits were put above `bp` pending ones, nothing stands
/// above them all.
pub proof fn lemma_merge_bound(acc: u32, v: u32, bp: u32, size: u32)
    by (bit_vector)
    requires
        bp <= 7,
        size <= 16,
        acc < (1u32 << bp),
    ensures
        (acc | ((v & ((1u32 << size) - 1) as u32) << bp)) < (1u32 << ((bp + size) as u32)),
{
}

/// The low byte of a value holds its low eight bits.
pub proof fn lemma_low_byte(acc: u32, j: u32)
    by (bit_vector)
    requires
        j < 8,
    ensures
        ((acc & 0xff) >> j) & 1 == 1 <==> (acc >> j) & 1 == 1,
        (acc & 0xff) < 256,
{
}

/// Dropping the low byte moves every bit down by eight.
pub proof fn lemma_shift_byte(acc: u32, bp: u32, j: u32)
    by (bit_vector)
    requires
        8 <= bp <= 23,
        acc < (1u32 << bp),
        j < 24,
    ensures
        (acc >> 8) < (1u32 << ((bp - 8) as u32)),
        ((acc >> 8) >> j) & 1 == 1 <==> (acc >> ((j + 8) as u32)) & 1 == 1,
{
}

/// Above the pending bits every bit is zero.
pub proof fn lemma_pending_top(acc: u32, bp: u32, j: u32)
    by (bit_vector)
    requires
        bp <= 7,
        acc < (1u32 << bp),
        bp <= j < 32,
    ensures
        (acc >> j) & 1 == 0,
{
}

/// Halving a value moves every bit down by one.
pub proof fn lemma_bit_halves(v: u32, j: u32)
    by (bit_vector)
    requires
        j < 31,
    ensures
        ((v / 2) >> j) & 1 == (v >> ((j + 1) as u32)) & 1,
        (v >> 0) & 1 == v % 2,
{
}

/// Doubling a value and adding a bit moves every bit up by one, above
/// the new bit.
pub proof fn lemma_bit_doubles(a: u32, b: u32, j: u32)
    by (bit_vector)
    requires
        a < 0x4000_0000,
        b < 2,
        j < 31,
    ensures
        ((2 * a + b) as u32 >> 0) & 1 == b,
        ((2 * a + b) as u32 >> ((j + 1) as u32)) & 1 == (a >> j) & 1,
{
}

} // verus!
