//! Bit-level index machinery for the tensor-power kernel: swapping a chosen
//! bit of a linear index with bit 0, and the bookkeeping permutations that
//! accumulate when one axis after another is swapped into position 0.

use vstd::prelude::*;

verus! {

/// The index obtained from `value` by letting the bit at position `idx` and
/// the bit at position 0 trade places; all other bits are unchanged.
pub open spec fn bit_swapped(idx: u64, value: u64) -> u64 {
    let x = (value ^ (value >> idx)) & 1;
    value ^ ((x << idx) | x)
}

/// Bit `k` of `v`, as 0 or 1.
pub open spec fn bit_at(v: u64, k: u64) -> u64 {
    (v >> k) & 1
}

/// `v` with bit `k` replaced by `b` (`b` is 0 or 1).
pub open spec fn with_bit(v: u64, k: u64, b: u64) -> u64 {
    (v & !(1u64 << k)) | (b << k)
}

/// The low `t` bits of `j` rotated right by one place; bits at position `t`
/// and above are unchanged.  This is the net index relabelling left behind
/// after axes `0, 1, ..., t-1` have each in turn been swapped with axis 0.
pub open spec fn rot_low(t: u64, j: u64) -> u64 {
    if t == 0 {
        j
    } else {
        ((j >> t) << t) | ((j & (((1u64 << t) - 1) as u64)) >> 1) | ((j & 1) << ((t - 1) as u64))
    }
}

/// All `n` bits of `j` rotated left by one place: the top bit becomes bit 0.
/// Reading a 2 x 2^(n-1) buffer out column-by-column visits, at output
/// position `j`, the buffer cell `rot_high(n, j)`.
pub open spec fn rot_high(n: u64, j: u64) -> u64 {
    if n == 0 {
        j
    } else {
        ((j & (((1u64 << ((n - 1) as u64)) - 1) as u64)) << 1) | (j >> ((n - 1) as u64))
    }
}

/// Swaps the bit at position `idx` with the least significant bit in the
/// given `value`.
pub fn bit_swap0(idx: u64, value: u64) -> (r: u64)
    requires
        idx < 64,
    ensures
        r == bit_swapped(idx, value),
        idx == 0 ==> r == value,
{
    let x = (value ^ (value >> idx)) & 1;
    let r = value ^ ((x << idx) | x);
    proof {
        assert(idx == 0 ==> bit_swapped(idx, value) == value) by (bit_vector);
    }
    r
}

/// The permutation swaps bits `idx` and 0 and moves nothing else: bit `idx`
/// of the result is bit 0 of the input, bit 0 of the result is bit `idx` of
/// the input, and every other bit is unchanged.
pub proof fn lemma_bit_swapped_is_swap(idx: u64, value: u64, k: u64)
    requires
        idx < 64,
        k < 64,
    ensures
        bit_at(bit_swapped(idx, value), idx) == bit_at(value, 0),
        bit_at(bit_swapped(idx, value), 0) == bit_at(value, idx),
        k != 0 && k != idx ==> bit_at(bit_swapped(idx, value), k) == bit_at(value, k),
{
    assert(idx < 64 ==> bit_at(bit_swapped(idx, value), idx) == bit_at(value, 0)) by (bit_vector);
    assert(idx < 64 ==> bit_at(bit_swapped(idx, value), 0) == bit_at(value, idx)) by (bit_vector);
    assert(idx < 64 && k < 64 && k != 0 && k != idx ==> bit_at(bit_swapped(idx, value), k)
        == bit_at(value, k)) by (bit_vector);
}

/// Swapping two bits of an index below 2^n yields an index below 2^n.
pub proof fn lemma_bit_swapped_in_range(t: u64, n: u64, j: u64)
    requires
        t < n,
        n <= 63,
        j < (1u64 << n),
    ensures
        bit_swapped(t, j) < (1u64 << n),
{
    assert(t < n && n <= 63 && j < (1u64 << n) ==> bit_swapped(t, j) < (1u64 << n))
        by (bit_vector);
}

/// One more axis swap extends the accumulated relabelling: rotating the low
/// `t + 1` bits right by one equals first swapping bit `t` with bit 0 and
/// then rotating the low `t` bits right by one.
pub proof fn lemma_rot_low_step(t: u64, n: u64, j: u64)
    requires
        t < n,
        n <= 63,
        j < (1u64 << n),
    ensures
        rot_low((t + 1) as u64, j) == rot_low(t, bit_swapped(t, j)),
{
    assert(t < n && n <= 63 && j < (1u64 << n) ==> rot_low((t + 1) as u64, j)
        == rot_low(t, bit_swapped(t, j))) by (bit_vector);
}

/// Rotating the low bits of an index below 2^n yields an index below 2^n.
pub proof fn lemma_rot_low_in_range(t: u64, n: u64, j: u64)
    requires
        t <= n,
        n <= 63,
        j < (1u64 << n),
    ensures
        rot_low(t, j) < (1u64 << n),
{
    assert(t <= n && n <= 63 && j < (1u64 << n) ==> rot_low(t, j) < (1u64 << n))
        by (bit_vector);
}

/// After `t + 1` accumulated swaps, bit `t` of the relabelled index is bit 0
/// of the original, and editing bit `t` of the relabelled index is the same
/// as editing bit 0 of the original before relabelling.
pub proof fn lemma_rot_low_axis_bit(t: u64, n: u64, j: u64, b: u64)
    requires
        t < n,
        n <= 63,
        j < (1u64 << n),
        b < 2,
    ensures
        bit_at(rot_low((t + 1) as u64, j), t) == bit_at(j, 0),
        with_bit(rot_low((t + 1) as u64, j), t, b) == rot_low((t + 1) as u64, with_bit(j, 0, b)),
        with_bit(j, 0, b) < (1u64 << n),
{
    assert(t < n && n <= 63 && j < (1u64 << n) ==> bit_at(rot_low((t + 1) as u64, j), t)
        == bit_at(j, 0)) by (bit_vector);
    assert(t < n && n <= 63 && j < (1u64 << n) && b < 2 ==> with_bit(
        rot_low((t + 1) as u64, j),
        t,
        b,
    ) == rot_low((t + 1) as u64, with_bit(j, 0, b))) by (bit_vector);
    assert(1 <= n && n <= 63 && j < (1u64 << n) && b < 2 ==> with_bit(j, 0, b) < (1u64 << n))
        by (bit_vector);
}

/// The final column-major read-out undoes the accumulated relabelling:
/// rotating all `n` bits left and then the low `n` bits right is the
/// identity on indices below 2^n.
pub proof fn lemma_rot_low_rot_high_identity(n: u64, j: u64)
    requires
        1 <= n,
        n <= 63,
        j < (1u64 << n),
    ensures
        rot_low(n, rot_high(n, j)) == j,
        rot_high(n, j) < (1u64 << n),
{
    assert(1 <= n && n <= 63 && j < (1u64 << n) ==> rot_low(n, rot_high(n, j)) == j
        && rot_high(n, j) < (1u64 << n)) by (bit_vector);
}

/// Writing a 2 x 2^(n-1) buffer cell (row `r`, column `c`) at linear offset
/// `2c + r` places the row index in bit 0.
pub proof fn lemma_pair_index(n: u64, c: u64, r: u64)
    requires
        1 <= n,
        n <= 63,
        c < (1u64 << ((n - 1) as u64)),
        r < 2,
    ensures
        2 * c + r < (1u64 << n),
        bit_at((2 * c + r) as u64, 0) == r,
        with_bit((2 * c + r) as u64, 0, 0) == 2 * c,
        with_bit((2 * c + r) as u64, 0, 1) == 2 * c + 1,
{
    assert(1 <= n && n <= 63 && c < (1u64 << ((n - 1) as u64)) && r < 2 ==> 2 * c + r < (1u64
        << n) && bit_at((2 * c + r) as u64, 0) == r && with_bit((2 * c + r) as u64, 0, 0) == 2 * c
        && with_bit((2 * c + r) as u64, 0, 1) == 2 * c + 1) by (bit_vector);
}

/// The flat offset `r * 2^(n-1) + c` of output position (row `r`, column
/// `c`) is sent by the column-major read-out to the buffer cell `2c + r`.
pub proof fn lemma_readout_index(n: u64, c: u64, r: u64)
    requires
        1 <= n,
        n <= 63,
        c < (1u64 << ((n - 1) as u64)),
        r < 2,
    ensures
        r * (1u64 << ((n - 1) as u64)) + c < (1u64 << n),
        rot_high(n, (r * (1u64 << ((n - 1) as u64)) + c) as u64) == 2 * c + r,
{
    assert(1 <= n && n <= 63 && c < (1u64 << ((n - 1) as u64)) && r < 2 ==> r * (1u64 << ((n
        - 1) as u64)) + c < (1u64 << n) && rot_high(n, (r * (1u64 << ((n - 1) as u64))
        + c) as u64) == 2 * c + r) by (bit_vector);
}

/// A bit is 0 or 1, and putting a bit back where it came from changes
/// nothing.
pub proof fn lemma_bit_at_self(j: u64, t: u64)
    requires
        t < 64,
    ensures
        bit_at(j, t) < 2,
        with_bit(j, t, bit_at(j, t)) == j,
{
    assert(t < 64 ==> bit_at(j, t) < 2 && with_bit(j, t, bit_at(j, t)) == j) by (bit_vector);
}

/// Reading and rewriting the same bit position.
pub proof fn lemma_with_bit_same(j: u64, t: u64, b: u64, b2: u64)
    requires
        t < 64,
        b < 2,
        b2 < 2,
    ensures
        bit_at(with_bit(j, t, b), t) == b,
        with_bit(with_bit(j, t, b), t, b2) == with_bit(j, t, b2),
{
    assert(t < 64 && b < 2 && b2 < 2 ==> bit_at(with_bit(j, t, b), t) == b && with_bit(
        with_bit(j, t, b),
        t,
        b2,
    ) == with_bit(j, t, b2)) by (bit_vector);
}

/// Edits of two distinct bit positions do not disturb each other and may be
/// done in either order.
pub proof fn lemma_with_bit_other(j: u64, t: u64, u: u64, b: u64, b2: u64)
    requires
        t < 64,
        u < 64,
        t != u,
        b < 2,
        b2 < 2,
    ensures
        bit_at(with_bit(j, t, b), u) == bit_at(j, u),
        with_bit(with_bit(j, t, b), u, b2) == with_bit(with_bit(j, u, b2), t, b),
{
    assert(t < 64 && u < 64 && t != u && b < 2 && b2 < 2 ==> bit_at(with_bit(j, t, b), u)
        == bit_at(j, u) && with_bit(with_bit(j, t, b), u, b2) == with_bit(
        with_bit(j, u, b2),
        t,
        b,
    )) by (bit_vector);
}

/// Editing a bit below position `n` keeps an index below 2^n.
pub proof fn lemma_with_bit_in_range(j: u64, t: u64, b: u64, n: u64)
    requires
        t < n,
        n <= 63,
        j < (1u64 << n),
        b < 2,
    ensures
        with_bit(j, t, b) < (1u64 << n),
{
    assert(t < n && n <= 63 && j < (1u64 << n) && b < 2 ==> with_bit(j, t, b) < (1u64 << n))
        by (bit_vector);
}

} // verus!
