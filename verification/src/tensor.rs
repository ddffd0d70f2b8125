//! The tensor-power kernel: applying a fixed 2x2 linear operator to every
//! one of the n binary axes of a 2^n-length vector, without materializing
//! the n-fold Kronecker-product matrix.
//!
//! The state vector is laid out with bit 0 of a linear index as the
//! fastest-varying axis.  Each iteration swaps one axis into position 0
//! (a bit-axis index permutation), multiplies the buffer, viewed as a
//! 2 x 2^(n-1) matrix with cell (r, c) at linear offset 2c + r, by the
//! operator, and moves on.  A final column-major read-out undoes the
//! accumulated relabelling.

use vstd::prelude::*;
use rayon::iter::IntoParallelIterator;
use rayon::iter::ParallelIterator;

use crate::bits::bit_at;
use crate::bits::bit_swap0;
use crate::bits::bit_swapped;
use crate::bits::lemma_bit_at_self;
use crate::bits::lemma_bit_swapped_in_range;
use crate::bits::lemma_with_bit_in_range;
use crate::bits::lemma_with_bit_other;
use crate::bits::lemma_with_bit_same;
use crate::bits::lemma_pair_index;
use crate::bits::lemma_readout_index;
use crate::bits::lemma_rot_low_axis_bit;
use crate::bits::lemma_rot_low_in_range;
use crate::bits::lemma_rot_low_rot_high_identity;
use crate::bits::lemma_rot_low_step;
use crate::bits::rot_high;
use crate::bits::rot_low;
use crate::bits::with_bit;

verus! {

/// A 2x2 operator as a mathematical matrix of unbounded integers; entry
/// `eRC` is row R, column C of the matrix whose n-fold tensor power
/// left-multiplies the state.
pub ghost struct Op2 {
    pub e00: int,
    pub e01: int,
    pub e10: int,
    pub e11: int,
}

/// Row `r`, column `k` of `op` (`r` and `k` are 0 or 1).
pub open spec fn op_entry(op: Op2, r: u64, k: u64) -> int {
    if r == 0 {
        if k == 0 {
            op.e00
        } else {
            op.e01
        }
    } else {
        if k == 0 {
            op.e10
        } else {
            op.e11
        }
    }
}

/// The values of `v` as unbounded integers.
pub open spec fn as_ints(v: Seq<i64>) -> Seq<int> {
    v.map_values(|x: i64| x as int)
}

/// One axis application: entry `j` of the result combines the two entries
/// of `x` whose indices differ only in bit `t`, weighted by the operator
/// row selected by bit `t` of `j`.
pub open spec fn axis_apply(op: Op2, x: Seq<int>, t: u64) -> Seq<int> {
    Seq::new(
        x.len(),
        |j: int|
            op_entry(op, bit_at(j as u64, t), 0) * x[with_bit(j as u64, t, 0) as int] + op_entry(
                op,
                bit_at(j as u64, t),
                1,
            ) * x[with_bit(j as u64, t, 1) as int],
    )
}

/// `op` applied to axes 0, 1, ..., t-1 in turn.
pub open spec fn axes_apply(op: Op2, x: Seq<int>, t: nat) -> Seq<int>
    decreases t,
{
    if t == 0 {
        x
    } else {
        axis_apply(op, axes_apply(op, x, (t - 1) as nat), (t - 1) as u64)
    }
}

/// The mathematical action of the n-fold tensor (Kronecker) power of `op`
/// on a 2^n-length state: `op` applied independently to every binary axis.
pub open spec fn tensor_power_apply(op: Op2, s: Seq<int>, n: nat) -> Seq<int> {
    axes_apply(op, s, n)
}

/// Axis application preserves the length of the state.
pub proof fn lemma_axes_apply_len(op: Op2, s: Seq<int>, t: nat)
    ensures
        axes_apply(op, s, t).len() == s.len(),
    decreases t,
{
    if t > 0 {
        lemma_axes_apply_len(op, s, (t - 1) as nat);
    }
}

/// Whether `x` is representable as an `i64`.
pub open spec fn fits_i64(x: int) -> bool {
    i64::MIN <= x <= i64::MAX
}

/// Whether every product of an operator entry with `x` is representable.
pub open spec fn entry_products_fit(op: Op2, x: int) -> bool {
    &&& fits_i64(op.e00 * x)
    &&& fits_i64(op.e01 * x)
    &&& fits_i64(op.e10 * x)
    &&& fits_i64(op.e11 * x)
}

/// The machine-size side condition of the integer kernel: every entry of
/// every intermediate state fits an `i64`, and so does every product of an
/// operator entry with such an entry.  Any implementation that computes the
/// intermediate states in 64-bit arithmetic meets exactly these values.
pub open spec fn kernel_fits(op: Op2, s: Seq<int>, n: nat) -> bool {
    forall|t: nat, j: int|
        t <= n && 0 <= j < s.len() ==> fits_i64(#[trigger] axes_apply(op, s, t)[j]) && (t < n
            ==> entry_products_fit(op, axes_apply(op, s, t)[j]))
}

/// The operator made of four `i64` entries, row by row.
pub open spec fn op_from(e00: i64, e01: i64, e10: i64, e11: i64) -> Op2 {
    Op2 { e00: e00 as int, e01: e01 as int, e10: e10 as int, e11: e11 as int }
}

/// Whether `m` is exactly a 2x2 matrix given as two rows of two entries.
pub open spec fn operator_shape_ok(m: Seq<Vec<i64>>) -> bool {
    m.len() == 2 && m[0]@.len() == 2 && m[1]@.len() == 2
}

/// The rows of `m` read as the mathematical matrix itself.
pub open spec fn op_rows(m: Seq<Vec<i64>>) -> Op2 {
    op_from(m[0]@[0], m[0]@[1], m[1]@[0], m[1]@[1])
}

/// The rows of `m` read column-wise: the mathematical matrix is the
/// transpose of the given rows.
pub open spec fn op_cols(m: Seq<Vec<i64>>) -> Op2 {
    op_from(m[0]@[0], m[1]@[0], m[0]@[1], m[1]@[1])
}

/// Whether `l` is a power of two that fits the address space.
pub open spec fn state_length_ok(l: nat) -> bool {
    exists|n: u64| n < 64 && l == (1u64 << n)
}

/// The exponent with `l == 2^n`, for a valid state length.
pub open spec fn state_log2(l: nat) -> u64 {
    choose|n: u64| n < 64 && l == (1u64 << n)
}

/// Distinct exponents give distinct powers of two.
pub proof fn lemma_log2_unique(n: u64, m: u64)
    requires
        n < 64,
        m < 64,
        (1u64 << n) == (1u64 << m),
    ensures
        n == m,
{
    assert(n < 64 && m < 64 && (1u64 << n) == (1u64 << m) ==> n == m) by (bit_vector);
}

/// Some exponent `n < 64` with `len == 2^n`, if one exists.
fn find_log2(len: u64) -> (r: Option<u64>)
    ensures
        match r {
            Some(n) => n < 64 && len == (1u64 << n),
            None => forall|m: u64| m < 64 ==> len != (1u64 << m),
        },
{
    if len == 0 {
        proof {
            assert forall|m: u64| m < 64 implies 0u64 != (1u64 << m) by {
                assert(m < 64 ==> (1u64 << m) != 0) by (bit_vector);
            }
        }
        return None;
    }
    let mut n: u64 = 0;
    let mut p: u64 = 1;
    proof {
        assert((1u64 << 0u64) == 1) by (bit_vector);
    }
    while p < len
        invariant
            n < 64,
            p == (1u64 << n),
            len >= 1,
            n > 0 ==> len > (1u64 << ((n - 1) as u64)),
        decreases 64 - n,
    {
        if n >= 63 {
            proof {
                assert forall|m: u64| m < 64 implies len != (1u64 << m) by {
                    assert(m < 64 ==> (1u64 << m) <= (1u64 << 63)) by (bit_vector);
                }
            }
            return None;
        }
        proof {
            assert(n < 63 ==> (1u64 << n) <= (1u64 << 62) && (1u64 << ((n + 1) as u64)) == 2 * (
            1u64 << n)) by (bit_vector);
        }
        p = p * 2;
        n = n + 1;
    }
    if p == len {
        Some(n)
    } else {
        proof {
            assert forall|m: u64| m < 64 implies len != (1u64 << m) by {
                if m < n {
                    assert(m < n && n < 64 ==> (1u64 << m) <= (1u64 << ((n - 1) as u64)))
                        by (bit_vector);
                } else {
                    assert(n <= m && m < 64 ==> (1u64 << n) <= (1u64 << m)) by (bit_vector);
                }
            }
        }
        None
    }
}

/// Relies on rayon's parallel iterators: an indexed parallel map over
/// `0..src.len()` collects its results in index order, so entry `j` of the
/// result is `src` read at the bit-swapped index.  Each output entry
/// depends on one read of an unmutated buffer, so the writes are
/// independent.
#[verifier::external_body]
fn permute_bit_axis(idx: u64, src: &Vec<i64>) -> (r: Vec<i64>)
    requires
        idx < 64,
        forall|j: int| 0 <= j < src@.len() ==> #[trigger] bit_swapped(idx, j as u64) < src@.len(),
    ensures
        r@.len() == src@.len(),
        forall|j: int|
            0 <= j < src@.len() ==> #[trigger] r@[j] == src@[bit_swapped(idx, j as u64) as int],
{
    (0..src.len()).into_par_iter().map(|j| src[bit_swap0(idx, j as u64) as usize]).collect()
}

/// The kernel proper, on an operator already read into mathematical order:
/// for axis i = 0..n, permute the buffer so that axis i sits at bit 0,
/// multiply the 2 x 2^(n-1) view by the operator, and finally read the
/// buffer out column-major.
#[verifier::loop_isolation(false)]
fn apply_core(e00: i64, e01: i64, e10: i64, e11: i64, data: &Vec<i64>, n: u64) -> (out: Vec<i64>)
    requires
        n < 64,
        data@.len() == (1u64 << n),
        kernel_fits(op_from(e00, e01, e10, e11), as_ints(data@), n as nat),
    ensures
        out@.len() == data@.len(),
        as_ints(out@) == tensor_power_apply(op_from(e00, e01, e10, e11), as_ints(data@), n as nat),
{
    let ghost op = op_from(e00, e01, e10, e11);
    let ghost s0 = as_ints(data@);
    let len: usize = data.len();
    if n == 0 {
        proof {
            assert((1u64 << 0u64) == 1) by (bit_vector);
        }
        let mut out: Vec<i64> = Vec::new();
        out.push(data[0]);
        proof {
            assert(as_ints(out@) =~= tensor_power_apply(op, s0, 0));
        }
        return out;
    }
    proof {
        assert(1 <= n && n <= 63 ==> (1u64 << n) == 2 * (1u64 << ((n - 1) as u64)) && (1u64 << ((n
            - 1) as u64)) >= 1) by (bit_vector);
    }
    let half: usize = len / 2;
    let mut cur: Vec<i64> = Vec::new();
    let mut idx: usize = 0;
    while idx < len
        invariant
            idx <= len,
            cur@.len() == idx,
            forall|q: int| 0 <= q < idx ==> cur@[q] == data@[q],
        decreases len - idx,
    {
        cur.push(data[idx]);
        idx = idx + 1;
    }
    let mut i: u64 = 0;
    while i < n
        invariant
            i <= n,
            cur@.len() == len,
            forall|j: int|
                0 <= j < len ==> #[trigger] cur@[j] as int == axes_apply(op, s0, i as nat)[rot_low(
                    i,
                    j as u64,
                ) as int],
        decreases n - i,
    {
        proof {
            assert forall|j: int| 0 <= j < cur@.len() implies #[trigger] bit_swapped(i, j as u64)
                < cur@.len() by {
                lemma_bit_swapped_in_range(i, n, j as u64);
            }
        }
        let scratch = permute_bit_axis(i, &cur);
        proof {
            lemma_axes_apply_len(op, s0, i as nat);
            lemma_axes_apply_len(op, s0, (i + 1) as nat);
        }
        let mut next: Vec<i64> = Vec::new();
        let mut c: usize = 0;
        while c < half
            invariant
                c <= half,
                next@.len() == 2 * c,
                scratch@.len() == len,
                forall|j: int|
                    0 <= j < scratch@.len() ==> #[trigger] scratch@[j] == cur@[bit_swapped(
                        i,
                        j as u64,
                    ) as int],
                forall|j: int|
                    0 <= j < 2 * c ==> #[trigger] next@[j] as int == axes_apply(
                        op,
                        s0,
                        (i + 1) as nat,
                    )[rot_low((i + 1) as u64, j as u64) as int],
            decreases half - c,
        {
            proof {
                lemma_pair_index(n, c as u64, 0);
                lemma_pair_index(n, c as u64, 1);
            }
            let x0 = scratch[2 * c];
            let x1 = scratch[2 * c + 1];
            proof {
                let j0: u64 = (2 * c) as u64;
                let j1: u64 = (2 * c + 1) as u64;
                lemma_bit_swapped_in_range(i, n, j0);
                lemma_bit_swapped_in_range(i, n, j1);
                lemma_rot_low_step(i, n, j0);
                lemma_rot_low_step(i, n, j1);
                lemma_rot_low_in_range((i + 1) as u64, n, j0);
                lemma_rot_low_in_range((i + 1) as u64, n, j1);
                lemma_rot_low_axis_bit(i, n, j0, 0);
                lemma_rot_low_axis_bit(i, n, j0, 1);
                lemma_rot_low_axis_bit(i, n, j1, 0);
                lemma_rot_low_axis_bit(i, n, j1, 1);
                // scratch holds the axis-i-permuted buffer, so its pair at
                // (2c, 2c+1) is the intermediate state read at the two
                // indices that differ only in bit i.
                assert(x0 as int == axes_apply(op, s0, i as nat)[rot_low((i + 1) as u64, j0) as int]);
                assert(x1 as int == axes_apply(op, s0, i as nat)[rot_low((i + 1) as u64, j1) as int]);
                assert(axes_apply(op, s0, (i + 1) as nat) == axis_apply(
                    op,
                    axes_apply(op, s0, i as nat),
                    i,
                ));
                assert(axes_apply(op, s0, (i + 1) as nat)[rot_low((i + 1) as u64, j0) as int]
                    == e00 as int * (x0 as int) + e01 as int * (x1 as int));
                assert(axes_apply(op, s0, (i + 1) as nat)[rot_low((i + 1) as u64, j1) as int]
                    == e10 as int * (x0 as int) + e11 as int * (x1 as int));
                assert(fits_i64(axes_apply(op, s0, (i + 1) as nat)[rot_low(
                    (i + 1) as u64,
                    j0,
                ) as int]));
                assert(fits_i64(axes_apply(op, s0, (i + 1) as nat)[rot_low(
                    (i + 1) as u64,
                    j1,
                ) as int]));
                assert(entry_products_fit(op, x0 as int));
                assert(entry_products_fit(op, x1 as int));
            }
            let v0 = e00 * x0 + e01 * x1;
            let v1 = e10 * x0 + e11 * x1;
            next.push(v0);
            next.push(v1);
            c = c + 1;
        }
        cur = next;
        i = i + 1;
    }
    proof {
        lemma_axes_apply_len(op, s0, n as nat);
    }
    let mut out: Vec<i64> = Vec::new();
    let mut r: usize = 0;
    while r < 2
        invariant
            r <= 2,
            out@.len() == r * half,
            forall|q: int|
                0 <= q < r * half ==> #[trigger] out@[q] as int == axes_apply(op, s0, n as nat)[q],
        decreases 2 - r,
    {
        let mut c: usize = 0;
        while c < half
            invariant
                c <= half,
                out@.len() == r * half + c,
                forall|q: int|
                    0 <= q < r * half + c ==> #[trigger] out@[q] as int == axes_apply(
                        op,
                        s0,
                        n as nat,
                    )[q],
            decreases half - c,
        {
            proof {
                lemma_pair_index(n, c as u64, r as u64);
                lemma_readout_index(n, c as u64, r as u64);
                lemma_rot_low_rot_high_identity(n, (r * half + c) as u64);
            }
            let v = cur[2 * c + r];
            proof {
                assert(v as int == axes_apply(op, s0, n as nat)[(r * half + c) as int]);
            }
            out.push(v);
            c = c + 1;
        }
        proof {
            assert((r as int + 1) * half as int == r as int * half as int + half as int)
                by (nonlinear_arith);
        }
        r = r + 1;
    }
    proof {
        assert(as_ints(out@) =~= tensor_power_apply(op, s0, n as nat));
    }
    out
}

/// Which input invariant of a kernel call was violated.
#[derive(Debug, Clone, Copy, PartialEq, Eq)]
pub enum KernelError {
    /// The state length is not a power of two.
    InvalidDimension,
    /// The operator is not exactly a 2x2 matrix.
    InvalidOperator,
}

impl KernelError {
    /// A descriptive message naming the violated invariant.
    pub fn message(&self) -> (r: String)
        ensures
            *self is InvalidDimension ==> r@ == "data must have 2^N elements"@,
            *self is InvalidOperator ==> r@ == "m must be a 2x2 matrix."@,
    {
        match self {
            KernelError::InvalidDimension => "data must have 2^N elements".to_owned(),
            KernelError::InvalidOperator => "m must be a 2x2 matrix.".to_owned(),
        }
    }
}

/// Computes the product of the n-fold tensor power of a 2x2 operator with
/// a 2^n-length vector `data`, without constructing the Kronecker product.
///
/// The operator rows are read column-wise: `m[k][r]` weights input axis
/// value `k` in output axis value `r`, so the matrix that acts is the
/// transpose of the given rows (the layout a data-matrix-times-operator
/// formulation uses).  The state length must be a power of two and the
/// operator exactly 2x2; each violation is reported, the state checked
/// first, before any computation begins.  The caller keeps the values
/// small enough that every intermediate 64-bit product fits (see
/// `kernel_fits`); within that range the result is the exact integer
/// tensor-power action.
pub fn mat_vec_multiply(m: &Vec<Vec<i64>>, data: &Vec<i64>) -> (r: Result<Vec<i64>, KernelError>)
    requires
        state_length_ok(data@.len()) && operator_shape_ok(m@) ==> kernel_fits(
            op_cols(m@),
            as_ints(data@),
            state_log2(data@.len()) as nat,
        ),
    ensures
        r is Ok <==> state_length_ok(data@.len()) && operator_shape_ok(m@),
        !state_length_ok(data@.len()) ==> r == Err::<Vec<i64>, KernelError>(
            KernelError::InvalidDimension,
        ),
        state_length_ok(data@.len()) && !operator_shape_ok(m@) ==> r == Err::<
            Vec<i64>,
            KernelError,
        >(KernelError::InvalidOperator),
        r matches Ok(out) ==> out@.len() == data@.len() && as_ints(out@) == tensor_power_apply(
            op_cols(m@),
            as_ints(data@),
            state_log2(data@.len()) as nat,
        ),
{
    let found = find_log2(data.len() as u64);
    match found {
        None => Err(KernelError::InvalidDimension),
        Some(n) => {
            if !(m.len() == 2) {
                return Err(KernelError::InvalidOperator);
            }
            if !(m[0].len() == 2 && m[1].len() == 2) {
                return Err(KernelError::InvalidOperator);
            }
            proof {
                lemma_log2_unique(n, state_log2(data@.len()));
            }
            let e00 = m[0][0];
            let e01 = m[1][0];
            let e10 = m[0][1];
            let e11 = m[1][1];
            Ok(apply_core(e00, e01, e10, e11, data, n))
        },
    }
}

/// Applies the n-fold tensor power of the 2x2 operator given by `m`'s rows
/// (read directly as the mathematical matrix) to the 2^n-length vector
/// `data`.  The caller must supply a 2x2 operator and a power-of-two
/// state length; `mat_vec_multiply` is the checked entry point.
pub fn apply(m: &Vec<Vec<i64>>, data: &Vec<i64>) -> (out: Vec<i64>)
    requires
        operator_shape_ok(m@),
        state_length_ok(data@.len()),
        kernel_fits(op_rows(m@), as_ints(data@), state_log2(data@.len()) as nat),
    ensures
        out@.len() == data@.len(),
        as_ints(out@) == tensor_power_apply(
            op_rows(m@),
            as_ints(data@),
            state_log2(data@.len()) as nat,
        ),
{
    let found = find_log2(data.len() as u64);
    match found {
        Some(n) => {
            proof {
                lemma_log2_unique(n, state_log2(data@.len()));
            }
            let e00 = m[0][0];
            let e01 = m[0][1];
            let e10 = m[1][0];
            let e11 = m[1][1];
            apply_core(e00, e01, e10, e11, data, n)
        },
        None => vstd::pervasive::unreached(),
    }
}

/// `c` raised to the power `e`.
pub open spec fn int_pow(c: int, e: nat) -> int
    decreases e,
{
    if e == 0 {
        1
    } else {
        c * int_pow(c, (e - 1) as nat)
    }
}

/// Multiplication is associative.
proof fn lemma_mul_assoc3(a: int, b: int, x: int)
    ensures
        a * (b * x) == (a * b) * x,
{
    assert(a * (b * x) == (a * b) * x) by (nonlinear_arith);
}

/// Multiplication is commutative.
proof fn lemma_mul_comm(a: int, b: int)
    ensures
        a * b == b * a,
{
    assert(a * b == b * a) by (nonlinear_arith);
}

/// Multiplication distributes over addition on the right.
proof fn lemma_mul_dist(m: int, u: int, v: int)
    ensures
        m * (u + v) == m * u + m * v,
{
    assert(m * (u + v) == m * u + m * v) by (nonlinear_arith);
}

/// Multiplication distributes over addition on the left.
proof fn lemma_dist_right(u: int, v: int, x: int)
    ensures
        (u + v) * x == u * x + v * x,
{
    assert((u + v) * x == u * x + v * x) by (nonlinear_arith);
}

/// The 2x2 identity matrix.
pub open spec fn identity_op() -> Op2 {
    Op2 { e00: 1, e01: 0, e10: 0, e11: 1 }
}

/// Every entry of `op` multiplied by `c`.
pub open spec fn scale_op(c: int, op: Op2) -> Op2 {
    Op2 { e00: c * op.e00, e01: c * op.e01, e10: c * op.e10, e11: c * op.e11 }
}

/// Every entry of `s` multiplied by `c`.
pub open spec fn scale_all(c: int, s: Seq<int>) -> Seq<int> {
    s.map_values(|x: int| c * x)
}

/// Entrywise statement that the matrix product of `op` with itself is the
/// identity matrix.
pub open spec fn op_squares_to_identity(op: Op2) -> bool {
    &&& op.e00 * op.e00 + op.e01 * op.e10 == 1
    &&& op.e00 * op.e01 + op.e01 * op.e11 == 0
    &&& op.e10 * op.e00 + op.e11 * op.e10 == 0
    &&& op.e10 * op.e01 + op.e11 * op.e11 == 1
}

/// Helper for the identity law: induction over the prefix of applied axes.
proof fn lemma_identity_axes(s: Seq<int>, t: nat, n: u64)
    requires
        t <= n,
        n <= 63,
        s.len() == (1u64 << n),
    ensures
        axes_apply(identity_op(), s, t) == s,
    decreases t,
{
    if t > 0 {
        let i = (t - 1) as u64;
        lemma_identity_axes(s, (t - 1) as nat, n);
        let prev = axes_apply(identity_op(), s, (t - 1) as nat);
        assert forall|j: int| 0 <= j < s.len() implies axis_apply(identity_op(), prev, i)[j]
            == s[j] by {
            let ju = j as u64;
            lemma_bit_at_self(ju, i);
            let b = bit_at(ju, i);
            if b == 0 {
                assert(with_bit(ju, i, 0) == ju);
            } else {
                assert(with_bit(ju, i, 1) == ju);
            }
        }
        assert(axes_apply(identity_op(), s, t) =~= s);
    }
}

/// Identity law: the n-fold tensor power of the 2x2 identity operator
/// leaves every 2^n-length state unchanged, for every n >= 0.
pub proof fn lemma_identity_law(s: Seq<int>, n: nat)
    requires
        n < 64,
        s.len() == (1u64 << (n as u64)),
    ensures
        tensor_power_apply(identity_op(), s, n) == s,
{
    lemma_identity_axes(s, n, n as u64);
}

/// Base case: a zero-fold tensor power acts as the scalar 1, returning the
/// state unchanged for any operator.
pub proof fn lemma_base_case(op: Op2, s: Seq<int>)
    ensures
        tensor_power_apply(op, s, 0) == s,
{
}

/// Helper for the scaling law: induction over the prefix of applied axes.
proof fn lemma_scaling_axes(c: int, op: Op2, s: Seq<int>, t: nat, n: u64)
    requires
        t <= n,
        n <= 63,
        s.len() == (1u64 << n),
    ensures
        axes_apply(scale_op(c, op), s, t) == scale_all(int_pow(c, t), axes_apply(op, s, t)),
    decreases t,
{
    let ct = int_pow(c, t);
    if t == 0 {
        assert(ct == 1);
        assert(scale_all(1, s) =~= s);
    } else {
        let i = (t - 1) as u64;
        let ck = int_pow(c, (t - 1) as nat);
        lemma_scaling_axes(c, op, s, (t - 1) as nat, n);
        lemma_axes_apply_len(op, s, (t - 1) as nat);
        lemma_axes_apply_len(scale_op(c, op), s, (t - 1) as nat);
        let w = axes_apply(op, s, (t - 1) as nat);
        assert(ct == c * ck);
        assert forall|j: int| 0 <= j < s.len() implies axis_apply(
            scale_op(c, op),
            scale_all(ck, w),
            i,
        )[j] == scale_all(ct, axis_apply(op, w, i))[j] by {
            let ju = j as u64;
            lemma_bit_at_self(ju, i);
            let b = bit_at(ju, i);
            lemma_with_bit_in_range(ju, i, 0, n);
            lemma_with_bit_in_range(ju, i, 1, n);
            let j0 = with_bit(ju, i, 0) as int;
            let j1 = with_bit(ju, i, 1) as int;
            let p = op_entry(op, b, 0);
            let q = op_entry(op, b, 1);
            let x0 = w[j0];
            let x1 = w[j1];
            assert(scale_all(ck, w)[j0] == ck * x0);
            assert(scale_all(ck, w)[j1] == ck * x1);
            assert(op_entry(scale_op(c, op), b, 0) == c * p);
            assert(op_entry(scale_op(c, op), b, 1) == c * q);
            lemma_mul_dist(c * ck, p * x0, q * x1);
            lemma_mul_assoc3(c * p, ck, x0);
            lemma_mul_assoc3(c, p, ck);
            lemma_mul_comm(p, ck);
            lemma_mul_assoc3(c, ck, p);
            lemma_mul_assoc3(c * ck, p, x0);
            assert((c * p) * (ck * x0) == (c * ck) * (p * x0));
            lemma_mul_assoc3(c * q, ck, x1);
            lemma_mul_assoc3(c, q, ck);
            lemma_mul_comm(q, ck);
            lemma_mul_assoc3(c, ck, q);
            lemma_mul_assoc3(c * ck, q, x1);
            assert((c * q) * (ck * x1) == (c * ck) * (q * x1));
        }
        assert(axes_apply(scale_op(c, op), s, t) =~= scale_all(ct, axes_apply(op, s, t)));
    }
}

/// Scaling law: the n-fold tensor power of `c` times `op` acts as `c^n`
/// times the n-fold tensor power of `op`.
pub proof fn lemma_scaling_law(c: int, op: Op2, s: Seq<int>, n: nat)
    requires
        n < 64,
        s.len() == (1u64 << (n as u64)),
    ensures
        tensor_power_apply(scale_op(c, op), s, n) == scale_all(
            int_pow(c, n),
            tensor_power_apply(op, s, n),
        ),
{
    lemma_scaling_axes(c, op, s, n, n as u64);
}

/// Applying the same axis twice with an operator whose square is the
/// identity restores the state.
#[verifier::rlimit(100)]
proof fn lemma_axis_apply_twice(op: Op2, x: Seq<int>, t: u64, n: u64)
    requires
        op_squares_to_identity(op),
        t < n,
        n <= 63,
        x.len() == (1u64 << n),
    ensures
        axis_apply(op, axis_apply(op, x, t), t) == x,
{
    let y = axis_apply(op, x, t);
    assert forall|j: int| 0 <= j < x.len() implies axis_apply(op, y, t)[j] == x[j] by {
        let ju = j as u64;
        lemma_bit_at_self(ju, t);
        let b = bit_at(ju, t);
        lemma_with_bit_in_range(ju, t, 0, n);
        lemma_with_bit_in_range(ju, t, 1, n);
        let j0u = with_bit(ju, t, 0);
        let j1u = with_bit(ju, t, 1);
        lemma_with_bit_same(ju, t, 0, 0);
        lemma_with_bit_same(ju, t, 0, 1);
        lemma_with_bit_same(ju, t, 1, 0);
        lemma_with_bit_same(ju, t, 1, 1);
        let x0 = x[j0u as int];
        let x1 = x[j1u as int];
        assert(y[j0u as int] == op.e00 * x0 + op.e01 * x1);
        assert(y[j1u as int] == op.e10 * x0 + op.e11 * x1);
        lemma_mul_dist(op.e00, op.e00 * x0, op.e01 * x1);
        lemma_mul_dist(op.e01, op.e10 * x0, op.e11 * x1);
        lemma_mul_dist(op.e10, op.e00 * x0, op.e01 * x1);
        lemma_mul_dist(op.e11, op.e10 * x0, op.e11 * x1);
        lemma_mul_assoc3(op.e00, op.e00, x0);
        lemma_mul_assoc3(op.e00, op.e01, x1);
        lemma_mul_assoc3(op.e01, op.e10, x0);
        lemma_mul_assoc3(op.e01, op.e11, x1);
        lemma_mul_assoc3(op.e10, op.e00, x0);
        lemma_mul_assoc3(op.e10, op.e01, x1);
        lemma_mul_assoc3(op.e11, op.e10, x0);
        lemma_mul_assoc3(op.e11, op.e11, x1);
        lemma_dist_right(op.e00 * op.e00, op.e01 * op.e10, x0);
        lemma_dist_right(op.e00 * op.e01, op.e01 * op.e11, x1);
        lemma_dist_right(op.e10 * op.e00, op.e11 * op.e10, x0);
        lemma_dist_right(op.e10 * op.e01, op.e11 * op.e11, x1);
        if b == 0 {
            assert(with_bit(ju, t, 0) == ju);
            assert(op.e00 * (op.e00 * x0 + op.e01 * x1) + op.e01 * (op.e10 * x0 + op.e11 * x1)
                == (op.e00 * op.e00 + op.e01 * op.e10) * x0 + (op.e00 * op.e01 + op.e01 * op.e11)
                * x1);
        } else {
            assert(with_bit(ju, t, 1) == ju);
            assert(op.e10 * (op.e00 * x0 + op.e01 * x1) + op.e11 * (op.e10 * x0 + op.e11 * x1)
                == (op.e10 * op.e00 + op.e11 * op.e10) * x0 + (op.e10 * op.e01 + op.e11 * op.e11)
                * x1);
        }
    }
    assert(axis_apply(op, y, t) =~= x);
}

/// Applications of `op` to two distinct axes may be done in either order.
#[verifier::rlimit(100)]
proof fn lemma_axis_commute(op: Op2, x: Seq<int>, t: u64, u: u64, n: u64)
    requires
        t < n,
        u < n,
        t != u,
        n <= 63,
        x.len() == (1u64 << n),
    ensures
        axis_apply(op, axis_apply(op, x, t), u) == axis_apply(op, axis_apply(op, x, u), t),
{
    let xt = axis_apply(op, x, t);
    let xu = axis_apply(op, x, u);
    assert forall|j: int| 0 <= j < x.len() implies axis_apply(op, xt, u)[j] == axis_apply(
        op,
        xu,
        t,
    )[j] by {
        let ju = j as u64;
        lemma_bit_at_self(ju, t);
        lemma_bit_at_self(ju, u);
        let bt = bit_at(ju, t);
        let bu = bit_at(ju, u);
        let p = op_entry(op, bt, 0);
        let q = op_entry(op, bt, 1);
        let a = op_entry(op, bu, 0);
        let b = op_entry(op, bu, 1);
        lemma_with_bit_in_range(ju, t, 0, n);
        lemma_with_bit_in_range(ju, t, 1, n);
        lemma_with_bit_in_range(ju, u, 0, n);
        lemma_with_bit_in_range(ju, u, 1, n);
        let jt0 = with_bit(ju, t, 0);
        let jt1 = with_bit(ju, t, 1);
        let ju0 = with_bit(ju, u, 0);
        let ju1 = with_bit(ju, u, 1);
        lemma_with_bit_in_range(ju0, t, 0, n);
        lemma_with_bit_in_range(ju0, t, 1, n);
        lemma_with_bit_in_range(ju1, t, 0, n);
        lemma_with_bit_in_range(ju1, t, 1, n);
        let c00 = with_bit(ju0, t, 0);
        let c01 = with_bit(ju0, t, 1);
        let c10 = with_bit(ju1, t, 0);
        let c11 = with_bit(ju1, t, 1);
        lemma_with_bit_other(ju, u, t, 0, 0);
        lemma_with_bit_other(ju, u, t, 0, 1);
        lemma_with_bit_other(ju, u, t, 1, 0);
        lemma_with_bit_other(ju, u, t, 1, 1);
        lemma_with_bit_other(ju, t, u, 0, 0);
        lemma_with_bit_other(ju, t, u, 0, 1);
        lemma_with_bit_other(ju, t, u, 1, 0);
        lemma_with_bit_other(ju, t, u, 1, 1);
        // the four corner indices agree whichever bit is edited first
        assert(c00 == with_bit(jt0, u, 0));
        assert(c01 == with_bit(jt1, u, 0));
        assert(c10 == with_bit(jt0, u, 1));
        assert(c11 == with_bit(jt1, u, 1));
        let x00 = x[c00 as int];
        let x01 = x[c01 as int];
        let x10 = x[c10 as int];
        let x11 = x[c11 as int];
        assert(xt[ju0 as int] == p * x00 + q * x01);
        assert(xt[ju1 as int] == p * x10 + q * x11);
        assert(xu[jt0 as int] == a * x00 + b * x10);
        assert(xu[jt1 as int] == a * x01 + b * x11);
        lemma_mul_dist(a, p * x00, q * x01);
        lemma_mul_dist(b, p * x10, q * x11);
        lemma_mul_dist(p, a * x00, b * x10);
        lemma_mul_dist(q, a * x01, b * x11);
        lemma_mul_assoc3(a, p, x00);
        lemma_mul_assoc3(a, q, x01);
        lemma_mul_assoc3(b, p, x10);
        lemma_mul_assoc3(b, q, x11);
        lemma_mul_assoc3(p, a, x00);
        lemma_mul_assoc3(p, b, x10);
        lemma_mul_assoc3(q, a, x01);
        lemma_mul_assoc3(q, b, x11);
        lemma_mul_comm(a, p);
        lemma_mul_comm(a, q);
        lemma_mul_comm(b, p);
        lemma_mul_comm(b, q);
        assert(a * (p * x00 + q * x01) + b * (p * x10 + q * x11) == p * (a * x00 + b * x10) + q * (
        a * x01 + b * x11));
    }
    assert(axis_apply(op, xt, u) =~= axis_apply(op, xu, t));
}

/// Applying one further axis commutes with a block of applications to the
/// earlier axes.
proof fn lemma_axis_axes_commute(op: Op2, x: Seq<int>, t: nat, i: u64, n: u64)
    requires
        t <= i,
        i < n,
        n <= 63,
        x.len() == (1u64 << n),
    ensures
        axis_apply(op, axes_apply(op, x, t), i) == axes_apply(op, axis_apply(op, x, i), t),
    decreases t,
{
    if t > 0 {
        let w = axes_apply(op, x, (t - 1) as nat);
        lemma_axes_apply_len(op, x, (t - 1) as nat);
        lemma_axis_commute(op, w, (t - 1) as u64, i, n);
        lemma_axis_axes_commute(op, x, (t - 1) as nat, i, n);
    }
}

/// Helper for the involution law: a prefix of axis applications undone by
/// repeating it.
proof fn lemma_axes_apply_twice(op: Op2, s: Seq<int>, t: nat, n: u64)
    requires
        op_squares_to_identity(op),
        t <= n,
        n <= 63,
        s.len() == (1u64 << n),
    ensures
        axes_apply(op, axes_apply(op, s, t), t) == s,
    decreases t,
{
    if t > 0 {
        let i = (t - 1) as u64;
        let w = axes_apply(op, s, (t - 1) as nat);
        let x = axes_apply(op, s, t);
        lemma_axes_apply_len(op, s, (t - 1) as nat);
        lemma_axes_apply_len(op, s, t);
        // pull the repeated application of axis t-1 to the front
        lemma_axis_axes_commute(op, w, (t - 1) as nat, i, n);
        assert(axes_apply(op, x, (t - 1) as nat) == axis_apply(
            op,
            axes_apply(op, w, (t - 1) as nat),
            i,
        ));
        lemma_axes_apply_twice(op, s, (t - 1) as nat, n);
        assert(axes_apply(op, w, (t - 1) as nat) == s);
        lemma_axis_apply_twice(op, s, i, n);
    }
}

/// Involution law: if the matrix square of `op` is the identity, applying
/// the n-fold tensor power of `op` twice restores every 2^n-length state.
pub proof fn lemma_involution_law(op: Op2, s: Seq<int>, n: nat)
    requires
        op_squares_to_identity(op),
        n < 64,
        s.len() == (1u64 << (n as u64)),
    ensures
        tensor_power_apply(op, tensor_power_apply(op, s, n), n) == s,
{
    lemma_axes_apply_twice(op, s, n, n as u64);
}

} // verus!
