//! Operations that compute elements: pointwise, broadcast, along an axis, and
//! on pairs of channels. The arithmetic itself is a function that the caller
//! hands in; which elements it is applied to, and where its results go, is
//! decided here.
use vstd::prelude::*;
use vstd::string::*;

use crate::error::Error;
use crate::slices::{copy_all, copy_range, extend_range};
use crate::tensor::cpu::CpuTensor;
use crate::tensor::shape::{
    axis_text, broadcast_offset, broadcast_result, broadcast_shape, broadcast_source,
    broadcast_text, broadcastable, checked_num_elements, coords, coords_vec, fits, flat,
    law_coords_then_flat, lemma_broadcast_source, lemma_fits_positive, lemma_operands_stretch,
    lemma_size_append, lemma_size_nonnegative, lemma_size_split, lemma_size_three, normalize_axis,
    normalize_rope_dims, plain_num_elements, resolved_axis, rope_dims_result, rope_shape_error,
    size, source_coords, stretches_to, too_large_text, validate_rope_shape,
};
use crate::text::{decimal, list_text, push_decimal, push_list};

verus! {

// ---------------------------------------------------------------------------
// Pointwise and broadcast
// ---------------------------------------------------------------------------
/// `short` is the tail of `long`.
pub open spec fn is_suffix(short: Seq<usize>, long: Seq<usize>) -> bool {
    short.len() <= long.len() && long.skip(long.len() - short.len()) == short
}

/// An operand whose shape is the tail of the result's shape is read round and round.
pub proof fn lemma_suffix_source(out: Seq<usize>, shape: Seq<usize>, k: int)
    requires
        is_suffix(shape, out),
        0 <= k < size(out),
    ensures
        broadcast_source(out, shape, k) == k % size(shape),
        size(shape) > 0,
    decreases shape.len(),
{
    let c = coords(out, k);
    let d = source_coords(c, shape);
    law_coords_then_flat(out, k);
    assert(out =~= out.take(out.len() - shape.len()) + shape);
    lemma_size_append(out.take(out.len() - shape.len()), shape);
    lemma_size_nonnegative(shape);
    lemma_size_nonnegative(out.take(out.len() - shape.len()));
    assert(size(shape) > 0) by (nonlinear_arith)
        requires
            0 < size(out.take(out.len() - shape.len())) * size(shape),
            size(shape) >= 0,
    ;
    if shape.len() == 0 {
        assert(k % 1 == 0);
    } else {
        let m = out.last() as int;
        let rest_out = out.drop_last();
        let rest = shape.drop_last();
        assert(shape.last() == out.last()) by {
            assert(out.skip(out.len() - shape.len())[shape.len() - 1] == out[out.len() - 1]);
        }
        assert(rest_out.skip(rest_out.len() - rest.len()) =~= rest) by {
            assert forall|i: int| 0 <= i < rest.len() implies rest_out[rest_out.len() - rest.len()
                + i] == rest[i] by {
                assert(out.skip(out.len() - shape.len())[i] == out[out.len() - shape.len() + i]);
            }
        }
        lemma_size_nonnegative(rest_out);
        assert(m > 0) by (nonlinear_arith)
            requires
                0 <= k < size(rest_out) * m,
                m >= 0,
        ;
        let q = k / m;
        assert(0 <= q < size(rest_out)) by (nonlinear_arith)
            requires
                0 <= k < size(rest_out) * m,
                m > 0,
                q == k / m,
        ;
        lemma_suffix_source(rest_out, rest, q);
        let inner = source_coords(coords(rest_out, q), rest);
        assert(c.drop_last() =~= coords(rest_out, q));
        assert(d.drop_last() =~= inner);
        assert(d.last() == k % m) by {
            if shape.last() == 1 {
                assert(k % 1 == 0);
            }
        }
        assert(flat(shape, d) == flat(rest, inner) * m + k % m);
        vstd::arithmetic::div_mod::lemma_mod_breakdown(k, m, size(rest));
        assert(m * size(rest) == size(rest) * m) by (nonlinear_arith);
        assert(m * (q % size(rest)) == (q % size(rest)) * m) by (nonlinear_arith);
    }
}

/// `out` applies `f` to the elements of `lhs` and `rhs` that meet when both are
/// stretched to the shape of the result.
pub open spec fn is_broadcast_of<T, F: Fn(T, T) -> T>(
    lhs: CpuTensor<T>,
    rhs: CpuTensor<T>,
    f: F,
    out: CpuTensor<T>,
) -> bool {
    &&& out.well_formed()
    &&& out.shape@ == broadcast_result(lhs.shape@, rhs.shape@)
    &&& forall|k: int|
        0 <= k < out.data.len() ==> call_ensures(
            f,
            (
                lhs.data@[broadcast_source(out.shape@, lhs.shape@, k)],
                rhs.data@[broadcast_source(out.shape@, rhs.shape@, k)],
            ),
            #[trigger] out.data@[k],
        )
}

fn ends_with(long: &[usize], short: &[usize]) -> (b: bool)
    ensures
        b == is_suffix(short@, long@),
{
    if short.len() > long.len() {
        return false;
    }
    let missing: usize = long.len() - short.len();
    let mut i: usize = 0;
    while i < short.len()
        invariant
            i <= short.len(),
            missing == long.len() - short.len(),
            forall|j: int| 0 <= j < i ==> #[trigger] short@[j] == long@[missing + j],
        decreases short.len() - i,
    {
        if short[i] != long[missing + i] {
            assert(long@.skip(missing as int)[i as int] != short@[i as int]);
            return false;
        }
        i += 1;
    }
    assert(long@.skip(missing as int) =~= short@);
    true
}

impl<T: Copy> CpuTensor<T> {
    /// Applies a function to every element.
    pub fn unary_op<F: Fn(T) -> T>(self, f: F) -> (t: CpuTensor<T>)
        requires
            self.well_formed(),
            forall|x: T| call_requires(f, (x,)),
        ensures
            t.well_formed(),
            t.shape@ == self.shape@,
            forall|k: int|
                0 <= k < t.data.len() ==> call_ensures(f, (self.data@[k],), #[trigger] t.data@[k]),
    {
        let mut data: Vec<T> = Vec::new();
        let mut k: usize = 0;
        while k < self.data.len()
            invariant
                k <= self.data.len(),
                data.len() == k,
                forall|x: T| call_requires(f, (x,)),
                forall|j: int|
                    0 <= j < k ==> call_ensures(f, (self.data@[j],), #[trigger] data@[j]),
            decreases self.data.len() - k,
        {
            data.push(f(self.data[k]));
            k += 1;
        }
        CpuTensor { data, shape: self.shape }
    }

    /// Applies a function to the elements of two tensors that meet under
    /// broadcasting. A result with elements needs elements in both operands.
    pub fn binary_op<F: Fn(T, T) -> T>(self, rhs: &CpuTensor<T>, f: F) -> (r: Result<
        CpuTensor<T>,
        Error,
    >)
        requires
            self.well_formed(),
            rhs.well_formed(),
            broadcastable(self.shape@, rhs.shape@) && size(
                broadcast_result(self.shape@, rhs.shape@),
            ) > 0 ==> size(self.shape@) > 0 && size(rhs.shape@) > 0,
            forall|x: T, y: T| call_requires(f, (x, y)),
        ensures
            match r {
                Ok(t) => broadcastable(self.shape@, rhs.shape@) && fits(t.shape@) && is_broadcast_of(
                    self,
                    *rhs,
                    f,
                    t,
                ),
                Err(e) => if !broadcastable(self.shape@, rhs.shape@) {
                    e@ == broadcast_text(self.shape@, rhs.shape@)
                } else {
                    let out = broadcast_result(self.shape@, rhs.shape@);
                    !fits(out) && e@ == too_large_text(out)
                },
            },
    {
        let shape: Vec<usize> = match broadcast_shape(&self.shape, &rhs.shape) {
            Ok(shape) => shape,
            Err(e) => {
                return Err(e);
            },
        };
        let n: usize = match checked_num_elements(&shape) {
            Ok(n) => n,
            Err(e) => {
                return Err(e);
            },
        };
        let lhs_tail: bool = ends_with(&shape, &self.shape);
        let rhs_tail: bool = ends_with(&shape, &rhs.shape);
        proof {
            if n > 0 {
                lemma_operands_stretch(self.shape@, rhs.shape@);
                lemma_fits_positive(self.shape@);
                lemma_fits_positive(rhs.shape@);
            }
        }
        let mut data: Vec<T> = Vec::new();
        let mut k: usize = 0;
        while k < n
            invariant
                k <= n,
                n == size(shape@),
                self.well_formed(),
                rhs.well_formed(),
                shape@ == broadcast_result(self.shape@, rhs.shape@),
                lhs_tail == is_suffix(self.shape@, shape@),
                rhs_tail == is_suffix(rhs.shape@, shape@),
                n > 0 ==> stretches_to(self.shape@, shape@) && stretches_to(rhs.shape@, shape@)
                    && fits(self.shape@) && fits(rhs.shape@),
                forall|x: T, y: T| call_requires(f, (x, y)),
                data.len() == k,
                forall|j: int|
                    0 <= j < k ==> call_ensures(
                        f,
                        (
                            self.data@[broadcast_source(shape@, self.shape@, j)],
                            rhs.data@[broadcast_source(shape@, rhs.shape@, j)],
                        ),
                        #[trigger] data@[j],
                    ),
            decreases n - k,
        {
            proof {
                lemma_broadcast_source(shape@, self.shape@, k as int);
                lemma_broadcast_source(shape@, rhs.shape@, k as int);
                law_coords_then_flat(shape@, k as int);
                if lhs_tail {
                    lemma_suffix_source(shape@, self.shape@, k as int);
                }
                if rhs_tail {
                    lemma_suffix_source(shape@, rhs.shape@, k as int);
                }
            }
            if lhs_tail && rhs_tail {
                // At most one operand is repeated, and that one block by block.
                data.push(f(self.data[k % self.data.len()], rhs.data[k % rhs.data.len()]));
            } else {
                let c: Vec<usize> = coords_vec(&shape, k);
                let i: usize = broadcast_offset(&c, &shape, &self.shape);
                let j: usize = broadcast_offset(&c, &shape, &rhs.shape);
                data.push(f(self.data[i], rhs.data[j]));
            }
            k += 1;
        }
        Ok(CpuTensor { data, shape })
    }

    /// Splits the last axis in two halves and combines them element by element;
    /// `f` gates an element of the second half by one of the first.
    pub fn split_last_dim_two_gelu_mul<F: Fn(T, T) -> T>(self, f: F) -> (r: Result<
        CpuTensor<T>,
        Error,
    >)
        requires
            self.well_formed(),
            forall|x: T, y: T| call_requires(f, (x, y)),
        ensures
            match r {
                Ok(t) => {
                    let rank = self.shape.len() as int;
                    let half = self.shape@[rank - 1] as int / 2;
                    &&& rank > 0 && self.shape@[rank - 1] % 2 == 0
                    &&& t.well_formed()
                    &&& t.shape@ == self.shape@.update(rank - 1, half as usize)
                    &&& forall|k: int|
                        0 <= k < t.data.len() ==> call_ensures(
                            f,
                            (
                                self.data@[(k / half) * (2 * half) + k % half],
                                self.data@[(k / half) * (2 * half) + half + k % half],
                            ),
                            #[trigger] t.data@[k],
                        )
                },
                Err(e) => if self.shape.len() == 0 {
                    e@ == "split_last_dim_two_gelu_mul requires rank >= 1"@
                } else {
                    self.shape@[self.shape.len() - 1] % 2 != 0 && e@
                        == "split_last_dim_two_gelu_mul requires an even last dimension, got shape "@
                        + list_text(self.shape@)
                },
            },
    {
        let rank: usize = self.shape.len();
        if rank == 0 {
            return Err(Error::message("split_last_dim_two_gelu_mul requires rank >= 1"));
        }
        let dim: usize = self.shape[rank - 1];
        if dim % 2 != 0 {
            let mut text = String::from_str(
                "split_last_dim_two_gelu_mul requires an even last dimension, got shape ",
            );
            push_list(&mut text, &self.shape);
            return Err(Error::from_text(text));
        }
        let half: usize = dim / 2;
        let mut shape: Vec<usize> = copy_all(&self.shape);
        shape.set(rank - 1, half);
        let n: usize = self.data.len() / 2;
        let ghost rows = size(self.shape@.drop_last());
        proof {
            assert(shape@.drop_last() =~= self.shape@.drop_last());
            lemma_size_nonnegative(self.shape@.drop_last());
            assert(self.shape@.last() == dim && shape@.last() == half);
            assert(rows * dim == 2 * (rows * half)) by (nonlinear_arith)
                requires
                    dim == 2 * half,
            ;
        }
        let mut data: Vec<T> = Vec::new();
        let mut k: usize = 0;
        while k < n
            invariant
                k <= n,
                n == size(shape@),
                n == rows * half,
                rows >= 0,
                dim == 2 * half,
                self.data.len() == rows * dim,
                data.len() == k,
                forall|x: T, y: T| call_requires(f, (x, y)),
                forall|j: int|
                    0 <= j < k ==> call_ensures(
                        f,
                        (
                            self.data@[(j / half as int) * (2 * half) + j % half as int],
                            self.data@[(j / half as int) * (2 * half) + half + j % half as int],
                        ),
                        #[trigger] data@[j],
                    ),
            decreases n - k,
        {
            proof {
                assert(half > 0) by (nonlinear_arith)
                    requires
                        0 <= k < rows * half,
                        half >= 0,
                ;
                vstd::arithmetic::div_mod::lemma_fundamental_div_mod(k as int, half as int);
                let q = k as int / half as int;
                let m = k as int % half as int;
                assert(0 <= m < half && 0 <= q < rows) by (nonlinear_arith)
                    requires
                        half > 0,
                        k == half * q + m,
                        m == k as int % half as int,
                        0 <= k < rows * half,
                ;
                assert(0 <= q * (2 * half) && q * (2 * half) + half + m < rows * dim)
                    by (nonlinear_arith)
                    requires
                        0 <= m < half,
                        0 <= q,
                        q + 1 <= rows,
                        dim == 2 * half,
                ;
            }
            let start: usize = (k / half) * (2 * half);
            let col: usize = k % half;
            data.push(f(self.data[start + col], self.data[start + half + col]));
            k += 1;
        }
        Ok(CpuTensor { data, shape })
    }
}

// ---------------------------------------------------------------------------
// Along an axis
// ---------------------------------------------------------------------------
/// `after` is what `kernel` can give on the values `before`.
pub open spec fn is_kernel_result<T, K: Fn(&Vec<T>) -> Vec<T>>(
    kernel: K,
    before: Seq<T>,
    after: Seq<T>,
) -> bool {
    exists|v: Vec<T>, r: Vec<T>|
        v@ == before && r@ == after && #[trigger] call_ensures(kernel, (&v,), r)
}

/// `n` elements from `base` on, `stride` apart.
pub open spec fn lane<T>(data: Seq<T>, base: int, stride: int, n: int) -> Seq<T> {
    Seq::new(n as nat, |j: int| data[base + j * stride])
}

/// The position where the lane through block `o` and offset `i` begins.
pub open spec fn lane_base(o: int, i: int, axis_len: int, inner: int) -> int {
    o * (axis_len * inner) + i
}

/// Every lane of `out` is what `kernel` can give on the same lane of `data`.
pub open spec fn lanes_mapped<T, K: Fn(&Vec<T>) -> Vec<T>>(
    data: Seq<T>,
    out: Seq<T>,
    outer: int,
    axis_len: int,
    inner: int,
    kernel: K,
) -> bool {
    forall|o: int, i: int|
        0 <= o < outer && 0 <= i < inner ==> is_kernel_result(
            kernel,
            #[trigger] lane(data, lane_base(o, i, axis_len, inner), inner, axis_len),
            lane(out, lane_base(o, i, axis_len, inner), inner, axis_len),
        )
}

proof fn lemma_lane_position(o: int, j: int, i: int, outer: int, axis_len: int, inner: int)
    requires
        0 <= o < outer,
        0 <= j < axis_len,
        0 <= i < inner,
    ensures
        ({
            let k = lane_base(o, i, axis_len, inner) + j * inner;
            &&& 0 <= k < outer * (axis_len * inner)
            &&& 0 <= j * inner
            &&& j * inner + i < axis_len * inner
            &&& 0 <= o * (axis_len * inner)
            &&& o * (axis_len * inner) + axis_len * inner <= outer * (axis_len * inner)
            &&& k / (axis_len * inner) == o
            &&& k % (axis_len * inner) == j * inner + i
            &&& (j * inner + i) / inner == j
            &&& (j * inner + i) % inner == i
        }),
{
    let block = axis_len * inner;
    assert(0 <= j * inner && j * inner + i < block) by (nonlinear_arith)
        requires
            0 <= j,
            j + 1 <= axis_len,
            0 <= i < inner,
            block == axis_len * inner,
    ;
    assert(0 <= o * block && o * block + block <= outer * block) by (nonlinear_arith)
        requires
            0 <= o,
            o + 1 <= outer,
            block >= 0,
    ;
    let k = o * block + (j * inner + i);
    vstd::arithmetic::div_mod::lemma_fundamental_div_mod_converse(k, block, o, j * inner + i);
    vstd::arithmetic::div_mod::lemma_fundamental_div_mod_converse(j * inner + i, inner, j, i);
}

/// Applies `kernel` to every lane along the middle of three axes.
fn map_lanes<T: Copy, K: Fn(&Vec<T>) -> Vec<T>>(
    data: &Vec<T>,
    outer: usize,
    axis_len: usize,
    inner: usize,
    kernel: K,
) -> (out: Vec<T>)
    requires
        data.len() == outer * (axis_len * inner),
        axis_len * inner <= usize::MAX,
        outer * inner <= usize::MAX,
        outer > 0,
        axis_len > 0,
        inner > 0,
        forall|v: &Vec<T>| call_requires(kernel, (v,)),
        forall|v: &Vec<T>, r: Vec<T>| call_ensures(kernel, (v,), r) ==> r.len() == v.len(),
    ensures
        out.len() == data.len(),
        lanes_mapped(data@, out@, outer as int, axis_len as int, inner as int, kernel),
{
    let block: usize = axis_len * inner;
    let lanes: usize = outer * inner;
    let mut results: Vec<Vec<T>> = Vec::new();
    let mut l: usize = 0;
    while l < lanes
        invariant
            l <= lanes,
            lanes == outer * inner,
            block == axis_len * inner,
            data.len() == outer * block,
            outer > 0,
            axis_len > 0,
            inner > 0,
            forall|v: &Vec<T>| call_requires(kernel, (v,)),
            forall|v: &Vec<T>, r: Vec<T>| call_ensures(kernel, (v,), r) ==> r.len() == v.len(),
            results.len() == l,
            forall|m: int|
                0 <= m < l ==> (#[trigger] results@[m]).len() == axis_len && is_kernel_result(
                    kernel,
                    lane(
                        data@,
                        lane_base(
                            m / inner as int,
                            m % inner as int,
                            axis_len as int,
                            inner as int,
                        ),
                        inner as int,
                        axis_len as int,
                    ),
                    results@[m]@,
                ),
        decreases lanes - l,
    {
        let o: usize = l / inner;
        let i: usize = l % inner;
        proof {
            vstd::arithmetic::div_mod::lemma_fundamental_div_mod(l as int, inner as int);
            assert(0 <= o < outer) by (nonlinear_arith)
                requires
                    l == inner * o + i,
                    0 <= i,
                    0 <= l < outer * inner,
                    inner > 0,
                    o >= 0,
            ;
            lemma_lane_position(
                o as int,
                0,
                i as int,
                outer as int,
                axis_len as int,
                inner as int,
            );
        }
        let base: usize = o * block + i;
        let mut values: Vec<T> = Vec::new();
        let mut j: usize = 0;
        while j < axis_len
            invariant
                j <= axis_len,
                o < outer,
                i < inner,
                base == lane_base(o as int, i as int, axis_len as int, inner as int),
                block == axis_len * inner,
                data.len() == outer * block,
                values.len() == j,
                forall|h: int| 0 <= h < j ==> #[trigger] values@[h] == data@[base + h * inner],
            decreases axis_len - j,
        {
            proof {
                lemma_lane_position(
                    o as int,
                    j as int,
                    i as int,
                    outer as int,
                    axis_len as int,
                    inner as int,
                );
            }
            values.push(data[base + j * inner]);
            j += 1;
        }
        let result: Vec<T> = kernel(&values);
        proof {
            let before = lane(data@, base as int, inner as int, axis_len as int);
            assert(values@ =~= before);
            assert(call_ensures(kernel, (&values,), result));
            assert(is_kernel_result(kernel, before, result@));
        }
        results.push(result);
        l += 1;
    }
    let n: usize = data.len();
    assert(block > 0) by (nonlinear_arith)
        requires
            block == axis_len * inner,
            axis_len > 0,
            inner > 0,
    ;
    let mut out: Vec<T> = Vec::new();
    let mut k: usize = 0;
    while k < n
        invariant
            k <= n,
            n == outer * block,
            block == axis_len * inner,
            lanes == outer * inner,
            axis_len > 0,
            inner > 0,
            block > 0,
            results.len() == lanes,
            forall|m: int| 0 <= m < lanes ==> (#[trigger] results@[m]).len() == axis_len,
            out.len() == k,
            forall|h: int|
                0 <= h < k ==> #[trigger] out@[h] == results@[(h / block as int) * inner + (h
                    % block as int) % inner as int]@[(h % block as int) / inner as int],
        decreases n - k,
    {
        proof {
            let q = k as int / block as int;
            let m = k as int % block as int;
            vstd::arithmetic::div_mod::lemma_fundamental_div_mod(k as int, block as int);
            assert(0 <= m < block && 0 <= q < outer) by (nonlinear_arith)
                requires
                    block > 0,
                    k == block * q + m,
                    m == k as int % block as int,
                    0 <= k < outer * block,
            ;
            let a = m / inner as int;
            let b = m % inner as int;
            vstd::arithmetic::div_mod::lemma_fundamental_div_mod(m, inner as int);
            assert(0 <= b < inner && 0 <= a < axis_len) by (nonlinear_arith)
                requires
                    inner > 0,
                    m == inner * a + b,
                    b == m % inner as int,
                    0 <= m < axis_len * inner,
            ;
            assert(0 <= q * inner && q * inner + b < outer * inner) by (nonlinear_arith)
                requires
                    0 <= q,
                    q + 1 <= outer,
                    0 <= b < inner,
            ;
        }
        let o: usize = k / block;
        let rest: usize = k % block;
        let j: usize = rest / inner;
        let i: usize = rest % inner;
        out.push(results[o * inner + i][j]);
        k += 1;
    }
    proof {
        let (d, a, b) = (outer as int, axis_len as int, inner as int);
        assert forall|o: int, i: int| 0 <= o < d && 0 <= i < b implies is_kernel_result(
            kernel,
            #[trigger] lane(data@, lane_base(o, i, a, b), b, a),
            lane(out@, lane_base(o, i, a, b), b, a),
        ) by {
            let m = o * b + i;
            assert(0 <= m < lanes) by (nonlinear_arith)
                requires
                    m == o * b + i,
                    0 <= o,
                    o + 1 <= d,
                    0 <= i < b,
                    lanes == d * b,
            ;
            vstd::arithmetic::div_mod::lemma_fundamental_div_mod_converse(m, b, o, i);
            assert(lane(out@, lane_base(o, i, a, b), b, a) =~= results@[m]@) by {
                assert forall|j: int| 0 <= j < a implies #[trigger] lane(
                    out@,
                    lane_base(o, i, a, b),
                    b,
                    a,
                )[j] == results@[m]@[j] by {
                    lemma_lane_position(o, j, i, d, a, b);
                    let k = lane_base(o, i, a, b) + j * b;
                    assert(out@[k] == results@[(k / block as int) * inner + (k % block as int)
                        % inner as int]@[(k % block as int) / inner as int]);
                }
            }
        }
    }
    out
}

/// The part of a shape before an axis, and the part after it, with the lengths
/// that the lanes along the axis have.
pub open spec fn outer_size(shape: Seq<usize>, axis: int) -> int {
    size(shape.take(axis))
}

pub open spec fn inner_size(shape: Seq<usize>, axis: int) -> int {
    size(shape.skip(axis + 1))
}

impl<T: Copy> CpuTensor<T> {
    /// Replaces the values along an axis by what `kernel` gives on them. The axis
    /// may be counted from the end.
    pub fn softmax<K: Fn(&Vec<T>) -> Vec<T>>(self, axis: isize, kernel: K) -> (r: Result<
        CpuTensor<T>,
        Error,
    >)
        requires
            self.well_formed(),
            self.shape.len() <= isize::MAX,
            forall|v: &Vec<T>| call_requires(kernel, (v,)),
            forall|v: &Vec<T>, r: Vec<T>| call_ensures(kernel, (v,), r) ==> r.len() == v.len(),
        ensures
            match r {
                Ok(t) => {
                    let a = resolved_axis(axis as int, self.shape.len() as int);
                    &&& 0 <= a < self.shape.len()
                    &&& t.well_formed()
                    &&& t.shape@ == self.shape@
                    &&& self.data.len() > 0 ==> lanes_mapped(
                        self.data@,
                        t.data@,
                        outer_size(self.shape@, a),
                        self.shape@[a] as int,
                        inner_size(self.shape@, a),
                        kernel,
                    )
                },
                Err(e) => if self.shape.len() == 0 {
                    e@ == "softmax expects a tensor with at least one dimension"@
                } else {
                    !(0 <= resolved_axis(axis as int, self.shape.len() as int) < self.shape.len())
                        && e@ == axis_text("softmax"@, axis as int, self.shape.len() as int)
                },
            },
    {
        if self.shape.len() == 0 {
            return Err(Error::message("softmax expects a tensor with at least one dimension"));
        }
        let a: usize = match normalize_axis(axis, self.shape.len(), "softmax") {
            Ok(a) => a,
            Err(e) => {
                return Err(e);
            },
        };
        if self.data.len() == 0 {
            return Ok(self);
        }
        let ghost s = self.shape@;
        let axis_len: usize = self.shape[a];
        let front: Vec<usize> = copy_range(&self.shape, 0, a);
        let back: Vec<usize> = copy_range(&self.shape, a + 1, self.shape.len());
        proof {
            assert(front@ =~= s.take(a as int));
            assert(back@ =~= s.skip(a as int + 1));
            lemma_size_split(s, a as int);
            lemma_fits_positive(s);
            lemma_size_nonnegative(front@);
            lemma_size_nonnegative(back@);
            let (x, y, z) = (size(front@), axis_len as int, size(back@));
            assert(x > 0 && y > 0 && z > 0 && x <= usize::MAX && z <= usize::MAX && y * z
                <= usize::MAX && x * z <= usize::MAX) by (nonlinear_arith)
                requires
                    0 < x * (y * z) <= usize::MAX,
                    x >= 0,
                    y >= 0,
                    z >= 0,
            ;
            lemma_fits_positive(front@);
            lemma_fits_positive(back@);
        }
        let outer: usize = plain_num_elements(&front);
        let inner: usize = plain_num_elements(&back);
        let data: Vec<T> = map_lanes(&self.data, outer, axis_len, inner, kernel);
        Ok(CpuTensor { data, shape: self.shape })
    }

    /// Replaces every row along the last axis by what `kernel` gives on the row
    /// and the weights.
    pub fn rms_norm<K: Fn(&Vec<T>, &Vec<T>) -> Vec<T>>(self, weight: &CpuTensor<T>, kernel: K) -> (r:
        Result<CpuTensor<T>, Error>)
        requires
            self.well_formed(),
            weight.well_formed(),
            forall|v: &Vec<T>, w: &Vec<T>| call_requires(kernel, (v, w)),
            forall|v: &Vec<T>, w: &Vec<T>, r: Vec<T>|
                call_ensures(kernel, (v, w), r) ==> r.len() == v.len(),
        ensures
            match r {
                Ok(t) => {
                    let dim = self.shape@[self.shape.len() - 1] as int;
                    &&& self.shape.len() > 0 && weight.shape@ == seq![dim as usize]
                    &&& t.well_formed()
                    &&& t.shape@ == self.shape@
                    &&& forall|row: int|
                        0 <= row && (row + 1) * dim <= self.data.len() && dim > 0
                            ==> is_row_result(
                            kernel,
                            weight.data,
                            #[trigger] self.data@.subrange(row * dim, (row + 1) * dim),
                            t.data@.subrange(row * dim, (row + 1) * dim),
                        )
                },
                Err(e) => if self.shape.len() == 0 {
                    e@ == "rms_norm expects an input tensor with at least one dimension"@
                } else {
                    let dim = self.shape@[self.shape.len() - 1];
                    weight.shape@ != seq![dim] && e@ == "rms_norm weight must have shape ["@
                        + decimal(dim as nat) + "], got "@ + list_text(weight.shape@)
                },
            },
    {
        let rank: usize = self.shape.len();
        if rank == 0 {
            return Err(
                Error::message("rms_norm expects an input tensor with at least one dimension"),
            );
        }
        let dim: usize = self.shape[rank - 1];
        if !(weight.shape.len() == 1 && weight.shape[0] == dim) {
            let mut text = String::from_str("rms_norm weight must have shape [");
            push_decimal(&mut text, dim as u64);
            text.append("], got ");
            push_list(&mut text, &weight.shape);
            assert(weight.shape@ != seq![dim]);
            return Err(Error::from_text(text));
        }
        assert(weight.shape@ =~= seq![dim]);
        if dim == 0 {
            return Ok(self);
        }
        let ghost rows = size(self.shape@.drop_last());
        proof {
            lemma_size_nonnegative(self.shape@.drop_last());
            assert(self.shape@.last() == dim);
        }
        let n: usize = self.data.len();
        let mut data: Vec<T> = Vec::new();
        let ghost mut row: int = 0;
        let mut start: usize = 0;
        while start < n
            invariant
                dim > 0,
                n == self.data.len(),
                n == rows * dim,
                0 <= row <= rows,
                start == row * dim,
                start <= n,
                data.len() == start,
                forall|v: &Vec<T>, w: &Vec<T>| call_requires(kernel, (v, w)),
                forall|v: &Vec<T>, w: &Vec<T>, r: Vec<T>|
                    call_ensures(kernel, (v, w), r) ==> r.len() == v.len(),
                forall|h: int|
                    0 <= h < row ==> is_row_result(
                        kernel,
                        weight.data,
                        #[trigger] self.data@.subrange(h * dim, (h + 1) * dim),
                        data@.subrange(h * dim, (h + 1) * dim),
                    ),
            decreases n - start,
        {
            assert((row + 1) * dim == row * dim + dim && (row + 1) * dim <= rows * dim)
                by (nonlinear_arith)
                requires
                    row * dim < rows * dim,
                    dim > 0,
            ;
            let values: Vec<T> = copy_range(&self.data, start, start + dim);
            let result: Vec<T> = kernel(&values, &weight.data);
            let ghost before = data@;
            extend_range(&mut data, &result, 0, result.len());
            proof {
                assert(result@.subrange(0, result.len() as int) =~= result@);
                assert(call_ensures(kernel, (&values, &weight.data), result));
                assert(is_row_result(kernel, weight.data, values@, result@));
                assert forall|h: int| 0 <= h < row + 1 implies is_row_result(
                    kernel,
                    weight.data,
                    #[trigger] self.data@.subrange(h * dim, (h + 1) * dim),
                    data@.subrange(h * dim, (h + 1) * dim),
                ) by {
                    if h < row {
                        assert(0 <= h * dim && (h + 1) * dim <= row * dim && h * dim <= (h + 1)
                            * dim) by (nonlinear_arith)
                            requires
                                0 <= h,
                                h + 1 <= row,
                                dim > 0,
                        ;
                        assert(data@.subrange(h * dim, (h + 1) * dim) =~= before.subrange(
                            h * dim,
                            (h + 1) * dim,
                        ));
                    } else {
                        assert(data@.subrange(h * dim, (h + 1) * dim) =~= result@);
                        assert(self.data@.subrange(h * dim, (h + 1) * dim) =~= values@);
                    }
                }
                row = row + 1;
            }
            start = start + dim;
        }
        proof {
            assert(row == rows) by (nonlinear_arith)
                requires
                    row * dim == rows * dim,
                    dim > 0,
            ;
            assert forall|h: int| 0 <= h && (h + 1) * dim <= self.data.len() implies is_row_result(
                kernel,
                weight.data,
                #[trigger] self.data@.subrange(h * dim, (h + 1) * dim),
                data@.subrange(h * dim, (h + 1) * dim),
            ) by {
                assert(h < rows) by (nonlinear_arith)
                    requires
                        (h + 1) * dim <= rows * dim,
                        dim > 0,
                ;
            }
        }
        Ok(CpuTensor { data, shape: self.shape })
    }
}

/// `after` is what `kernel` can give on the row `before` and the weights.
pub open spec fn is_row_result<T, K: Fn(&Vec<T>, &Vec<T>) -> Vec<T>>(
    kernel: K,
    weight: Vec<T>,
    before: Seq<T>,
    after: Seq<T>,
) -> bool {
    exists|v: Vec<T>, r: Vec<T>|
        v@ == before && r@ == after && #[trigger] call_ensures(kernel, (&v, &weight), r)
}

// ---------------------------------------------------------------------------
// Rotary embeddings
// ---------------------------------------------------------------------------
/// The pairs of neighbouring channels in `dims` channels from `start` on are
/// turned: `rotate` takes both values of a pair, the position, the offset of the
/// pair and the number of channels that are turned together.
pub open spec fn is_rotated<T, R: Fn(T, T, i32, usize, usize) -> (T, T)>(
    before: Seq<T>,
    after: Seq<T>,
    start: int,
    dims: int,
    position: i32,
    rotate: R,
) -> bool {
    forall|j: int|
        0 <= j < dims / 2 ==> call_ensures(
            rotate,
            (
                before[start + 2 * j],
                before[start + 2 * j + 1],
                position,
                (2 * j) as usize,
                dims as usize,
            ),
            (#[trigger] after[start + 2 * j], after[start + 2 * j + 1]),
        )
}

/// From `from` up to `to` nothing changed.
pub open spec fn is_kept<T>(before: Seq<T>, after: Seq<T>, from: int, to: int) -> bool {
    forall|i: int| from <= i < to ==> #[trigger] after[i] == before[i]
}

/// Appends the turned pairs of `dims` channels from `start` on.
fn push_rotated<T: Copy, R: Fn(T, T, i32, usize, usize) -> (T, T)>(
    out: &mut Vec<T>,
    data: &Vec<T>,
    start: usize,
    dims: usize,
    position: i32,
    rotate: &R,
)
    requires
        old(out).len() == start,
        start + dims <= data.len(),
        dims % 2 == 0,
        forall|a: T, b: T, p: i32, o: usize, d: usize| call_requires(*rotate, (a, b, p, o, d)),
    ensures
        final(out).len() == start + dims,
        is_kept(old(out)@, final(out)@, 0, start as int),
        is_rotated(data@, final(out)@, start as int, dims as int, position, *rotate),
{
    let ghost before = out@;
    let mut offset: usize = 0;
    while offset < dims
        invariant
            offset <= dims,
            dims % 2 == 0,
            offset % 2 == 0,
            start + dims <= data.len(),
            before.len() == start,
            out.len() == start + offset,
            forall|a: T, b: T, p: i32, o: usize, d: usize| call_requires(*rotate, (a, b, p, o, d)),
            is_kept(before, out@, 0, start as int),
            forall|j: int|
                0 <= j < offset as int / 2 ==> call_ensures(
                    *rotate,
                    (
                        data@[start + 2 * j],
                        data@[start + 2 * j + 1],
                        position,
                        (2 * j) as usize,
                        dims,
                    ),
                    (#[trigger] out@[start + 2 * j], out@[start + 2 * j + 1]),
                ),
        decreases dims - offset,
    {
        let pair: (T, T) = rotate(
            data[start + offset],
            data[start + offset + 1],
            position,
            offset,
            dims,
        );
        let ghost h = offset as int / 2;
        assert(offset == 2 * h);
        let ghost earlier = out@;
        out.push(pair.0);
        out.push(pair.1);
        assert forall|j: int| 0 <= j < h + 1 implies call_ensures(
            *rotate,
            (data@[start + 2 * j], data@[start + 2 * j + 1], position, (2 * j) as usize, dims),
            (#[trigger] out@[start + 2 * j], out@[start + 2 * j + 1]),
        ) by {
            if j < h {
                assert(out@[start + 2 * j] == earlier[start + 2 * j]);
                assert(out@[start + 2 * j + 1] == earlier[start + 2 * j + 1]);
            } else {
                assert(out@[start + 2 * j] == pair.0);
                assert(out@[start + 2 * j + 1] == pair.1);
            }
        }
        offset += 2;
    }
}

/// Row `row` of `after` is row `row` of `before` with its first `a` channels
/// turned by one position, the next `b` by another, and the rest kept.
pub open spec fn is_rotated_row<T, R: Fn(T, T, i32, usize, usize) -> (T, T)>(
    before: Seq<T>,
    after: Seq<T>,
    row: int,
    head_dim: int,
    a: int,
    first: i32,
    b: int,
    second: i32,
    rotate: R,
) -> bool {
    &&& is_rotated(before, after, row * head_dim, a, first, rotate)
    &&& is_rotated(before, after, row * head_dim + a, b, second, rotate)
    &&& is_kept(before, after, row * head_dim + a + b, row * head_dim + head_dim)
}

/// The rows of all heads, one row for each token: token `t` of head `h` is row
/// `h * seq_len + t`, and its positions are those of the token.
pub open spec fn heads_rotated<T, R: Fn(T, T, i32, usize, usize) -> (T, T)>(
    before: Seq<T>,
    after: Seq<T>,
    num_heads: int,
    head_dim: int,
    a: int,
    first: Seq<i32>,
    b: int,
    second: Seq<i32>,
    rotate: R,
) -> bool {
    forall|h: int, t: int|
        0 <= h < num_heads && 0 <= t < first.len() ==> #[trigger] is_rotated_token(
            before,
            after,
            h,
            t,
            head_dim,
            a,
            first,
            b,
            second,
            rotate,
        )
}

/// The row of token `t` of head `h` is turned by the positions of the token.
pub open spec fn is_rotated_token<T, R: Fn(T, T, i32, usize, usize) -> (T, T)>(
    before: Seq<T>,
    after: Seq<T>,
    h: int,
    t: int,
    head_dim: int,
    a: int,
    first: Seq<i32>,
    b: int,
    second: Seq<i32>,
    rotate: R,
) -> bool {
    is_rotated_row(
        before,
        after,
        h * first.len() + t,
        head_dim,
        a,
        first[t],
        b,
        second[t],
        rotate,
    )
}

proof fn lemma_rotated_row_extends<T, R: Fn(T, T, i32, usize, usize) -> (T, T)>(
    before: Seq<T>,
    after: Seq<T>,
    longer: Seq<T>,
    row: int,
    head_dim: int,
    a: int,
    first: i32,
    b: int,
    second: i32,
    rotate: R,
)
    requires
        is_rotated_row(before, after, row, head_dim, a, first, b, second, rotate),
        0 <= row,
        0 <= a,
        0 <= b,
        a + b <= head_dim,
        row * head_dim + head_dim <= after.len(),
        is_kept(after, longer, 0, after.len() as int),
    ensures
        is_rotated_row(before, longer, row, head_dim, a, first, b, second, rotate),
{
    let start = row * head_dim;
    assert(start >= 0) by (nonlinear_arith)
        requires
            row >= 0,
            head_dim >= 0,
            start == row * head_dim,
    ;
    assert forall|j: int| 0 <= j < a / 2 implies #[trigger] longer[start + 2 * j] == after[start + 2
        * j] && longer[start + 2 * j + 1] == after[start + 2 * j + 1] by {}
    assert forall|j: int| 0 <= j < b / 2 implies #[trigger] longer[start + a + 2 * j] == after[start
        + a + 2 * j] && longer[start + a + 2 * j + 1] == after[start + a + 2 * j + 1] by {}
    assert forall|i: int| start + a + b <= i < start + head_dim implies #[trigger] longer[i]
        == before[i] by {
        assert(longer[i] == after[i]);
    }
    assert(is_rotated(before, longer, start, a, first, rotate)) by {
        assert forall|j: int| 0 <= j < a / 2 implies call_ensures(
            rotate,
            (before[start + 2 * j], before[start + 2 * j + 1], first, (2 * j) as usize, a as usize),
            (#[trigger] longer[start + 2 * j], longer[start + 2 * j + 1]),
        ) by {
            assert(longer[start + 2 * j] == after[start + 2 * j]);
        }
    }
    assert(is_rotated(before, longer, start + a, b, second, rotate)) by {
        assert forall|j: int| 0 <= j < b / 2 implies call_ensures(
            rotate,
            (
                before[start + a + 2 * j],
                before[start + a + 2 * j + 1],
                second,
                (2 * j) as usize,
                b as usize,
            ),
            (#[trigger] longer[start + a + 2 * j], longer[start + a + 2 * j + 1]),
        ) by {
            assert(longer[start + a + 2 * j] == after[start + a + 2 * j]);
        }
    }
}

/// Turns the rows of all heads.
fn rotate_heads<T: Copy, R: Fn(T, T, i32, usize, usize) -> (T, T)>(
    data: &Vec<T>,
    num_heads: usize,
    head_dim: usize,
    a: usize,
    first: &[i32],
    b: usize,
    second: &[i32],
    rotate: &R,
) -> (out: Vec<T>)
    requires
        first.len() == second.len(),
        data.len() == num_heads * first.len() * head_dim,
        a + b <= head_dim,
        a % 2 == 0,
        b % 2 == 0,
        forall|x: T, y: T, p: i32, o: usize, d: usize| call_requires(*rotate, (x, y, p, o, d)),
    ensures
        out.len() == data.len(),
        heads_rotated(
            data@,
            out@,
            num_heads as int,
            head_dim as int,
            a as int,
            first@,
            b as int,
            second@,
            *rotate,
        ),
{
    let seq_len: usize = first.len();
    let mut out: Vec<T> = Vec::new();
    let ghost (n, s, d) = (num_heads as int, seq_len as int, head_dim as int);
    let mut h: usize = 0;
    assert(h * s * d == 0) by (nonlinear_arith)
        requires
            h == 0,
    ;
    while h < num_heads
        invariant
            h <= num_heads,
            n == num_heads,
            s == seq_len,
            d == head_dim,
            seq_len == first.len() == second.len(),
            data.len() == n * s * d,
            a + b <= head_dim,
            a % 2 == 0,
            b % 2 == 0,
            forall|x: T, y: T, p: i32, o: usize, q: usize| call_requires(*rotate, (x, y, p, o, q)),
            out.len() == h * s * d,
            forall|g: int, t: int|
                0 <= g < h && 0 <= t < s ==> #[trigger] is_rotated_token(
                    data@,
                    out@,
                    g,
                    t,
                    d,
                    a as int,
                    first@,
                    b as int,
                    second@,
                    *rotate,
                ),
        decreases num_heads - h,
    {
        let mut t: usize = 0;
        assert((h * s + 0) * d == h * s * d) by (nonlinear_arith);
        while t < seq_len
            invariant
                h < num_heads,
                t <= seq_len,
                n == num_heads,
                s == seq_len,
                d == head_dim,
                seq_len == first.len() == second.len(),
                data.len() == n * s * d,
                a + b <= head_dim,
                a % 2 == 0,
                b % 2 == 0,
                forall|x: T, y: T, p: i32, o: usize, q: usize|
                    call_requires(*rotate, (x, y, p, o, q)),
                out.len() == (h * s + t) * d,
                forall|g: int, u: int|
                    (0 <= g < h && 0 <= u < s) || (g == h && 0 <= u < t)
                        ==> #[trigger] is_rotated_token(
                        data@,
                        out@,
                        g,
                        u,
                        d,
                        a as int,
                        first@,
                        b as int,
                        second@,
                        *rotate,
                    ),
            decreases seq_len - t,
        {
            let ghost row = h * s + t;
            proof {
                assert(row + 1 <= n * s && row >= 0) by (nonlinear_arith)
                    requires
                        row == h * s + t,
                        h + 1 <= n,
                        t + 1 <= s,
                        h >= 0,
                        t >= 0,
                ;
                assert(row * d + d <= n * s * d && row * d >= 0) by (nonlinear_arith)
                    requires
                        0 <= row,
                        row + 1 <= n * s,
                        d >= 0,
                ;
            }
            let start: usize = out.len();
            let ghost earlier = out@;
            push_rotated(&mut out, data, start, a, first[t], rotate);
            let ghost one = out@;
            push_rotated(&mut out, data, start + a, b, second[t], rotate);
            let ghost two = out@;
            extend_range(&mut out, data, start + a + b, start + head_dim);
            proof {
                assert(is_kept(earlier, out@, 0, earlier.len() as int));
                assert(is_rotated(data@, out@, row * d, a as int, first@[t as int], *rotate)) by {
                    assert forall|j: int| 0 <= j < a as int / 2 implies call_ensures(
                        *rotate,
                        (
                            data@[row * d + 2 * j],
                            data@[row * d + 2 * j + 1],
                            first@[t as int],
                            (2 * j) as usize,
                            a,
                        ),
                        (#[trigger] out@[row * d + 2 * j], out@[row * d + 2 * j + 1]),
                    ) by {
                        assert(out@[row * d + 2 * j] == one[start + 2 * j]);
                        assert(out@[row * d + 2 * j + 1] == one[start + 2 * j + 1]);
                    }
                }
                assert(is_rotated(
                    data@,
                    out@,
                    row * d + a,
                    b as int,
                    second@[t as int],
                    *rotate,
                )) by {
                    assert forall|j: int| 0 <= j < b as int / 2 implies call_ensures(
                        *rotate,
                        (
                            data@[row * d + a + 2 * j],
                            data@[row * d + a + 2 * j + 1],
                            second@[t as int],
                            (2 * j) as usize,
                            b,
                        ),
                        (#[trigger] out@[row * d + a + 2 * j], out@[row * d + a + 2 * j + 1]),
                    ) by {
                        assert(out@[row * d + a + 2 * j] == two[start + a + 2 * j]);
                        assert(out@[row * d + a + 2 * j + 1] == two[start + a + 2 * j + 1]);
                    }
                }
                assert(is_rotated_token(
                    data@,
                    out@,
                    h as int,
                    t as int,
                    d,
                    a as int,
                    first@,
                    b as int,
                    second@,
                    *rotate,
                ));
                assert forall|g: int, u: int|
                    (0 <= g < h && 0 <= u < s) || (g == h && 0 <= u < t + 1) implies
                    #[trigger] is_rotated_token(
                    data@,
                    out@,
                    g,
                    u,
                    d,
                    a as int,
                    first@,
                    b as int,
                    second@,
                    *rotate,
                ) by {
                    if g < h || u < t {
                        let r = g * s + u;
                        assert(0 <= r && r + 1 <= row) by (nonlinear_arith)
                            requires
                                r == g * s + u,
                                row == h * s + t,
                                (0 <= g && g + 1 <= h && 0 <= u && u + 1 <= s) || (g == h && 0 <= u
                                    && u + 1 <= t),
                                s >= 0,
                                h >= 0,
                                t >= 0,
                        ;
                        assert(r * d + d <= row * d) by (nonlinear_arith)
                            requires
                                r + 1 <= row,
                                d >= 0,
                        ;
                        assert(is_rotated_token(
                            data@,
                            earlier,
                            g,
                            u,
                            d,
                            a as int,
                            first@,
                            b as int,
                            second@,
                            *rotate,
                        ));
                        lemma_rotated_row_extends(
                            data@,
                            earlier,
                            out@,
                            r,
                            d,
                            a as int,
                            first@[u],
                            b as int,
                            second@[u],
                            *rotate,
                        );
                    }
                }
                assert((row + 1) * d == row * d + d) by (nonlinear_arith);
            }
            t += 1;
        }
        assert((h * s + s) * d == (h + 1) * s * d) by (nonlinear_arith);
        h += 1;
    }
    out
}

impl<T: Copy> CpuTensor<T> {
    /// Turns pairs of channels of every token by the position of the token.
    pub fn rope<R: Fn(T, T, i32, usize, usize) -> (T, T)>(
        self,
        positions: &[i32],
        head_dim: usize,
        num_heads: usize,
        rope_dims: usize,
        rotate: R,
    ) -> (r: Result<CpuTensor<T>, Error>)
        requires
            self.well_formed(),
            forall|x: T, y: T, p: i32, o: usize, d: usize| call_requires(rotate, (x, y, p, o, d)),
        ensures
            match r {
                Ok(t) => {
                    &&& rope_shape_error(
                        self.shape@,
                        positions.len() as int,
                        head_dim as int,
                        num_heads as int,
                        "rope"@,
                    ) is None
                    &&& t.well_formed()
                    &&& t.shape@ == self.shape@
                    &&& rope_dims_result(head_dim as int, rope_dims as int, "rope"@, false) matches Ok(
                        dims,
                    ) && heads_rotated(
                        self.data@,
                        t.data@,
                        num_heads as int,
                        head_dim as int,
                        dims,
                        positions@,
                        0,
                        positions@,
                        rotate,
                    )
                },
                Err(e) => match rope_shape_error(
                    self.shape@,
                    positions.len() as int,
                    head_dim as int,
                    num_heads as int,
                    "rope"@,
                ) {
                    Some(text) => e@ == text,
                    None => rope_dims_result(head_dim as int, rope_dims as int, "rope"@, false)
                        == Err::<int, Seq<char>>(e@),
                },
            },
    {
        if let Err(e) = validate_rope_shape(
            &self.shape,
            positions.len(),
            head_dim,
            num_heads,
            "rope",
        ) {
            return Err(e);
        }
        let dims: usize = match normalize_rope_dims(head_dim, rope_dims, "rope", false) {
            Ok(dims) => dims,
            Err(e) => {
                return Err(e);
            },
        };
        proof {
            assert(self.shape@ =~= seq![num_heads, positions@.len() as usize, head_dim]);
            lemma_size_three(num_heads, positions@.len() as usize, head_dim);
        }
        let data = rotate_heads(
            &self.data,
            num_heads,
            head_dim,
            dims,
            positions,
            0,
            positions,
            &rotate,
        );
        Ok(CpuTensor { data, shape: self.shape })
    }

    /// Turns the first half of the channels of every token by its global position
    /// and the second half by the number of its region.
    pub fn region_rope<R: Fn(T, T, i32, usize, usize) -> (T, T)>(
        self,
        global_pos: &[i32],
        region_ids: &[i32],
        head_dim: usize,
        num_heads: usize,
        rope_dims: usize,
        rotate: R,
    ) -> (r: Result<CpuTensor<T>, Error>)
        requires
            self.well_formed(),
            forall|x: T, y: T, p: i32, o: usize, d: usize| call_requires(rotate, (x, y, p, o, d)),
        ensures
            match r {
                Ok(t) => {
                    &&& rope_shape_error(
                        self.shape@,
                        global_pos.len() as int,
                        head_dim as int,
                        num_heads as int,
                        "region_rope"@,
                    ) is None
                    &&& region_ids.len() == global_pos.len()
                    &&& t.well_formed()
                    &&& t.shape@ == self.shape@
                    &&& rope_dims_result(
                        head_dim as int,
                        rope_dims as int,
                        "region_rope"@,
                        true,
                    ) matches Ok(dims) && heads_rotated(
                        self.data@,
                        t.data@,
                        num_heads as int,
                        head_dim as int,
                        dims / 2,
                        global_pos@,
                        dims / 2,
                        region_ids@,
                        rotate,
                    )
                },
                Err(e) => match rope_shape_error(
                    self.shape@,
                    global_pos.len() as int,
                    head_dim as int,
                    num_heads as int,
                    "region_rope"@,
                ) {
                    Some(text) => e@ == text,
                    None => if region_ids.len() != global_pos.len() {
                        e@ == "region_rope expected "@ + decimal(global_pos.len() as nat)
                            + " region ids, got "@ + decimal(region_ids.len() as nat)
                    } else {
                        rope_dims_result(head_dim as int, rope_dims as int, "region_rope"@, true)
                            == Err::<int, Seq<char>>(e@)
                    },
                },
            },
    {
        if let Err(e) = validate_rope_shape(
            &self.shape,
            global_pos.len(),
            head_dim,
            num_heads,
            "region_rope",
        ) {
            return Err(e);
        }
        if region_ids.len() != global_pos.len() {
            let mut text = String::from_str("region_rope expected ");
            push_decimal(&mut text, global_pos.len() as u64);
            text.append(" region ids, got ");
            push_decimal(&mut text, region_ids.len() as u64);
            return Err(Error::from_text(text));
        }
        let dims: usize = match normalize_rope_dims(head_dim, rope_dims, "region_rope", true) {
            Ok(dims) => dims,
            Err(e) => {
                return Err(e);
            },
        };
        let half: usize = dims / 2;
        proof {
            assert(self.shape@ =~= seq![num_heads, global_pos@.len() as usize, head_dim]);
            lemma_size_three(num_heads, global_pos@.len() as usize, head_dim);
        }
        let data = rotate_heads(
            &self.data,
            num_heads,
            head_dim,
            half,
            global_pos,
            half,
            region_ids,
            &rotate,
        );
        Ok(CpuTensor { data, shape: self.shape })
    }
}

} // verus!
