//! What dense tensors hold, and what every operation makes of it: the model against
//! which dense tensors are verified, and on which the networks are reasoned about.
use vstd::prelude::*;

use crate::tensor::cpu::{reshape_text, slice_text, swapped};
use crate::tensor::cpu_kernels::{conv_error, conv_time, linear_error, matmul_error, matmul_shape};
use crate::tensor::cpu_layout::{part_error, part_offset};
use crate::tensor::cpu_ops::{inner_size, lane, lane_base};
use crate::tensor::numbers::Algebra;
use crate::tensor::ops::TensorModel;
use crate::tensor::shape::{
    axis_text, broadcast_result, broadcast_source, broadcast_text, broadcastable, coords, fits,
    flat, resolved_axis, rope_dims_result, rope_shape_error, size, too_large_text,
};
use crate::text::{decimal, list_text};

verus! {

/// The shape of a tensor, and its elements in row-major order.
#[verifier::ext_equal]
pub struct Contents<E> {
    pub shape: Seq<usize>,
    pub values: Seq<E>,
}

impl<E> Contents<E> {
    /// There is one element for each position of the shape.
    pub open spec fn well_formed(self) -> bool {
        self.values.len() == size(self.shape)
    }

    /// The element at the given coordinates.
    pub open spec fn at(self, c: Seq<int>) -> E {
        self.values[flat(self.shape, c)]
    }
}

/// The tensor of this shape whose element at position `k` is `f(k)`.
pub open spec fn listed<E>(shape: Seq<usize>, f: spec_fn(int) -> E) -> Contents<E> {
    Contents { shape, values: Seq::new(size(shape) as nat, f) }
}

/// The tensor of this shape whose element at the coordinates `c` is `f(c)`.
pub open spec fn arranged<E>(shape: Seq<usize>, f: spec_fn(Seq<int>) -> E) -> Contents<E> {
    listed(shape, |k: int| f(coords(shape, k)))
}

/// A tensor, unless it is too large to be held.
pub open spec fn held<E>(t: Contents<E>) -> Result<Contents<E>, Seq<char>> {
    if fits(t.shape) {
        Ok(t)
    } else {
        Err(too_large_text(t.shape))
    }
}

/// What comes of a check that gives a text where something is wrong.
pub open spec fn unless<A>(error: Option<Seq<char>>, otherwise: Result<A, Seq<char>>) -> Result<
    A,
    Seq<char>,
> {
    match error {
        Some(text) => Err(text),
        None => otherwise,
    }
}

pub open spec fn axis_complaint(op: Seq<char>, axis: int, rank: int) -> Option<Seq<char>> {
    if axis >= rank {
        Some(axis_text(op, axis, rank))
    } else {
        None
    }
}

pub open spec fn transposed_contents<E>(t: Contents<E>, a: int, b: int) -> Contents<E> {
    arranged(swapped(t.shape, a, b), |c: Seq<int>| t.at(swapped(c, a, b)))
}

/// The part from `start` to `end` of an axis.
pub open spec fn cut<E>(t: Contents<E>, axis: int, start: int, end: int) -> Contents<E> {
    arranged(
        t.shape.update(axis, (end - start) as usize),
        |c: Seq<int>| t.at(c.update(axis, c[axis] + start)),
    )
}

pub open spec fn slice_complaint(shape: Seq<usize>, axis: int, start: int, end: int) -> Option<
    Seq<char>,
> {
    if axis >= shape.len() {
        Some(axis_text("slice"@, axis, shape.len() as int))
    } else if end < start {
        Some(
            "slice end "@ + decimal(end as nat) + " is less than start "@ + decimal(start as nat),
        )
    } else if end > shape[axis] {
        Some(slice_text(axis as nat, start as nat, end as nat, shape))
    } else {
        None
    }
}

/// What is wrong with the first of the leading `n` parts that does not fit.
pub open spec fn parts_complaint<E>(parts: Seq<Contents<E>>, axis: int, n: int) -> Option<Seq<char>>
    decreases n,
{
    if n <= 0 {
        None
    } else {
        match parts_complaint(parts, axis, n - 1) {
            Some(e) => Some(e),
            None => part_error(parts[0].shape, parts[n - 1].shape, axis),
        }
    }
}

/// The lengths of the parts along an axis.
pub open spec fn lengths<E>(parts: Seq<Contents<E>>, axis: int) -> Seq<int> {
    Seq::new(parts.len(), |p: int| parts[p].shape[axis] as int)
}

/// Part `p` covers position `x` of the joined axis.
pub open spec fn covers(dims: Seq<int>, p: int, x: int) -> bool {
    0 <= p < dims.len() && part_offset(dims, p) <= x < part_offset(dims, p + 1)
}

/// The element at `c` of the parts joined along an axis: it comes from the part that
/// covers the coordinate.
pub open spec fn joined_at<E>(parts: Seq<Contents<E>>, axis: int, c: Seq<int>) -> E {
    let dims = lengths(parts, axis);
    let p = choose|p: int| covers(dims, p, c[axis]);
    parts[p].at(c.update(axis, c[axis] - part_offset(dims, p)))
}

/// The parts joined along an axis.
pub open spec fn joined_contents<E>(parts: Seq<Contents<E>>, axis: int) -> Contents<E> {
    arranged(
        parts[0].shape.update(
            axis,
            part_offset(lengths(parts, axis), parts.len() as int) as usize,
        ),
        |c: Seq<int>| joined_at(parts, axis, c),
    )
}

/// Why tensors cannot be joined.
pub open spec fn join_complaint<E>(parts: Seq<Contents<E>>, axis: int) -> Option<Seq<char>> {
    if parts.len() == 0 {
        Some("concat requires at least one tensor"@)
    } else if axis >= parts[0].shape.len() {
        Some(axis_text("concat"@, axis, parts[0].shape.len() as int))
    } else if parts_complaint(parts, axis, parts.len() as int) is Some {
        parts_complaint(parts, axis, parts.len() as int)
    } else if part_offset(lengths(parts, axis), parts.len() as int) > usize::MAX {
        Some("concat dimension overflow"@)
    } else {
        None
    }
}

/// Why the last axis cannot be split in `n` equal parts.
pub open spec fn split_complaint(shape: Seq<usize>, n: int) -> Option<Seq<char>> {
    if shape.len() == 0 {
        Some("split requires a tensor with at least one dimension"@)
    } else if shape.last() as int % n != 0 {
        Some("cannot split the last axis of "@ + list_text(shape) + " in "@ + decimal(n as nat))
    } else {
        None
    }
}

/// Part `i` of the last axis split in `n` equal parts.
pub open spec fn share<E>(t: Contents<E>, n: int, i: int) -> Contents<E> {
    let each = t.shape.last() as int / n;
    cut(t, t.shape.len() - 1, i * each, i * each + each)
}

/// Why two tensors do not go together element by element.
pub open spec fn pairing_complaint(lhs: Seq<usize>, rhs: Seq<usize>) -> Option<Seq<char>> {
    if !broadcastable(lhs, rhs) {
        Some(broadcast_text(lhs, rhs))
    } else if size(broadcast_result(lhs, rhs)) > 0 && (size(lhs) == 0 || size(rhs) == 0) {
        Some(
            "cannot broadcast a tensor without elements: "@ + list_text(lhs) + " and "@
                + list_text(rhs),
        )
    } else {
        None
    }
}

/// What meets under broadcasting, combined by `f`.
pub open spec fn paired<E>(
    lhs: Contents<E>,
    rhs: Contents<E>,
    f: spec_fn(E, E) -> E,
) -> Contents<E> {
    let out = broadcast_result(lhs.shape, rhs.shape);
    listed(
        out,
        |k: int|
            f(
                lhs.values[broadcast_source(out, lhs.shape, k)],
                rhs.values[broadcast_source(out, rhs.shape, k)],
            ),
    )
}

/// Element `i` of the products of two stacks of matrices, the first `m` by `k` and the
/// second `k` by `n`.
pub open spec fn matmul_at<E: Algebra>(
    lhs: Seq<E>,
    rhs: Seq<E>,
    m: int,
    k: int,
    n: int,
    i: int,
) -> E {
    E::dot(
        lane(lhs, (i / n) * k, 1, k),
        lane(rhs, ((i / n) / m) * (k * n) + i % n, n, k),
    )
}

pub open spec fn matmul_contents<E: Algebra>(lhs: Contents<E>, rhs: Contents<E>) -> Contents<E> {
    listed(
        matmul_shape(lhs.shape, rhs.shape),
        |i: int|
            matmul_at(
                lhs.values,
                rhs.values,
                lhs.shape[lhs.shape.len() - 2] as int,
                lhs.shape[lhs.shape.len() - 1] as int,
                rhs.shape[rhs.shape.len() - 1] as int,
                i,
            ),
    )
}

pub open spec fn optional_shape<E>(t: Option<Contents<E>>) -> Option<Seq<usize>> {
    match t {
        Some(t) => Some(t.shape),
        None => None,
    }
}

/// Element `i` of a linear layer with `n` outputs of `k` inputs.
pub open spec fn linear_at<E: Algebra>(
    x: Seq<E>,
    weight: Seq<E>,
    bias: Option<Contents<E>>,
    k: int,
    n: int,
    i: int,
) -> E {
    let product = E::dot(lane(x, (i / n) * k, 1, k), lane(weight, (i % n) * k, 1, k));
    match bias {
        Some(b) => product.plus(b.values[i % n]),
        None => product,
    }
}

pub open spec fn linear_contents<E: Algebra>(
    x: Contents<E>,
    weight: Contents<E>,
    bias: Option<Contents<E>>,
) -> Contents<E> {
    listed(
        x.shape.drop_last().push(weight.shape[0]),
        |i: int|
            linear_at(
                x.values,
                weight.values,
                bias,
                weight.shape[1] as int,
                weight.shape[0] as int,
                i,
            ),
    )
}

/// Why a tensor cannot be normed.
pub open spec fn norm_complaint(shape: Seq<usize>, weight: Seq<usize>) -> Option<Seq<char>> {
    if shape.len() == 0 {
        Some("rms_norm expects an input tensor with at least one dimension"@)
    } else if weight != seq![shape.last()] {
        Some(
            "rms_norm weight must have shape ["@ + decimal(shape.last() as nat) + "], got "@
                + list_text(weight),
        )
    } else {
        None
    }
}

pub open spec fn norm_contents<E: Algebra>(
    x: Contents<E>,
    weight: Contents<E>,
    eps: u32,
) -> Contents<E> {
    let dim = x.shape.last() as int;
    listed(
        x.shape,
        |k: int| E::norm_at(lane(x.values, (k / dim) * dim, 1, dim), weight.values, eps, k % dim),
    )
}

/// Why there is no such axis for a softmax.
pub open spec fn softmax_complaint(rank: int, axis: int) -> Option<Seq<char>> {
    if rank > isize::MAX {
        Some("softmax expects fewer dimensions"@)
    } else if rank == 0 {
        Some("softmax expects a tensor with at least one dimension"@)
    } else if !(0 <= resolved_axis(axis, rank) < rank) {
        Some(axis_text("softmax"@, axis, rank))
    } else {
        None
    }
}

/// Element `k` after a softmax along an axis with `len` elements, `inner` apart.
pub open spec fn softmax_value<E: Algebra>(values: Seq<E>, len: int, inner: int, k: int) -> E {
    E::softmax_at(
        lane(values, lane_base(k / (len * inner), k % inner, len, inner), inner, len),
        k / inner % len,
    )
}

pub open spec fn softmax_contents<E: Algebra>(x: Contents<E>, axis: int) -> Contents<E> {
    let a = resolved_axis(axis, x.shape.len() as int);
    listed(
        x.shape,
        |k: int| softmax_value(x.values, x.shape[a] as int, inner_size(x.shape, a), k),
    )
}

/// Channel `channel` of `dims` that are turned in pairs from `start` on.
pub open spec fn turned_at<E: Algebra>(
    values: Seq<E>,
    start: int,
    channel: int,
    dims: int,
    position: i32,
    theta: u32,
) -> E {
    let first = 2 * (channel / 2);
    let pair = E::turned(
        values[start + first],
        values[start + first + 1],
        position,
        first as usize,
        dims as usize,
        theta,
    );
    if channel % 2 == 0 {
        pair.0
    } else {
        pair.1
    }
}

/// Element `k` of heads whose first `a` channels are turned by one position of the token
/// and the next `b` by another.
pub open spec fn rope_value<E: Algebra>(
    values: Seq<E>,
    head_dim: int,
    a: int,
    first: Seq<i32>,
    b: int,
    second: Seq<i32>,
    theta: u32,
    k: int,
) -> E {
    let row = k / head_dim;
    let channel = k % head_dim;
    let token = row % first.len() as int;
    if channel < a {
        turned_at(values, row * head_dim, channel, a, first[token], theta)
    } else if channel < a + b {
        turned_at(values, row * head_dim + a, channel - a, b, second[token], theta)
    } else {
        values[k]
    }
}

pub open spec fn rope_contents<E: Algebra>(
    x: Contents<E>,
    head_dim: int,
    a: int,
    first: Seq<i32>,
    b: int,
    second: Seq<i32>,
    theta: u32,
) -> Contents<E> {
    listed(x.shape, |k: int| rope_value(x.values, head_dim, a, first, b, second, theta, k))
}

pub open spec fn region_complaint(positions: int, region_ids: int) -> Option<Seq<char>> {
    if region_ids != positions {
        Some(
            "region_rope expected "@ + decimal(positions as nat) + " region ids, got "@ + decimal(
                region_ids as nat,
            ),
        )
    } else {
        None
    }
}

/// The sum of the first `n` weights of a channel on the input that they stand on, with
/// the first weight on input `offset`.
pub open spec fn weighted<E: Algebra>(
    x: Contents<E>,
    kernel: Contents<E>,
    start: E,
    offset: int,
    channel: int,
    n: int,
) -> E
    decreases n,
{
    if n <= 0 {
        start
    } else {
        let before = weighted(x, kernel, start, offset, channel, n - 1);
        if 0 <= offset + n - 1 < x.shape[0] {
            before.plus_product(
                x.values[(offset + n - 1) * x.shape[1] + channel],
                kernel.values[channel * kernel.shape[1] + n - 1],
            )
        } else {
            before
        }
    }
}

/// Why a convolution cannot be made.
pub open spec fn conv_complaint(
    x: Seq<usize>,
    kernel: Seq<usize>,
    bias: Option<Seq<usize>>,
    stride: int,
    padding: int,
) -> Option<Seq<char>> {
    match conv_error(x, kernel, bias, stride as nat) {
        Some(text) => Some(text),
        None => if conv_time(x[0] as int, kernel[1] as int, stride, padding) * x[1] > usize::MAX {
            Some("conv1d_dw dimension overflow"@)
        } else {
            None
        },
    }
}

pub open spec fn conv_contents<E: Algebra>(
    x: Contents<E>,
    kernel: Contents<E>,
    bias: Option<Contents<E>>,
    stride: int,
    padding: int,
) -> Contents<E> {
    let time = conv_time(x.shape[0] as int, kernel.shape[1] as int, stride, padding);
    let channels = x.shape[1] as int;
    listed(
        seq![time as usize, x.shape[1]],
        |i: int|
            weighted(
                x,
                kernel,
                match bias {
                    Some(b) => b.values[i % channels],
                    None => E::zero(),
                },
                i / channels * stride - padding,
                i % channels,
                kernel.shape[1] as int,
            ),
    )
}

impl<E: Algebra> TensorModel for Contents<E> {
    open spec fn dims(&self) -> Seq<usize> {
        self.shape
    }

    open spec fn reshaped(&self, shape: Seq<usize>) -> Result<Self, Seq<char>> {
        if !fits(shape) {
            Err(too_large_text(shape))
        } else if size(shape) != size(self.shape) {
            Err(reshape_text(self.shape, shape))
        } else {
            Ok(Contents { shape, values: self.values })
        }
    }

    open spec fn transposed(&self, dim0: int, dim1: int) -> Result<Self, Seq<char>> {
        unless(
            axis_complaint("transpose"@, dim0, self.shape.len() as int),
            unless(
                axis_complaint("transpose"@, dim1, self.shape.len() as int),
                Ok(transposed_contents(*self, dim0, dim1)),
            ),
        )
    }

    open spec fn sliced(&self, axis: int, start: int, end: int) -> Result<Self, Seq<char>> {
        unless(slice_complaint(self.shape, axis, start, end), Ok(cut(*self, axis, start, end)))
    }

    open spec fn joined(parts: Seq<Self>, axis: int) -> Result<Self, Seq<char>> {
        unless(join_complaint(parts, axis), held(joined_contents(parts, axis)))
    }

    open spec fn halves(&self) -> Result<(Self, Self), Seq<char>> {
        unless(split_complaint(self.shape, 2), Ok((share(*self, 2, 0), share(*self, 2, 1))))
    }

    open spec fn thirds(&self) -> Result<(Self, Self, Self), Seq<char>> {
        unless(
            split_complaint(self.shape, 3),
            Ok((share(*self, 3, 0), share(*self, 3, 1), share(*self, 3, 2))),
        )
    }

    open spec fn sum(&self, rhs: Self) -> Result<Self, Seq<char>> {
        unless(
            pairing_complaint(self.shape, rhs.shape),
            held(paired(*self, rhs, |x: E, y: E| x.plus(y))),
        )
    }

    open spec fn product(&self, rhs: Self) -> Result<Self, Seq<char>> {
        unless(
            pairing_complaint(self.shape, rhs.shape),
            held(paired(*self, rhs, |x: E, y: E| x.times(y))),
        )
    }

    open spec fn scaled(&self, factor: u32) -> Result<Self, Seq<char>> {
        Ok(
            Contents {
                shape: self.shape,
                values: self.values.map_values(|x: E| x.times_bits(factor)),
            },
        )
    }

    open spec fn matrix_product(&self, rhs: Self) -> Result<Self, Seq<char>> {
        unless(matmul_error(self.shape, rhs.shape), held(matmul_contents(*self, rhs)))
    }

    open spec fn linear_image(&self, weight: Self, bias: Option<Self>) -> Result<Self, Seq<char>> {
        unless(
            linear_error(self.shape, weight.shape, optional_shape(bias)),
            held(linear_contents(*self, weight, bias)),
        )
    }

    open spec fn rms_normed(&self, weight: Self, eps: u32) -> Result<Self, Seq<char>> {
        unless(norm_complaint(self.shape, weight.shape), Ok(norm_contents(*self, weight, eps)))
    }

    open spec fn softmaxed(&self, axis: int) -> Result<Self, Seq<char>> {
        unless(
            softmax_complaint(self.shape.len() as int, axis),
            Ok(softmax_contents(*self, axis)),
        )
    }

    open spec fn rotated(
        &self,
        positions: Seq<i32>,
        head_dim: int,
        num_heads: int,
        theta: u32,
    ) -> Result<Self, Seq<char>> {
        unless(
            rope_shape_error(self.shape, positions.len() as int, head_dim, num_heads, "rope"@),
            match rope_dims_result(head_dim, 0, "rope"@, false) {
                Err(e) => Err(e),
                Ok(dims) => Ok(
                    rope_contents(*self, head_dim, dims, positions, 0, positions, theta),
                ),
            },
        )
    }

    open spec fn region_rotated(
        &self,
        positions: Seq<i32>,
        region_ids: Seq<i32>,
        head_dim: int,
        num_heads: int,
        theta: u32,
    ) -> Result<Self, Seq<char>> {
        unless(
            rope_shape_error(
                self.shape,
                positions.len() as int,
                head_dim,
                num_heads,
                "region_rope"@,
            ),
            unless(
                region_complaint(positions.len() as int, region_ids.len() as int),
                match rope_dims_result(head_dim, 0, "region_rope"@, true) {
                    Err(e) => Err(e),
                    Ok(dims) => Ok(
                        rope_contents(
                            *self,
                            head_dim,
                            dims / 2,
                            positions,
                            dims / 2,
                            region_ids,
                            theta,
                        ),
                    ),
                },
            ),
        )
    }

    open spec fn convolved(
        &self,
        kernel: Self,
        bias: Option<Self>,
        stride: int,
        padding: int,
    ) -> Result<Self, Seq<char>> {
        unless(
            conv_complaint(self.shape, kernel.shape, optional_shape(bias), stride, padding),
            Ok(conv_contents(*self, kernel, bias, stride, padding)),
        )
    }

    open spec fn score_factor(head_dim: int) -> u32 {
        E::score_factor(head_dim)
    }
}

} // verus!
