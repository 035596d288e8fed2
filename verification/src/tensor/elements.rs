//! Tensors element by element: what every operation gives at given coordinates, in terms
//! of the elements that go in.
use vstd::arithmetic::div_mod::{
    lemma_fundamental_div_mod, lemma_fundamental_div_mod_converse,
};
use vstd::prelude::*;

use crate::model::blockwise::lemma_arranged_at;
use crate::tensor::contents::{
    conv_contents, covers, cut, joined_at, joined_contents, lengths, linear_contents,
    matmul_contents, norm_contents, paired, rope_contents, share, softmax_contents,
    transposed_contents, weighted, Contents,
};
use crate::tensor::cpu::swapped;
use crate::tensor::cpu_kernels::{conv_time, lead};
use crate::tensor::cpu_layout::{
    lemma_flat_three, lemma_flat_two, lemma_offsets_grow, part_offset,
};
use crate::tensor::cpu_ops::{inner_size, lane, lane_base};
use crate::tensor::numbers::Algebra;
use crate::tensor::shape::{
    aligned_dim, broadcast_result, broadcastable, flat, in_bounds, law_flat_then_coords,
    lemma_flat_bounds, size, source_coords,
};

verus! {

// ---------------------------------------------------------------------------
// Positions
// ---------------------------------------------------------------------------
proof fn lemma_flat_append(s: Seq<usize>, t: Seq<usize>, c: Seq<int>, d: Seq<int>)
    requires
        c.len() == s.len(),
        d.len() == t.len(),
    ensures
        flat(s + t, c + d) == flat(s, c) * size(t) + flat(t, d),
    decreases t.len(),
{
    if t.len() == 0 {
        assert(s + t =~= s);
        assert(c + d =~= c);
    } else {
        let t0 = t.drop_last();
        let d0 = d.drop_last();
        lemma_flat_append(s, t0, c, d0);
        assert((s + t).drop_last() =~= s + t0);
        assert((c + d).drop_last() =~= c + d0);
        let (f, m, g, n) = (flat(s, c), size(t0), flat(t0, d0), t.last() as int);
        assert((f * m + g) * n == f * (m * n) + g * n) by (nonlinear_arith);
    }
}

/// A position by the coordinate on one axis: whole blocks before it, whole lanes within the
/// block, and the rest.
proof fn lemma_flat_axis(shape: Seq<usize>, c: Seq<int>, a: int)
    requires
        in_bounds(shape, c),
        0 <= a < shape.len(),
    ensures
        ({
            let o = flat(shape.take(a), c.take(a));
            let i = flat(shape.skip(a + 1), c.skip(a + 1));
            let inner = size(shape.skip(a + 1));
            &&& 0 <= i < inner
            &&& flat(shape, c) == (o * shape[a] + c[a]) * inner + i
        }),
{
    let (s, t) = (shape.take(a + 1), shape.skip(a + 1));
    let (x, y) = (c.take(a + 1), c.skip(a + 1));
    assert(shape =~= s + t);
    assert(c =~= x + y);
    lemma_flat_append(s, t, x, y);
    assert(s.drop_last() =~= shape.take(a));
    assert(x.drop_last() =~= c.take(a));
    assert(in_bounds(t, y)) by {
        assert forall|i: int| 0 <= i < t.len() implies 0 <= #[trigger] y[i] < t[i] by {
            assert(0 <= c[i + a + 1] < shape[i + a + 1]);
        }
    }
    lemma_flat_bounds(t, y);
}

proof fn lemma_same_around(shape: Seq<usize>, c: Seq<int>, a: int, j: int)
    requires
        in_bounds(shape, c),
        0 <= a < shape.len(),
        0 <= j < shape[a],
    ensures
        in_bounds(shape, c.update(a, j)),
        c.update(a, j).take(a) == c.take(a),
        c.update(a, j).skip(a + 1) == c.skip(a + 1),
{
    assert(c.update(a, j).take(a) =~= c.take(a));
    assert(c.update(a, j).skip(a + 1) =~= c.skip(a + 1));
}

/// Positions go by the first coordinate in which they differ: the elements of a tensor
/// stand in the order of their coordinates, the last of which changes fastest.
pub proof fn law_elements_stand_in_order(shape: Seq<usize>, c: Seq<int>, d: Seq<int>, a: int)
    requires
        in_bounds(shape, c),
        in_bounds(shape, d),
        0 <= a < shape.len(),
        c.take(a) == d.take(a),
        c[a] < d[a],
    ensures
        flat(shape, c) < flat(shape, d),
        a == shape.len() - 1 ==> flat(shape, d) - flat(shape, c) == d[a] - c[a],
{
    lemma_flat_axis(shape, c, a);
    lemma_flat_axis(shape, d, a);
    let o = flat(shape.take(a), c.take(a));
    let inner = size(shape.skip(a + 1));
    let (x, y) = (o * shape[a] + c[a], o * shape[a] + d[a]);
    assert(x * inner + inner <= y * inner) by (nonlinear_arith)
        requires
            x + 1 <= y,
            inner > 0,
    ;
    if a == shape.len() - 1 {
        assert(shape.skip(a + 1) =~= Seq::<usize>::empty());
        assert(inner == 1);
        assert(x * 1 == x && y * 1 == y);
    }
}

// ---------------------------------------------------------------------------
// Moving elements
// ---------------------------------------------------------------------------
/// Transposing exchanges two coordinates.
pub proof fn law_transposed_element<E>(t: Contents<E>, a: int, b: int, c: Seq<int>)
    requires
        0 <= a < t.shape.len(),
        0 <= b < t.shape.len(),
        in_bounds(t.shape, c),
    ensures
        ({
            let r = transposed_contents(t, a, b);
            let d = c.update(a, c[b]).update(b, c[a]);
            &&& r.shape == t.shape.update(a, t.shape[b]).update(b, t.shape[a])
            &&& in_bounds(r.shape, d)
            &&& r.at(d) == t.at(c)
        }),
{
    let r = transposed_contents(t, a, b);
    let d = c.update(a, c[b]).update(b, c[a]);
    assert(r.shape =~= t.shape.update(a, t.shape[b]).update(b, t.shape[a]));
    assert(in_bounds(r.shape, d));
    lemma_arranged_at(swapped(t.shape, a, b), |c: Seq<int>| t.at(swapped(c, a, b)), d);
    assert(swapped(d, a, b) =~= c);
}

/// A part of an axis keeps the elements whose coordinate lies in it, and counts that
/// coordinate from where the part begins.
pub proof fn law_cut_element<E>(t: Contents<E>, axis: int, start: int, end: int, c: Seq<int>)
    requires
        0 <= axis < t.shape.len(),
        0 <= start <= end <= t.shape[axis],
        in_bounds(t.shape, c),
        start <= c[axis] < end,
    ensures
        ({
            let r = cut(t, axis, start, end);
            let d = c.update(axis, c[axis] - start);
            &&& r.shape.len() == t.shape.len()
            &&& r.shape[axis] == end - start
            &&& forall|b: int|
                0 <= b < t.shape.len() && b != axis ==> #[trigger] r.shape[b] == t.shape[b]
            &&& in_bounds(r.shape, d)
            &&& r.at(d) == t.at(c)
        }),
{
    let r = cut(t, axis, start, end);
    let d = c.update(axis, c[axis] - start);
    assert(in_bounds(r.shape, d));
    lemma_arranged_at(r.shape, |c: Seq<int>| t.at(c.update(axis, c[axis] + start)), d);
    assert(d.update(axis, d[axis] + start) =~= c);
}

/// One of the equal parts of the last axis holds the elements from its first column on.
pub proof fn law_shared_element<E>(t: Contents<E>, n: int, i: int, each: int, c: Seq<int>)
    requires
        t.shape.len() > 0,
        0 <= i < n,
        0 <= each,
        t.shape.last() == n * each,
        in_bounds(t.shape, c),
        i * each <= c.last() < i * each + each,
    ensures
        ({
            let r = share(t, n, i);
            let d = c.drop_last().push(c.last() - i * each);
            &&& r.shape == t.shape.drop_last().push(each as usize)
            &&& in_bounds(r.shape, d)
            &&& r.at(d) == t.at(c)
        }),
{
    let axis = t.shape.len() - 1;
    assert((n * each) / n == each) by {
        assert(n * each == each * n) by (nonlinear_arith);
        lemma_fundamental_div_mod_converse(n * each, n, each, 0);
    }
    assert(0 <= i * each && i * each + each <= n * each) by (nonlinear_arith)
        requires
            0 <= i < n,
            each >= 0,
    ;
    law_cut_element(t, axis, i * each, i * each + each, c);
    let r = share(t, n, i);
    assert(r.shape =~= t.shape.drop_last().push(each as usize));
    assert(c.update(axis, c[axis] - i * each) =~= c.drop_last().push(c.last() - i * each));
}

/// Joining puts the parts one behind the other: an element of a part keeps its coordinates,
/// but for that of the axis, which moves by the lengths of the parts before it.
pub proof fn law_joined_element<E>(parts: Seq<Contents<E>>, axis: int, p: int, c: Seq<int>)
    requires
        0 <= p < parts.len(),
        0 <= axis < parts[0].shape.len(),
        forall|q: int|
            0 <= q < parts.len() ==> (#[trigger] parts[q]).shape == parts[0].shape.update(
                axis,
                parts[q].shape[axis],
            ),
        part_offset(lengths(parts, axis), parts.len() as int) <= usize::MAX,
        in_bounds(parts[p].shape, c),
    ensures
        ({
            let r = joined_contents(parts, axis);
            let before = lengths_before(parts, axis, p);
            let d = c.update(axis, c[axis] + before);
            &&& r.shape == parts[0].shape.update(
                axis,
                lengths_before(parts, axis, parts.len() as int) as usize,
            )
            &&& in_bounds(r.shape, d)
            &&& r.at(d) == parts[p].at(c)
        }),
{
    let dims = lengths(parts, axis);
    let n = parts.len() as int;
    let r = joined_contents(parts, axis);
    lemma_lengths_before(parts, axis, p);
    lemma_lengths_before(parts, axis, n);
    let before = part_offset(dims, p);
    let d = c.update(axis, c[axis] + before);
    lemma_offsets_grow(dims, 0, p);
    lemma_offsets_grow(dims, p + 1, n);
    assert(part_offset(dims, p + 1) == before + parts[p].shape[axis]);
    assert(in_bounds(r.shape, d)) by {
        assert forall|i: int| 0 <= i < r.shape.len() implies 0 <= #[trigger] d[i] < r.shape[i] by {
            assert(0 <= c[i] < parts[p].shape[i]);
        }
    }
    lemma_arranged_at(r.shape, |c: Seq<int>| joined_at(parts, axis, c), d);
    assert(covers(dims, p, d[axis]));
    let q = choose|q: int| covers(dims, q, d[axis]);
    if q < p {
        lemma_offsets_grow(dims, q + 1, p);
    }
    if q > p {
        lemma_offsets_grow(dims, p + 1, q);
    }
    assert(q == p);
    assert(d.update(axis, d[axis] - before) =~= c);
}

/// The lengths along an axis of the first `p` parts, added up.
pub open spec fn lengths_before<E>(parts: Seq<Contents<E>>, axis: int, p: int) -> int
    decreases p,
{
    if p <= 0 {
        0
    } else {
        lengths_before(parts, axis, p - 1) + parts[p - 1].shape[axis]
    }
}

proof fn lemma_lengths_before<E>(parts: Seq<Contents<E>>, axis: int, p: int)
    requires
        0 <= p <= parts.len(),
    ensures
        lengths_before(parts, axis, p) == part_offset(lengths(parts, axis), p),
    decreases p,
{
    if p > 0 {
        lemma_lengths_before(parts, axis, p - 1);
    }
}

// ---------------------------------------------------------------------------
// Element by element
// ---------------------------------------------------------------------------
/// The coordinates that meet `c` in a tensor of this shape: the last ones, with zero on
/// every axis of length one.
pub open spec fn met_by(c: Seq<int>, shape: Seq<usize>) -> Seq<int> {
    let last = c.skip(c.len() - shape.len());
    Seq::new(
        shape.len(),
        |a: int|
            if shape[a] == 1 {
                0
            } else {
                last[a]
            },
    )
}

/// Two tensors are combined element by element, axes aligned at the last; an axis of length
/// one meets every element of the other's.
pub proof fn law_combined_element<E>(
    x: Contents<E>,
    y: Contents<E>,
    f: spec_fn(E, E) -> E,
    c: Seq<int>,
)
    requires
        in_bounds(broadcast_result(x.shape, y.shape), c),
    ensures
        paired(x, y, f).shape == broadcast_result(x.shape, y.shape),
        paired(x, y, f).at(c) == f(x.at(met_by(c, x.shape)), y.at(met_by(c, y.shape))),
{
    let out = broadcast_result(x.shape, y.shape);
    lemma_flat_bounds(out, c);
    law_flat_then_coords(out, c);
    assert(source_coords(c, x.shape) =~= met_by(c, x.shape));
    assert(source_coords(c, y.shape) =~= met_by(c, y.shape));
}

/// The shape of a combination: axes are aligned at the last; where both have one, their
/// lengths are the same or one of them is one, and the larger is kept; an axis that only
/// one has is kept.
pub proof fn law_combined_shape(x: Seq<usize>, y: Seq<usize>, i: int)
    requires
        broadcastable(x, y),
        1 <= i,
    ensures
        ({
            let out = broadcast_result(x, y);
            &&& out.len() == if x.len() >= y.len() {
                x.len()
            } else {
                y.len()
            }
            &&& i <= x.len() && i <= y.len() ==> {
                let (a, b) = (x[x.len() - i], y[y.len() - i]);
                &&& a == b || a == 1 || b == 1
                &&& out[out.len() - i] == a || out[out.len() - i] == b
                &&& out[out.len() - i] >= a && out[out.len() - i] >= b
            }
        }),
        broadcastable(y, x),
        broadcast_result(y, x) == broadcast_result(x, y),
{
    let out = broadcast_result(x, y);
    let rank = out.len() as int;
    if i <= x.len() && i <= y.len() {
        let axis = rank - i;
        assert(aligned_dim(x, rank, axis) == x[x.len() - i]);
        assert(aligned_dim(y, rank, axis) == y[y.len() - i]);
    }
    assert forall|axis: int| 0 <= axis < rank implies {
        let l = #[trigger] aligned_dim(y, rank, axis);
        let r = aligned_dim(x, rank, axis);
        l == r || l == 1 || r == 1
    } by {
        let l = aligned_dim(x, rank, axis);
    }
    assert(broadcast_result(y, x) =~= out);
}

/// The elements along an axis, through the given coordinates.
pub open spec fn along<E>(t: Contents<E>, c: Seq<int>, axis: int) -> Seq<E> {
    Seq::new(t.shape[axis] as nat, |j: int| t.at(c.update(axis, j)))
}

/// A softmax weighs every element against those along the axis through it; a negative axis
/// is counted from behind the last.
pub proof fn law_softmax_element<E: Algebra>(x: Contents<E>, axis: int, c: Seq<int>)
    requires
        in_bounds(x.shape, c),
        -x.shape.len() <= axis < x.shape.len(),
    ensures
        ({
            let a = if axis < 0 {
                axis + x.shape.len()
            } else {
                axis
            };
            &&& softmax_contents(x, axis).shape == x.shape
            &&& softmax_contents(x, axis).at(c) == E::softmax_at(along(x, c, a), c[a])
        }),
{
    let a = if axis < 0 {
        axis + x.shape.len()
    } else {
        axis
    };
    let len = x.shape[a] as int;
    let inner = inner_size(x.shape, a);
    let k = flat(x.shape, c);
    lemma_flat_bounds(x.shape, c);
    lemma_flat_axis(x.shape, c, a);
    let o = flat(x.shape.take(a), c.take(a));
    let i = flat(x.shape.skip(a + 1), c.skip(a + 1));
    let j = c[a];
    assert(0 <= j < len);
    lemma_on_axis(o, j, i, len, inner);
    let row = lane(x.values, lane_base(k / (len * inner), k % inner, len, inner), inner, len);
    assert forall|m: int| 0 <= m < len implies row[m] == along(x, c, a)[m] by {
        lemma_same_around(x.shape, c, a, m);
        lemma_flat_axis(x.shape, c.update(a, m), a);
        assert((o * len + m) * inner + i == o * (len * inner) + i + m * inner) by (nonlinear_arith);
    }
    assert(row =~= along(x, c, a));
}

proof fn lemma_on_axis(o: int, j: int, i: int, len: int, inner: int)
    requires
        0 <= j < len,
        0 <= i < inner,
    ensures
        ({
            let k = (o * len + j) * inner + i;
            &&& k / (len * inner) == o
            &&& k % inner == i
            &&& k / inner % len == j
        }),
{
    let k = (o * len + j) * inner + i;
    lemma_fundamental_div_mod_converse(k, inner, o * len + j, i);
    lemma_fundamental_div_mod_converse(o * len + j, len, o, j);
    let r = j * inner + i;
    assert(k == (o * (len * inner)) + r && 0 <= r < len * inner) by (nonlinear_arith)
        requires
            k == (o * len + j) * inner + i,
            r == j * inner + i,
            0 <= j < len,
            0 <= i < inner,
    ;
    lemma_fundamental_div_mod_converse(k, len * inner, o, r);
}

proof fn lemma_on_last_axis<E>(t: Contents<E>, c: Seq<int>)
    requires
        t.shape.len() > 0,
        in_bounds(t.shape, c),
    ensures
        ({
            let n = t.shape.last() as int;
            let k = flat(t.shape, c);
            &&& k / n == flat(t.shape.drop_last(), c.drop_last())
            &&& k % n == c.last()
            &&& along(t, c, t.shape.len() - 1) == lane(t.values, (k / n) * n, 1, n)
        }),
{
    let n = t.shape.last() as int;
    let k = flat(t.shape, c);
    let a = t.shape.len() - 1;
    let q = flat(t.shape.drop_last(), c.drop_last());
    assert(c.last() == c[a]);
    lemma_fundamental_div_mod_converse(k, n, q, c.last());
    let row = lane(t.values, (k / n) * n, 1, n);
    assert forall|j: int| 0 <= j < n implies row[j] == along(t, c, a)[j] by {
        assert(c.update(a, j).drop_last() =~= c.drop_last());
        assert(c.update(a, j).last() == j);
    }
    assert(row =~= along(t, c, a));
}

/// Norming works on the last axis: every element comes of the elements along it.
pub proof fn law_normed_element<E: Algebra>(
    x: Contents<E>,
    weight: Contents<E>,
    eps: u32,
    c: Seq<int>,
)
    requires
        x.shape.len() > 0,
        in_bounds(x.shape, c),
    ensures
        norm_contents(x, weight, eps).shape == x.shape,
        norm_contents(x, weight, eps).at(c) == E::norm_at(
            along(x, c, x.shape.len() - 1),
            weight.values,
            eps,
            c.last(),
        ),
{
    lemma_flat_bounds(x.shape, c);
    lemma_on_last_axis(x, c);
}

/// A linear layer maps the last axis: output `i` is the product of the elements along it
/// with row `i` of the weights, and bias `i`.
pub proof fn law_linear_element<E: Algebra>(
    x: Contents<E>,
    weight: Contents<E>,
    bias: Option<Contents<E>>,
    c: Seq<int>,
    i: int,
)
    requires
        x.shape.len() > 0,
        in_bounds(x.shape, c),
        weight.shape.len() == 2,
        weight.shape[1] == x.shape.last(),
        0 <= i < weight.shape[0],
    ensures
        ({
            let r = linear_contents(x, weight, bias);
            let d = c.drop_last().push(i);
            let product = E::dot(
                along(x, c, x.shape.len() - 1),
                along(weight, seq![i, 0], 1),
            );
            &&& r.shape == x.shape.drop_last().push(weight.shape[0])
            &&& in_bounds(r.shape, d)
            &&& bias is None ==> r.at(d) == product
            &&& bias matches Some(b) ==> r.at(d) == product.plus(b.values[i])
        }),
{
    let r = linear_contents(x, weight, bias);
    let d = c.drop_last().push(i);
    let n = weight.shape[0] as int;
    let k = weight.shape[1] as int;
    assert(in_bounds(r.shape, d)) by {
        assert forall|m: int| 0 <= m < r.shape.len() implies 0 <= #[trigger] d[m] < r.shape[m] by {
            if m < r.shape.len() - 1 {
                assert(0 <= c[m] < x.shape[m]);
            }
        }
    }
    lemma_flat_bounds(r.shape, d);
    lemma_on_last_axis(x, c);
    let q = flat(x.shape.drop_last(), c.drop_last());
    assert(r.shape.drop_last() =~= x.shape.drop_last());
    assert(d.drop_last() =~= c.drop_last());
    let at = flat(r.shape, d);
    lemma_fundamental_div_mod_converse(at, n, q, i);
    let w = lane(weight.values, i * k, 1, k);
    assert(weight.shape =~= seq![weight.shape[0], weight.shape[1]]);
    assert forall|m: int| 0 <= m < k implies w[m] == along(weight, seq![i, 0], 1)[m] by {
        assert(seq![i, 0].update(1, m) =~= seq![i, m]);
        lemma_flat_two(weight.shape[0], weight.shape[1], i, m);
    }
    assert(w =~= along(weight, seq![i, 0], 1));
}

/// A product of stacks of matrices: element `y`, `z` of matrix `b` is the product of row `y`
/// of the one and column `z` of the other matrix `b`.
pub proof fn law_product_element<E: Algebra>(
    lhs: Contents<E>,
    rhs: Contents<E>,
    outer: Seq<usize>,
    m: usize,
    k: usize,
    n: usize,
    b: Seq<int>,
    y: int,
    z: int,
)
    requires
        lhs.shape == outer.push(m).push(k),
        rhs.shape == outer.push(k).push(n),
        in_bounds(outer, b),
        0 <= y < m,
        0 <= z < n,
        k > 0,
    ensures
        ({
            let r = matmul_contents(lhs, rhs);
            let a = outer.len() as int;
            &&& r.shape == outer.push(m).push(n)
            &&& in_bounds(r.shape, b.push(y).push(z))
            &&& r.at(b.push(y).push(z)) == E::dot(
                along(lhs, b.push(y).push(0), a + 1),
                along(rhs, b.push(0).push(z), a),
            )
        }),
{
    let r = matmul_contents(lhs, rhs);
    let a = outer.len() as int;
    let c = b.push(y).push(z);
    let q = flat(outer, b);
    assert(lead(lhs.shape) =~= outer);
    assert(r.shape =~= outer.push(m).push(n));
    assert(in_bounds(r.shape, c));
    lemma_flat_bounds(r.shape, c);
    lemma_flat_of_stack(outer, m, n, b, y, z);
    let i = flat(r.shape, c);
    lemma_fundamental_div_mod_converse(i, n as int, q * m + y, z);
    lemma_fundamental_div_mod_converse(q * m + y, m as int, q, y);
    let row = lane(lhs.values, (q * m + y) * k, 1, k as int);
    let wanted_row = along(lhs, b.push(y).push(0), a + 1);
    assert forall|j: int| 0 <= j < k implies row[j] == wanted_row[j] by {
        assert(b.push(y).push(0).update(a + 1, j) =~= b.push(y).push(j));
        lemma_flat_of_stack(outer, m, k, b, y, j);
    }
    assert(row =~= wanted_row);
    let column = lane(rhs.values, q * (k * n) + z, n as int, k as int);
    let wanted_column = along(rhs, b.push(0).push(z), a);
    assert forall|j: int| 0 <= j < k implies column[j] == wanted_column[j] by {
        assert(b.push(0).push(z).update(a, j) =~= b.push(j).push(z));
        lemma_flat_of_stack(outer, k, n, b, j, z);
        assert((q * k + j) * n + z == q * (k * n) + z + j * n) by (nonlinear_arith);
    }
    assert(column =~= wanted_column);
}

proof fn lemma_flat_of_stack(outer: Seq<usize>, m: usize, n: usize, b: Seq<int>, y: int, z: int)
    requires
        b.len() == outer.len(),
    ensures
        flat(outer.push(m).push(n), b.push(y).push(z)) == (flat(outer, b) * m + y) * n + z,
{
    assert(outer.push(m).push(n).drop_last() =~= outer.push(m));
    assert(b.push(y).push(z).drop_last() =~= b.push(y));
    assert(outer.push(m).drop_last() =~= outer);
    assert(b.push(y).drop_last() =~= b);
    assert(flat(outer.push(m), b.push(y)) == flat(outer, b) * m + y);
}

// ---------------------------------------------------------------------------
// Positions of tokens
// ---------------------------------------------------------------------------
/// Two neighbouring channels are turned together by the position of their token: those
/// below `a` by its first position, the `b` channels behind them by its second, each group
/// counted from its own beginning; the rest stay.
pub proof fn law_turned_element<E: Algebra>(
    x: Contents<E>,
    a: int,
    first: Seq<i32>,
    b: int,
    second: Seq<i32>,
    theta: u32,
    h: int,
    t: int,
    pair: int,
)
    requires
        x.shape.len() == 3,
        x.shape[1] == first.len(),
        0 <= h < x.shape[0],
        0 <= t < x.shape[1],
        0 <= pair,
        2 * pair + 1 < x.shape[2],
        0 <= a,
        a % 2 == 0,
        0 <= b,
        b % 2 == 0,
        a + b <= x.shape[2],
    ensures
        ({
            let r = rope_contents(x, x.shape[2] as int, a, first, b, second, theta);
            let (p, q) = (seq![h, t, 2 * pair], seq![h, t, 2 * pair + 1]);
            &&& r.shape == x.shape
            &&& 2 * pair < a ==> (r.at(p), r.at(q)) == E::turned(
                x.at(p),
                x.at(q),
                first[t],
                (2 * pair) as usize,
                a as usize,
                theta,
            )
            &&& a <= 2 * pair < a + b ==> (r.at(p), r.at(q)) == E::turned(
                x.at(p),
                x.at(q),
                second[t],
                (2 * pair - a) as usize,
                b as usize,
                theta,
            )
            &&& a + b <= 2 * pair ==> r.at(p) == x.at(p) && r.at(q) == x.at(q)
        }),
{
    let (i, j, d) = (x.shape[0], x.shape[1], x.shape[2]);
    assert(x.shape =~= seq![i, j, d]);
    let (p, q) = (seq![h, t, 2 * pair], seq![h, t, 2 * pair + 1]);
    assert(in_bounds(x.shape, p) && in_bounds(x.shape, q));
    lemma_flat_bounds(x.shape, p);
    lemma_flat_bounds(x.shape, q);
    lemma_flat_three(i, j, d, h, t, 2 * pair);
    lemma_flat_three(i, j, d, h, t, 2 * pair + 1);
    let row = h * j + t;
    lemma_fundamental_div_mod_converse(row, j as int, h, t);
    assert((h * j + t) * d + 2 * pair == row * d + 2 * pair);
    lemma_fundamental_div_mod_converse(row * d + 2 * pair, d as int, row, 2 * pair);
    lemma_fundamental_div_mod_converse(row * d + 2 * pair + 1, d as int, row, 2 * pair + 1);
    assert(flat(x.shape, p) == row * d + 2 * pair);
    assert(flat(x.shape, q) == row * d + 2 * pair + 1);
}

// ---------------------------------------------------------------------------
// Convolution
// ---------------------------------------------------------------------------
/// The first `m` weights of a channel, each times the element of the row that it stands on,
/// where there is one; the first weight stands on row `first`.
pub open spec fn laid_on<E: Algebra>(
    x: Contents<E>,
    weights: Seq<E>,
    start: E,
    first: int,
    channel: int,
    m: int,
) -> E
    decreases m,
{
    if m <= 0 {
        start
    } else {
        let before = laid_on(x, weights, start, first, channel, m - 1);
        let row = first + m - 1;
        if 0 <= row < x.shape[0] {
            before.plus_product(x.at(seq![row, channel]), weights[m - 1])
        } else {
            before
        }
    }
}

proof fn lemma_laid_on<E: Algebra>(
    x: Contents<E>,
    kernel: Contents<E>,
    start: E,
    first: int,
    channel: int,
    m: int,
)
    requires
        x.shape.len() == 2,
        kernel.shape.len() == 2,
        kernel.shape[0] == x.shape[1],
        0 <= channel < x.shape[1],
        m <= kernel.shape[1],
    ensures
        weighted(x, kernel, start, first, channel, m) == laid_on(
            x,
            along(kernel, seq![channel, 0], 1),
            start,
            first,
            channel,
            m,
        ),
    decreases m,
{
    if m > 0 {
        lemma_laid_on(x, kernel, start, first, channel, m - 1);
        let row = first + m - 1;
        assert(x.shape =~= seq![x.shape[0], x.shape[1]]);
        assert(kernel.shape =~= seq![kernel.shape[0], kernel.shape[1]]);
        assert(seq![channel, 0].update(1, m - 1) =~= seq![channel, m - 1]);
        lemma_flat_two(kernel.shape[0], kernel.shape[1], channel, m - 1);
        if 0 <= row < x.shape[0] {
            lemma_flat_two(x.shape[0], x.shape[1], row, channel);
        }
    }
}

/// A convolution lays the weights of a channel on the rows, a stride further for every row
/// of the result, beginning as far before the first row as there is padding; rows outside
/// count nothing, and the bias is what it begins with. There is a row for every place at
/// which the weights stay within the padding.
pub proof fn law_convolved_element<E: Algebra>(
    x: Contents<E>,
    kernel: Contents<E>,
    bias: Option<Contents<E>>,
    stride: int,
    padding: int,
    y: int,
    channel: int,
)
    requires
        x.shape.len() == 2,
        kernel.shape.len() == 2,
        kernel.shape[0] == x.shape[1],
        kernel.shape[1] > 0,
        0 < stride,
        0 <= padding,
        x.shape[0] + 2 * padding <= usize::MAX,
        0 <= y,
        0 <= channel < x.shape[1],
    ensures
        ({
            let r = conv_contents(x, kernel, bias, stride, padding);
            let start = match bias {
                Some(b) => b.values[channel],
                None => E::zero(),
            };
            &&& r.shape.len() == 2
            &&& r.shape[1] == x.shape[1]
            &&& y < r.shape[0] <==> y * stride + kernel.shape[1] <= x.shape[0] + 2 * padding
            &&& y < r.shape[0] ==> r.at(seq![y, channel]) == laid_on(
                x,
                along(kernel, seq![channel, 0], 1),
                start,
                y * stride - padding,
                channel,
                kernel.shape[1] as int,
            )
        }),
{
    let r = conv_contents(x, kernel, bias, stride, padding);
    let n = x.shape[0] as int;
    let k = kernel.shape[1] as int;
    let time = conv_time(n, k, stride, padding);
    let room = n + 2 * padding - k;
    assert(y * stride >= 0) by (nonlinear_arith)
        requires
            y >= 0,
            stride > 0,
    ;
    if room >= 0 {
        let q = room / stride;
        lemma_fundamental_div_mod(room, stride);
        let rest = room % stride;
        assert(0 <= rest < stride) by (nonlinear_arith)
            requires
                stride > 0,
                rest == room % stride,
        ;
        assert(y <= q <==> y * stride <= room) by (nonlinear_arith)
            requires
                room == stride * q + rest,
                0 <= rest < stride,
        ;
        assert(0 <= q <= room) by (nonlinear_arith)
            requires
                room == stride * q + rest,
                0 <= rest < stride,
                stride >= 1,
                room >= 0,
        ;
    }
    assert(0 <= time <= usize::MAX);
    assert(r.shape =~= seq![time as usize, x.shape[1]]);
    if y < time {
        let c = seq![y, channel];
        assert(in_bounds(r.shape, c));
        lemma_flat_bounds(r.shape, c);
        lemma_flat_two(time as usize, x.shape[1], y, channel);
        let at = flat(r.shape, c);
        lemma_fundamental_div_mod_converse(at, x.shape[1] as int, y, channel);
        let start = match bias {
            Some(b) => b.values[channel],
            None => E::zero(),
        };
        lemma_laid_on(x, kernel, start, y * stride - padding, channel, k);
    }
}

} // verus!
