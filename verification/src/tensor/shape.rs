//! Shapes and row-major indexing.
//!
//! A shape is a list of dimensions; the elements of a dense tensor stand in
//! row-major order, the last axis varying fastest.
use vstd::prelude::*;
use vstd::string::*;

use crate::error::Error;
use crate::text::{decimal, list_text, push_decimal, push_list, push_signed, signed_decimal};

verus! {

// ---------------------------------------------------------------------------
// Sizes
// ---------------------------------------------------------------------------
/// The number of elements of a shape: the product of its dimensions.
pub open spec fn size(shape: Seq<usize>) -> int
    decreases shape.len(),
{
    if shape.len() == 0 {
        1
    } else {
        size(shape.drop_last()) * shape.last()
    }
}

/// The products of the leading dimensions all fit in a machine word.
pub open spec fn fits(shape: Seq<usize>) -> bool {
    forall|n: int| 0 <= n <= shape.len() ==> #[trigger] size(shape.take(n)) <= usize::MAX
}

pub proof fn lemma_size_nonnegative(shape: Seq<usize>)
    ensures
        size(shape) >= 0,
    decreases shape.len(),
{
    if shape.len() > 0 {
        lemma_size_nonnegative(shape.drop_last());
        assert(size(shape.drop_last()) * shape.last() >= 0) by (nonlinear_arith)
            requires
                size(shape.drop_last()) >= 0,
                shape.last() >= 0,
        ;
    }
}

/// The size of a shape is the product of the sizes of its two parts.
pub proof fn lemma_size_append(a: Seq<usize>, b: Seq<usize>)
    ensures
        size(a + b) == size(a) * size(b),
    decreases b.len(),
{
    if b.len() == 0 {
        assert(a + b =~= a);
        assert(size(a) * 1 == size(a));
    } else {
        lemma_size_append(a, b.drop_last());
        assert((a + b).drop_last() =~= a + b.drop_last());
        assert((a + b).last() == b.last());
        vstd::arithmetic::mul::lemma_mul_is_associative(
            size(a),
            size(b.drop_last()),
            b.last() as int,
        );
    }
}

/// A shape as the part before an axis, the axis, and the part after it.
pub proof fn lemma_size_split(shape: Seq<usize>, axis: int)
    requires
        0 <= axis < shape.len(),
    ensures
        size(shape) == size(shape.take(axis)) * shape[axis] * size(shape.skip(axis + 1)),
        size(shape) == size(shape.take(axis)) * (shape[axis] * size(shape.skip(axis + 1))),
{
    let front = shape.take(axis + 1);
    assert(shape =~= front + shape.skip(axis + 1));
    lemma_size_append(front, shape.skip(axis + 1));
    assert(front.drop_last() =~= shape.take(axis));
    assert(front.last() == shape[axis]);
    vstd::arithmetic::mul::lemma_mul_is_associative(
        size(shape.take(axis)),
        shape[axis] as int,
        size(shape.skip(axis + 1)),
    );
}

pub proof fn lemma_size_one(a: usize)
    ensures
        size(seq![a]) == a,
{
    assert(seq![a].drop_last() =~= Seq::empty());
    reveal_with_fuel(size, 2);
}

pub proof fn lemma_size_two(a: usize, b: usize)
    ensures
        size(seq![a, b]) == a * b,
{
    assert(seq![a, b].drop_last() =~= seq![a]);
    lemma_size_one(a);
}

pub proof fn lemma_size_three(a: usize, b: usize, c: usize)
    ensures
        size(seq![a, b, c]) == a * b * c,
{
    assert(seq![a, b, c].drop_last() =~= seq![a, b]);
    lemma_size_two(a, b);
}

/// Leading dimensions that fit still fit when there are fewer of them.
pub proof fn lemma_fits_take(shape: Seq<usize>, n: int)
    requires
        fits(shape),
        0 <= n <= shape.len(),
    ensures
        fits(shape.take(n)),
        size(shape.take(n)) <= usize::MAX,
{
    assert forall|m: int| 0 <= m <= n implies #[trigger] size(shape.take(n).take(m))
        <= usize::MAX by {
        assert(shape.take(n).take(m) =~= shape.take(m));
    }
}

/// A shape whose dimensions are all positive fits when its size does.
pub proof fn lemma_fits_positive(shape: Seq<usize>)
    requires
        0 < size(shape) <= usize::MAX,
    ensures
        fits(shape),
        forall|i: int| 0 <= i < shape.len() ==> #[trigger] shape[i] > 0,
{
    assert forall|n: int| 0 <= n <= shape.len() implies #[trigger] size(shape.take(n))
        <= usize::MAX by {
        assert(shape =~= shape.take(n) + shape.skip(n));
        lemma_size_append(shape.take(n), shape.skip(n));
        lemma_size_nonnegative(shape.take(n));
        lemma_size_nonnegative(shape.skip(n));
        assert(size(shape.take(n)) <= usize::MAX) by (nonlinear_arith)
            requires
                0 < size(shape.take(n)) * size(shape.skip(n)) <= usize::MAX,
                size(shape.take(n)) >= 0,
                size(shape.skip(n)) >= 0,
        ;
    }
    assert forall|i: int| 0 <= i < shape.len() implies #[trigger] shape[i] > 0 by {
        lemma_size_split(shape, i);
        if shape[i] == 0 {
            assert(size(shape.take(i)) * 0 * size(shape.skip(i + 1)) == 0) by (nonlinear_arith);
        }
    }
}

/// The message on a shape whose size does not fit.
pub open spec fn too_large_text(shape: Seq<usize>) -> Seq<char> {
    "tensor shape "@ + list_text(shape) + " is too large"@
}

/// The number of elements, or a complaint where a product of leading dimensions
/// does not fit.
pub fn checked_num_elements(shape: &[usize]) -> (r: Result<usize, Error>)
    ensures
        match r {
            Ok(n) => fits(shape@) && n == size(shape@),
            Err(e) => !fits(shape@) && e@ == too_large_text(shape@),
        },
{
    let mut n: usize = 1;
    let mut i: usize = 0;
    assert(shape@.take(0) =~= Seq::empty());
    while i < shape.len()
        invariant
            i <= shape.len(),
            n == size(shape@.take(i as int)),
            forall|m: int| 0 <= m <= i ==> #[trigger] size(shape@.take(m)) <= usize::MAX,
        decreases shape.len() - i,
    {
        proof {
            let upto = shape@.take(i as int + 1);
            assert(upto.drop_last() =~= shape@.take(i as int));
            assert(upto.last() == shape@[i as int]);
        }
        match n.checked_mul(shape[i]) {
            Some(product) => {
                n = product;
            },
            None => {
                assert(size(shape@.take(i as int + 1)) > usize::MAX);
                let mut text = String::from_str("tensor shape ");
                push_list(&mut text, shape);
                text.append(" is too large");
                return Err(Error::from_text(text));
            },
        }
        i += 1;
    }
    assert(shape@.take(i as int) =~= shape@);
    Ok(n)
}

/// The number of elements of a shape that fits.
pub fn plain_num_elements(shape: &[usize]) -> (n: usize)
    requires
        fits(shape@),
    ensures
        n == size(shape@),
{
    let mut n: usize = 1;
    let mut i: usize = 0;
    assert(shape@.take(0) =~= Seq::empty());
    while i < shape.len()
        invariant
            i <= shape.len(),
            fits(shape@),
            n == size(shape@.take(i as int)),
        decreases shape.len() - i,
    {
        proof {
            let upto = shape@.take(i as int + 1);
            assert(upto.drop_last() =~= shape@.take(i as int));
            assert(upto.last() == shape@[i as int]);
            assert(size(upto) <= usize::MAX);
            lemma_size_nonnegative(upto);
        }
        n = n * shape[i];
        i += 1;
    }
    assert(shape@.take(i as int) =~= shape@);
    n
}

// ---------------------------------------------------------------------------
// Row-major indexing
// ---------------------------------------------------------------------------
/// `coords` names an element of the shape.
pub open spec fn in_bounds(shape: Seq<usize>, coords: Seq<int>) -> bool {
    coords.len() == shape.len() && forall|i: int|
        0 <= i < shape.len() ==> 0 <= #[trigger] coords[i] < shape[i]
}

/// The position of an element in row-major order.
pub open spec fn flat(shape: Seq<usize>, coords: Seq<int>) -> int
    decreases shape.len(),
{
    if shape.len() == 0 {
        0
    } else {
        flat(shape.drop_last(), coords.drop_last()) * shape.last() + coords.last()
    }
}

/// The coordinates of position `k`.
pub open spec fn coords(shape: Seq<usize>, k: int) -> Seq<int>
    decreases shape.len(),
{
    if shape.len() == 0 {
        Seq::empty()
    } else {
        coords(shape.drop_last(), k / shape.last() as int).push(k % shape.last() as int)
    }
}

/// Every element has a position within the size.
pub proof fn lemma_flat_bounds(shape: Seq<usize>, c: Seq<int>)
    requires
        in_bounds(shape, c),
    ensures
        0 <= flat(shape, c) < size(shape),
    decreases shape.len(),
{
    if shape.len() > 0 {
        let s = shape.drop_last();
        let d = c.drop_last();
        assert forall|i: int| 0 <= i < s.len() implies 0 <= #[trigger] d[i] < s[i] by {
            assert(c[i] < shape[i]);
        }
        lemma_flat_bounds(s, d);
        let f = flat(s, d);
        let n = size(s);
        let m = shape.last() as int;
        let x = c.last();
        assert(x == c[shape.len() - 1] && m == shape[shape.len() - 1]);
        assert(0 <= f * m + x < n * m) by (nonlinear_arith)
            requires
                0 <= f < n,
                0 <= x < m,
        ;
    }
}

/// Every position within the size is that of exactly one element: going from a
/// position to its coordinates and back changes nothing.
pub proof fn law_coords_then_flat(shape: Seq<usize>, k: int)
    requires
        0 <= k < size(shape),
    ensures
        in_bounds(shape, coords(shape, k)),
        flat(shape, coords(shape, k)) == k,
    decreases shape.len(),
{
    if shape.len() > 0 {
        let s = shape.drop_last();
        let m = shape.last() as int;
        lemma_size_nonnegative(s);
        assert(m > 0) by (nonlinear_arith)
            requires
                0 <= k < size(s) * m,
                m >= 0,
        ;
        let q = k / m;
        let r = k % m;
        vstd::arithmetic::div_mod::lemma_fundamental_div_mod(k, m);
        assert(0 <= q < size(s) && 0 <= r < m) by (nonlinear_arith)
            requires
                0 <= k < size(s) * m,
                m > 0,
                k == m * q + r,
                q == k / m,
                r == k % m,
        ;
        law_coords_then_flat(s, q);
        let c = coords(shape, k);
        assert(c.drop_last() =~= coords(s, q));
        assert(c.last() == r);
        assert forall|i: int| 0 <= i < shape.len() implies 0 <= #[trigger] c[i] < shape[i] by {
            if i < s.len() {
                assert(coords(s, q)[i] < s[i]);
            }
        }
        assert(q * m + r == m * q + r) by (nonlinear_arith);
    }
}

/// Going from an element to its position and back changes nothing.
pub proof fn law_flat_then_coords(shape: Seq<usize>, c: Seq<int>)
    requires
        in_bounds(shape, c),
    ensures
        coords(shape, flat(shape, c)) == c,
    decreases shape.len(),
{
    if shape.len() > 0 {
        let s = shape.drop_last();
        let d = c.drop_last();
        assert forall|i: int| 0 <= i < s.len() implies 0 <= #[trigger] d[i] < s[i] by {
            assert(c[i] < shape[i]);
        }
        law_flat_then_coords(s, d);
        let f = flat(s, d);
        let m = shape.last() as int;
        let x = c.last();
        assert(x == c[shape.len() - 1] && m == shape[shape.len() - 1]);
        vstd::arithmetic::div_mod::lemma_fundamental_div_mod_converse(f * m + x, m, f, x);
        assert(coords(shape, f * m + x) =~= c);
    } else {
        assert(coords(shape, flat(shape, c)) =~= c);
    }
}

/// A list of machine words as mathematical integers.
pub open spec fn ints(v: Seq<usize>) -> Seq<int> {
    v.map_values(|x: usize| x as int)
}

/// The coordinates of a position.
pub fn coords_vec(shape: &[usize], k: usize) -> (c: Vec<usize>)
    requires
        k < size(shape@),
    ensures
        ints(c@) == coords(shape@, k as int),
        in_bounds(shape@, ints(c@)),
{
    let mut c: Vec<usize> = Vec::new();
    proof {
        law_coords_then_flat(shape@, k as int);
        assert(shape@.take(shape@.len() as int) =~= shape@);
        assert(ints(c@) =~= Seq::<int>::empty());
    }
    push_coords(&mut c, shape, shape.len(), k);
    assert(ints(c@) =~= coords(shape@, k as int));
    c
}

fn push_coords(c: &mut Vec<usize>, shape: &[usize], rank: usize, k: usize)
    requires
        rank <= shape.len(),
        k < size(shape@.take(rank as int)),
    ensures
        ints(final(c)@) == ints(old(c)@) + coords(shape@.take(rank as int), k as int),
    decreases rank,
{
    if rank > 0 {
        let dim: usize = shape[rank - 1];
        proof {
            let upto = shape@.take(rank as int);
            assert(upto.drop_last() =~= shape@.take(rank - 1));
            assert(upto.last() == dim);
            lemma_size_nonnegative(upto.drop_last());
            let n = size(upto.drop_last());
            assert(dim > 0) by (nonlinear_arith)
                requires
                    0 <= k < n * dim as int,
                    dim >= 0,
            ;
            assert(k as int / dim as int <= n - 1) by (nonlinear_arith)
                requires
                    0 <= k < n * dim as int,
                    dim > 0,
            ;
        }
        push_coords(c, shape, rank - 1, k / dim);
        let ghost before = c@;
        c.push(k % dim);
        assert(ints(c@) =~= ints(before).push((k % dim) as int));
    }
    assert(ints(c@) =~= ints(old(c)@) + coords(shape@.take(rank as int), k as int));
}

/// The position of an element.
pub fn flat_index(shape: &[usize], c: &[usize]) -> (k: usize)
    requires
        fits(shape@),
        in_bounds(shape@, ints(c@)),
    ensures
        k == flat(shape@, ints(c@)),
        k < size(shape@),
{
    let mut k: usize = 0;
    let mut i: usize = 0;
    let ghost all = ints(c@);
    proof {
        lemma_flat_bounds(shape@, all);
        assert(shape@.take(0) =~= Seq::empty());
    }
    while i < shape.len()
        invariant
            i <= shape.len(),
            fits(shape@),
            all == ints(c@),
            in_bounds(shape@, all),
            k == flat(shape@.take(i as int), all.take(i as int)),
        decreases shape.len() - i,
    {
        proof {
            let s = shape@.take(i as int + 1);
            let d = all.take(i as int + 1);
            assert(s.drop_last() =~= shape@.take(i as int));
            assert(d.drop_last() =~= all.take(i as int));
            assert(s.last() == shape@[i as int]);
            assert(d.last() == all[i as int]);
            assert(all[i as int] == c@[i as int]);
            assert forall|j: int| 0 <= j < s.len() implies 0 <= #[trigger] d[j] < s[j] by {
                assert(all[j] < shape@[j]);
            }
            assert(in_bounds(s, d));
            lemma_flat_bounds(s, d);
            assert(size(s) <= usize::MAX);
            assert(k * shape@[i as int] >= 0) by (nonlinear_arith);
        }
        k = k * shape[i] + c[i];
        i += 1;
    }
    assert(shape@.take(i as int) =~= shape@);
    assert(all.take(i as int) =~= all);
    k
}

// ---------------------------------------------------------------------------
// Strides
// ---------------------------------------------------------------------------
pub open spec fn capped(n: int) -> int {
    if n > usize::MAX {
        usize::MAX as int
    } else {
        n
    }
}

/// The distance in row-major order between neighbours along an axis, as far as it fits.
pub open spec fn dense_strides(shape: Seq<usize>) -> Seq<usize> {
    Seq::new(shape.len(), |i: int| capped(size(shape.skip(i + 1))) as usize)
}

/// The strides of a dense tensor.
pub fn contiguous_strides(shape: &[usize]) -> (strides: Vec<usize>)
    ensures
        strides@ == dense_strides(shape@),
{
    let rank: usize = shape.len();
    let mut strides: Vec<usize> = Vec::new();
    let mut filled: usize = 0;
    while filled < rank
        invariant
            filled <= rank,
            strides.len() == filled,
        decreases rank - filled,
    {
        strides.push(0);
        filled += 1;
    }
    let mut stride: usize = 1;
    let mut axis: usize = rank;
    assert(shape@.skip(rank as int) =~= Seq::empty());
    while axis > 0
        invariant
            axis <= rank == shape.len(),
            strides.len() == rank,
            stride == capped(size(shape@.skip(axis as int))),
            forall|i: int|
                axis <= i < rank ==> #[trigger] strides@[i] == capped(size(shape@.skip(i + 1))),
        decreases axis,
    {
        axis -= 1;
        strides.set(axis, stride);
        let dim: usize = shape[axis];
        proof {
            let tail = shape@.skip(axis as int + 1);
            assert(shape@.skip(axis as int) =~= seq![dim] + tail);
            lemma_size_append(seq![dim], tail);
            lemma_size_one(dim);
            lemma_size_nonnegative(tail);
            lemma_capped_product(dim as int, size(tail));
        }
        stride = saturating_product(stride, dim);
    }
    assert(strides@ =~= dense_strides(shape@));
    strides
}

proof fn lemma_capped_product(d: int, n: int)
    requires
        d >= 0,
        n >= 0,
    ensures
        capped(capped(n) * d) == capped(d * n),
{
    if n > usize::MAX {
        if d == 0 {
            assert(capped(n) * d == 0 && d * n == 0) by (nonlinear_arith)
                requires
                    d == 0,
            ;
        } else {
            assert(usize::MAX * d >= usize::MAX && d * n >= n) by (nonlinear_arith)
                requires
                    d >= 1,
                    n >= 0,
            ;
            if d == 1 {
                assert(usize::MAX * d == usize::MAX) by (nonlinear_arith)
                    requires
                        d == 1,
                ;
            }
        }
    } else {
        assert(n * d == d * n) by (nonlinear_arith);
    }
}

/// The product, or the largest machine word where it does not fit.
pub fn saturating_product(a: usize, b: usize) -> (p: usize)
    ensures
        p == capped(a * b),
{
    match a.checked_mul(b) {
        Some(p) => p,
        None => usize::MAX,
    }
}

// ---------------------------------------------------------------------------
// Axes
// ---------------------------------------------------------------------------
/// The message on an axis that the tensor does not have.
pub open spec fn axis_text(op_name: Seq<char>, axis: int, rank: int) -> Seq<char> {
    op_name + " axis "@ + signed_decimal(axis) + " is out of bounds for rank "@ + decimal(
        rank as nat,
    )
}

fn axis_error(op_name: &str, axis: i64, rank: usize) -> (e: Error)
    ensures
        e@ == axis_text(op_name@, axis as int, rank as int),
{
    let mut text = String::from_str(op_name);
    text.append(" axis ");
    push_signed(&mut text, axis);
    text.append(" is out of bounds for rank ");
    push_decimal(&mut text, rank as u64);
    Error::from_text(text)
}

/// Checks that the tensor has the axis.
pub fn validate_axis(axis: usize, rank: usize, op_name: &str) -> (r: Result<(), Error>)
    ensures
        match r {
            Ok(_) => axis < rank,
            Err(e) => axis >= rank && e@ == axis_text(op_name@, axis as int, rank as int),
        },
{
    if axis >= rank {
        let mut text = String::from_str(op_name);
        text.append(" axis ");
        push_decimal(&mut text, axis as u64);
        text.append(" is out of bounds for rank ");
        push_decimal(&mut text, rank as u64);
        return Err(Error::from_text(text));
    }
    Ok(())
}

/// The axis that a possibly negative number means: negative ones count from the end.
pub open spec fn resolved_axis(axis: int, rank: int) -> int {
    if axis < 0 {
        rank + axis
    } else {
        axis
    }
}

/// Resolves an axis that may be counted from the end.
pub fn normalize_axis(axis: isize, rank: usize, op_name: &str) -> (r: Result<usize, Error>)
    requires
        rank <= isize::MAX,
    ensures
        match r {
            Ok(a) => a == resolved_axis(axis as int, rank as int) && a < rank,
            Err(e) => if rank == 0 {
                e@ == op_name@ + " requires a tensor with at least one dimension"@
            } else {
                !(0 <= resolved_axis(axis as int, rank as int) < rank) && e@ == axis_text(
                    op_name@,
                    axis as int,
                    rank as int,
                )
            },
        },
{
    if rank == 0 {
        let mut text = String::from_str(op_name);
        text.append(" requires a tensor with at least one dimension");
        return Err(Error::from_text(text));
    }
    let wide: i128 = axis as i128;
    let resolved: i128 = if wide < 0 {
        rank as i128 + wide
    } else {
        wide
    };
    if resolved < 0 || resolved >= rank as i128 {
        return Err(axis_error(op_name, axis as i64, rank));
    }
    Ok(resolved as usize)
}

// ---------------------------------------------------------------------------
// Broadcasting
// ---------------------------------------------------------------------------
/// The dimension of `shape` that meets axis `axis` of a result of rank `rank`,
/// counted from the end; a shape of lower rank is extended by ones at the front.
pub open spec fn aligned_dim(shape: Seq<usize>, rank: int, axis: int) -> usize {
    let own = axis - (rank - shape.len());
    if 0 <= own < shape.len() {
        shape[own]
    } else {
        1
    }
}

pub open spec fn broadcast_rank(lhs: Seq<usize>, rhs: Seq<usize>) -> nat {
    if lhs.len() >= rhs.len() {
        lhs.len()
    } else {
        rhs.len()
    }
}

/// On every axis the dimensions are equal, or one of them is one.
pub open spec fn broadcastable(lhs: Seq<usize>, rhs: Seq<usize>) -> bool {
    let rank = broadcast_rank(lhs, rhs) as int;
    forall|axis: int|
        0 <= axis < rank ==> {
            let l = #[trigger] aligned_dim(lhs, rank, axis);
            let r = aligned_dim(rhs, rank, axis);
            l == r || l == 1 || r == 1
        }
}

/// The shape of the result: on every axis the larger dimension.
pub open spec fn broadcast_result(lhs: Seq<usize>, rhs: Seq<usize>) -> Seq<usize> {
    let rank = broadcast_rank(lhs, rhs);
    Seq::new(
        rank,
        |axis: int|
            {
                let l = aligned_dim(lhs, rank as int, axis);
                let r = aligned_dim(rhs, rank as int, axis);
                if l >= r {
                    l
                } else {
                    r
                }
            },
    )
}

/// The message on shapes that do not go together.
pub open spec fn broadcast_text(lhs: Seq<usize>, rhs: Seq<usize>) -> Seq<char> {
    "cannot broadcast shapes "@ + list_text(lhs) + " and "@ + list_text(rhs)
}

fn dim_for(shape: &[usize], rank: usize, axis: usize) -> (d: usize)
    requires
        shape.len() <= rank,
        axis < rank,
    ensures
        d == aligned_dim(shape@, rank as int, axis as int),
{
    let missing: usize = rank - shape.len();
    if axis < missing {
        1
    } else {
        shape[axis - missing]
    }
}

/// The shape that two shapes broadcast to.
pub fn broadcast_shape(lhs: &[usize], rhs: &[usize]) -> (r: Result<Vec<usize>, Error>)
    ensures
        match r {
            Ok(out) => broadcastable(lhs@, rhs@) && out@ == broadcast_result(lhs@, rhs@),
            Err(e) => !broadcastable(lhs@, rhs@) && e@ == broadcast_text(lhs@, rhs@),
        },
{
    let rank: usize = if lhs.len() >= rhs.len() {
        lhs.len()
    } else {
        rhs.len()
    };
    let mut out: Vec<usize> = Vec::new();
    let mut axis: usize = 0;
    while axis < rank
        invariant
            axis <= rank,
            rank == broadcast_rank(lhs@, rhs@),
            out@ =~= broadcast_result(lhs@, rhs@).take(axis as int),
            forall|a: int|
                0 <= a < axis ==> {
                    let l = #[trigger] aligned_dim(lhs@, rank as int, a);
                    let r = aligned_dim(rhs@, rank as int, a);
                    l == r || l == 1 || r == 1
                },
        decreases rank - axis,
    {
        let l: usize = dim_for(lhs, rank, axis);
        let r: usize = dim_for(rhs, rank, axis);
        if l != r && l != 1 && r != 1 {
            let mut text = String::from_str("cannot broadcast shapes ");
            push_list(&mut text, lhs);
            text.append(" and ");
            push_list(&mut text, rhs);
            assert(aligned_dim(lhs@, rank as int, axis as int) == l);
            return Err(Error::from_text(text));
        }
        out.push(if l >= r {
            l
        } else {
            r
        });
        axis += 1;
    }
    assert(out@ =~= broadcast_result(lhs@, rhs@));
    Ok(out)
}

/// The coordinates in a shape that is broadcast, of an element of the result:
/// axes of length one are read at zero.
pub open spec fn source_coords(out_coords: Seq<int>, shape: Seq<usize>) -> Seq<int> {
    Seq::new(
        shape.len(),
        |a: int|
            if shape[a] == 1 {
                0
            } else {
                out_coords[a + out_coords.len() - shape.len()]
            },
    )
}

/// The position in a broadcast operand that goes into position `k` of the result.
pub open spec fn broadcast_source(out: Seq<usize>, shape: Seq<usize>, k: int) -> int {
    flat(shape, source_coords(coords(out, k), shape))
}

/// `shape` can be read at every element of `out`.
pub open spec fn stretches_to(shape: Seq<usize>, out: Seq<usize>) -> bool {
    shape.len() <= out.len() && forall|a: int|
        0 <= a < shape.len() ==> #[trigger] shape[a] == 1 || shape[a] == out[a + out.len()
            - shape.len()]
}

/// An operand that stretches to the result is read within its bounds.
pub proof fn lemma_broadcast_source(out: Seq<usize>, shape: Seq<usize>, k: int)
    requires
        stretches_to(shape, out),
        0 <= k < size(out),
    ensures
        in_bounds(shape, source_coords(coords(out, k), shape)),
        0 <= broadcast_source(out, shape, k) < size(shape),
{
    law_coords_then_flat(out, k);
    let c = coords(out, k);
    let d = source_coords(c, shape);
    assert forall|a: int| 0 <= a < shape.len() implies 0 <= #[trigger] d[a] < shape[a] by {
        if shape[a] != 1 {
            assert(c[a + out.len() - shape.len()] < out[a + out.len() - shape.len()]);
        }
    }
    lemma_flat_bounds(shape, d);
}

/// Both operands of a broadcast stretch to the result, where the result has elements
/// only if both operands have.
pub proof fn lemma_operands_stretch(lhs: Seq<usize>, rhs: Seq<usize>)
    requires
        broadcastable(lhs, rhs),
        size(lhs) > 0,
        size(rhs) > 0,
        size(lhs) <= usize::MAX,
        size(rhs) <= usize::MAX,
    ensures
        stretches_to(lhs, broadcast_result(lhs, rhs)),
        stretches_to(rhs, broadcast_result(lhs, rhs)),
{
    let out = broadcast_result(lhs, rhs);
    let rank = out.len() as int;
    lemma_fits_positive(lhs);
    lemma_fits_positive(rhs);
    assert forall|a: int| 0 <= a < lhs.len() implies #[trigger] lhs[a] == 1 || lhs[a] == out[a + rank
        - lhs.len()] by {
        let axis = a + rank - lhs.len();
        assert(aligned_dim(lhs, rank, axis) == lhs[a]);
        let r = aligned_dim(rhs, rank, axis);
        assert(r > 0);
    }
    assert forall|a: int| 0 <= a < rhs.len() implies #[trigger] rhs[a] == 1 || rhs[a] == out[a + rank
        - rhs.len()] by {
        let axis = a + rank - rhs.len();
        assert(aligned_dim(rhs, rank, axis) == rhs[a]);
        let l = aligned_dim(lhs, rank, axis);
        assert(l > 0);
    }
}

/// The position in a broadcast operand for the element at `out_coords`.
pub fn broadcast_offset(out_coords: &[usize], out: &[usize], shape: &[usize]) -> (k: usize)
    requires
        fits(shape@),
        in_bounds(out@, ints(out_coords@)),
        stretches_to(shape@, out@),
    ensures
        k == flat(shape@, source_coords(ints(out_coords@), shape@)),
        k < size(shape@),
{
    let missing: usize = out.len() - shape.len();
    let mut c: Vec<usize> = Vec::new();
    let ghost want = source_coords(ints(out_coords@), shape@);
    let mut a: usize = 0;
    while a < shape.len()
        invariant
            a <= shape.len(),
            missing == out.len() - shape.len(),
            out_coords.len() == out.len(),
            want == source_coords(ints(out_coords@), shape@),
            c.len() == a,
            forall|i: int| 0 <= i < a ==> #[trigger] c@[i] == want[i],
        decreases shape.len() - a,
    {
        if shape[a] == 1 {
            c.push(0);
        } else {
            c.push(out_coords[a + missing]);
        }
        a += 1;
    }
    assert(ints(c@) =~= want);
    assert forall|i: int| 0 <= i < shape.len() implies 0 <= #[trigger] want[i] < shape@[i] by {
        if shape@[i] != 1 {
            let j = i + out@.len() - shape@.len();
            assert(ints(out_coords@)[j] < out@[j]);
        }
    }
    flat_index(shape, &c)
}

// ---------------------------------------------------------------------------
// Rotary embeddings
// ---------------------------------------------------------------------------
/// Why a tensor does not have the shape that a rotary embedding needs.
pub open spec fn rope_shape_error(
    shape: Seq<usize>,
    positions_len: int,
    head_dim: int,
    num_heads: int,
    op_name: Seq<char>,
) -> Option<Seq<char>> {
    if shape.len() != 3 {
        Some(
            op_name + " expects a rank-3 tensor shaped [num_heads, seq_len, head_dim], got "@
                + list_text(shape),
        )
    } else if shape[0] != num_heads {
        Some(rope_dim_text(op_name, "num_heads="@, num_heads, shape))
    } else if shape[1] != positions_len {
        Some(rope_dim_text(op_name, "seq_len="@, positions_len, shape))
    } else if shape[2] != head_dim {
        Some(rope_dim_text(op_name, "head_dim="@, head_dim, shape))
    } else {
        None
    }
}

pub open spec fn rope_dim_text(
    op_name: Seq<char>,
    name: Seq<char>,
    expected: int,
    shape: Seq<usize>,
) -> Seq<char> {
    op_name + " expected "@ + name + decimal(expected as nat) + ", got shape "@ + list_text(shape)
}

fn rope_dim_error(op_name: &str, name: &str, expected: usize, shape: &[usize]) -> (e: Error)
    ensures
        e@ == rope_dim_text(op_name@, name@, expected as int, shape@),
{
    let mut text = String::from_str(op_name);
    text.append(" expected ");
    text.append(name);
    push_decimal(&mut text, expected as u64);
    text.append(", got shape ");
    push_list(&mut text, shape);
    Error::from_text(text)
}

/// Checks the shape of a tensor that is to be rotated.
pub fn validate_rope_shape(
    shape: &[usize],
    positions_len: usize,
    head_dim: usize,
    num_heads: usize,
    op_name: &str,
) -> (r: Result<(), Error>)
    ensures
        match r {
            Ok(_) => rope_shape_error(
                shape@,
                positions_len as int,
                head_dim as int,
                num_heads as int,
                op_name@,
            ) is None,
            Err(e) => rope_shape_error(
                shape@,
                positions_len as int,
                head_dim as int,
                num_heads as int,
                op_name@,
            ) == Some(e@),
        },
{
    if shape.len() != 3 {
        let mut text = String::from_str(op_name);
        text.append(" expects a rank-3 tensor shaped [num_heads, seq_len, head_dim], got ");
        push_list(&mut text, shape);
        return Err(Error::from_text(text));
    }
    if shape[0] != num_heads {
        return Err(rope_dim_error(op_name, "num_heads=", num_heads, shape));
    }
    if shape[1] != positions_len {
        return Err(rope_dim_error(op_name, "seq_len=", positions_len, shape));
    }
    if shape[2] != head_dim {
        return Err(rope_dim_error(op_name, "head_dim=", head_dim, shape));
    }
    Ok(())
}

/// The number of dimensions that are rotated: the whole head where zero is asked
/// for. It is even, and divisible by four where two positions share a head.
pub open spec fn rope_dims_result(head_dim: int, rope_dims: int, op_name: Seq<char>, mixed: bool) -> Result<
    int,
    Seq<char>,
> {
    let dims = if rope_dims == 0 {
        head_dim
    } else {
        rope_dims
    };
    if head_dim == 0 {
        Err(op_name + " requires head_dim > 0"@)
    } else if dims > head_dim {
        Err(
            op_name + " rope_dims "@ + decimal(dims as nat) + " exceeds head_dim "@ + decimal(
                head_dim as nat,
            ),
        )
    } else if mixed && dims % 4 != 0 {
        Err(
            op_name + " requires rope_dims divisible by 4 for mixed RoPE, got "@ + decimal(
                dims as nat,
            ),
        )
    } else if !mixed && dims % 2 != 0 {
        Err(op_name + " requires an even rope_dims, got "@ + decimal(dims as nat))
    } else {
        Ok(dims)
    }
}

/// Resolves the number of dimensions that are rotated.
pub fn normalize_rope_dims(head_dim: usize, rope_dims: usize, op_name: &str, mixed: bool) -> (r:
    Result<usize, Error>)
    ensures
        match r {
            Ok(dims) => rope_dims_result(head_dim as int, rope_dims as int, op_name@, mixed) == Ok::<
                int,
                Seq<char>,
            >(dims as int),
            Err(e) => rope_dims_result(head_dim as int, rope_dims as int, op_name@, mixed) == Err::<
                int,
                Seq<char>,
            >(e@),
        },
{
    let mut text = String::from_str(op_name);
    if head_dim == 0 {
        text.append(" requires head_dim > 0");
        return Err(Error::from_text(text));
    }
    let dims: usize = if rope_dims == 0 {
        head_dim
    } else {
        rope_dims
    };
    if dims > head_dim {
        text.append(" rope_dims ");
        push_decimal(&mut text, dims as u64);
        text.append(" exceeds head_dim ");
        push_decimal(&mut text, head_dim as u64);
        return Err(Error::from_text(text));
    }
    if mixed && dims % 4 != 0 {
        text.append(" requires rope_dims divisible by 4 for mixed RoPE, got ");
        push_decimal(&mut text, dims as u64);
        return Err(Error::from_text(text));
    }
    if !mixed && dims % 2 != 0 {
        text.append(" requires an even rope_dims, got ");
        push_decimal(&mut text, dims as u64);
        return Err(Error::from_text(text));
    }
    Ok(dims)
}

} // verus!
