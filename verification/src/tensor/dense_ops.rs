//! Operations on dense tensors of numbers, each verified against what it makes of what
//! the tensors hold.
use vstd::prelude::*;
use vstd::string::*;

use crate::error::Error;
use crate::tensor::contents::{
    arranged, conv_contents, covers, joined_at, joined_contents, lengths, linear_at,
    linear_contents, matmul_at, matmul_contents, norm_contents, optional_shape, paired,
    pairing_complaint, parts_complaint, rope_contents, rope_value, share, softmax_contents,
    softmax_value, split_complaint, turned_at, weighted, Contents,
};
use crate::tensor::cpu::{swapped, CpuTensor};
use crate::tensor::cpu_kernels::{
    are_partial_sums, bias_at, bias_shape, check_conv, count_positions, is_biased,
    is_chunked_product, is_conv_value, is_weight_taken, lead, lemma_chunk_element,
    lemma_size_stack, lies_within, Product,
};
use crate::tensor::cpu_layout::{
    is_concat, lemma_offsets_grow, lemma_parts_agree, lemma_parts_error_stays, part_check,
    part_dims, part_offset, parts_error, same_but,
};
use crate::tensor::cpu_ops::{
    heads_rotated, inner_size, is_kernel_result, is_rotated, is_rotated_token, is_row_result, lane,
    lane_base, outer_size,
};
use crate::tensor::numbers::{product_at, row_product_at, Algebra, Number};
use crate::tensor::ops::TensorModel;
use crate::tensor::shape::{
    broadcast_shape, coords, fits, in_bounds, law_coords_then_flat, lemma_fits_take,
    lemma_size_nonnegative, lemma_size_split, lemma_size_three, lemma_size_two, resolved_axis,
    size,
};
use crate::text::{push_decimal, push_list};

verus! {

/// What a tensor holds.
pub open spec fn contents_of<E>(t: CpuTensor<E>) -> Contents<E> {
    Contents { shape: t.shape@, values: t.data@ }
}

/// The result `r` is a tensor of which `expected` is true, or an error with this text.
pub open spec fn gives<E>(
    r: Result<CpuTensor<E>, Error>,
    expected: Result<Contents<E>, Seq<char>>,
) -> bool {
    match r {
        Ok(t) => t.well_formed() && expected == Ok::<Contents<E>, Seq<char>>(contents_of(t)),
        Err(e) => expected == Err::<Contents<E>, Seq<char>>(e@),
    }
}

/// A tensor whose elements are given by their coordinates.
proof fn lemma_arranged<E>(t: CpuTensor<E>, f: spec_fn(Seq<int>) -> E)
    requires
        t.well_formed(),
        forall|c: Seq<int>| #[trigger] in_bounds(t.shape@, c) ==> t.at(c) == f(c),
    ensures
        contents_of(t) == arranged(t.shape@, f),
{
    assert forall|k: int| 0 <= k < t.data.len() implies t.data@[k] == f(coords(t.shape@, k)) by {
        law_coords_then_flat(t.shape@, k);
        assert(t.at(coords(t.shape@, k)) == t.data@[k]);
    }
    assert(t.data@ =~= arranged(t.shape@, f).values);
}

pub(crate) fn reshape<E: Number>(x: &CpuTensor<E>, shape: &Vec<usize>) -> (r: Result<
    CpuTensor<E>,
    Error,
>)
    requires
        x.well_formed(),
    ensures
        gives(r, contents_of(*x).reshaped(shape@)),
{
    x.duplicate().reshape(shape)
}

pub(crate) fn transpose<E: Number>(x: &CpuTensor<E>, dim0: usize, dim1: usize) -> (r: Result<
    CpuTensor<E>,
    Error,
>)
    requires
        x.well_formed(),
    ensures
        gives(r, contents_of(*x).transposed(dim0 as int, dim1 as int)),
{
    let copy = x.duplicate();
    let ghost x0 = contents_of(*x);
    let r = copy.transpose(dim0, dim1);
    proof {
        if r is Ok {
            lemma_arranged(r->Ok_0, |c: Seq<int>| x0.at(swapped(c, dim0 as int, dim1 as int)));
        }
    }
    r
}

pub(crate) fn slice<E: Number>(x: &CpuTensor<E>, axis: usize, start: usize, end: usize) -> (r: Result<
    CpuTensor<E>,
    Error,
>)
    requires
        x.well_formed(),
    ensures
        gives(r, contents_of(*x).sliced(axis as int, start as int, end as int)),
{
    let copy = x.duplicate();
    let ghost x0 = contents_of(*x);
    let r = copy.slice(axis, start, end);
    proof {
        if r is Ok {
            lemma_arranged(
                r->Ok_0,
                |c: Seq<int>| x0.at(c.update(axis as int, c[axis as int] + start)),
            );
        }
    }
    r
}

/// What each of the parts holds.
pub open spec fn contents_of_parts<E>(parts: Seq<&CpuTensor<E>>) -> Seq<Contents<E>> {
    Seq::new(parts.len(), |p: int| contents_of(*parts[p]))
}

proof fn lemma_same_complaint<E>(parts: Seq<&CpuTensor<E>>, axis: int, n: int)
    requires
        n <= parts.len(),
    ensures
        parts_complaint(contents_of_parts(parts), axis, n) == parts_error(parts, axis, n),
    decreases n,
{
    if n > 0 {
        lemma_same_complaint(parts, axis, n - 1);
    }
}

/// Every position of the joined axis is covered by a part.
pub proof fn lemma_covered(dims: Seq<int>, x: int, n: int) -> (p: int)
    requires
        0 <= n <= dims.len(),
        0 <= x < part_offset(dims, n),
    ensures
        covers(dims, p, x),
        p < n,
    decreases n,
{
    if x < part_offset(dims, n - 1) {
        lemma_covered(dims, x, n - 1)
    } else {
        n - 1
    }
}

proof fn lemma_joined<E>(parts: Seq<&CpuTensor<E>>, axis: int, t: CpuTensor<E>)
    requires
        parts.len() > 0,
        0 <= axis < parts[0].shape@.len(),
        forall|p: int|
            0 <= p < parts.len() ==> same_but(parts[0].shape@, (#[trigger] parts[p]).shape@, axis),
        part_offset(part_dims(parts, axis), parts.len() as int) <= usize::MAX,
        is_concat(parts, axis, t),
    ensures
        contents_of(t) == joined_contents(contents_of_parts(parts), axis),
{
    let held = contents_of_parts(parts);
    let dims = part_dims(parts, axis);
    assert(lengths(held, axis) =~= dims);
    let f = |c: Seq<int>| joined_at(held, axis, c);
    lemma_offsets_grow(dims, 0, parts.len() as int);
    assert forall|c: Seq<int>| #[trigger] in_bounds(t.shape@, c) implies t.at(c) == f(c) by {
        assert(0 <= c[axis] < t.shape@[axis]);
        let q = lemma_covered(dims, c[axis], parts.len() as int);
        let p = choose|p: int| covers(dims, p, c[axis]);
        assert(covers(dims, p, c[axis]));
        let d = c.update(axis, c[axis] - part_offset(dims, p));
        assert(same_but(parts[0].shape@, parts[p].shape@, axis));
        assert(in_bounds(parts[p].shape@, d)) by {
            assert forall|i: int| 0 <= i < parts[p].shape@.len() implies 0 <= #[trigger] d[i]
                < parts[p].shape@[i] by {
                assert(0 <= c[i] < t.shape@[i]);
                if i == axis {
                    assert(dims[p] == parts[p].shape@[axis]);
                }
            }
        }
        assert(d.update(axis, d[axis] + part_offset(dims, p)) =~= c);
        assert(t.at(c) == parts[p].at(d));
        assert(held[p].at(d) == parts[p].at(d));
    }
    lemma_arranged(t, f);
}

/// The sum of the lengths of the parts along an axis.
fn joined_length<E: Number>(parts: &Vec<&CpuTensor<E>>, axis: usize) -> (n: Option<usize>)
    requires
        forall|p: int| 0 <= p < parts.len() ==> axis < (#[trigger] parts@[p]).shape.len(),
    ensures
        match n {
            Some(n) => n == part_offset(part_dims(parts@, axis as int), parts.len() as int),
            None => part_offset(part_dims(parts@, axis as int), parts.len() as int) > usize::MAX,
        },
{
    let ghost dims = part_dims(parts@, axis as int);
    let mut sum: usize = 0;
    let mut p: usize = 0;
    while p < parts.len()
        invariant
            p <= parts.len(),
            dims == part_dims(parts@, axis as int),
            forall|p: int| 0 <= p < parts.len() ==> axis < (#[trigger] parts@[p]).shape.len(),
            sum == part_offset(dims, p as int),
        decreases parts.len() - p,
    {
        let len: usize = parts[p].shape[axis];
        proof {
            assert(dims[p as int] == len);
            assert(part_offset(dims, p + 1) == sum + len);
            lemma_offsets_grow(dims, p + 1, parts.len() as int);
        }
        sum = match sum.checked_add(len) {
            Some(n) => n,
            None => {
                return None;
            },
        };
        p += 1;
    }
    Some(sum)
}

pub(crate) fn concat<E: Number>(parts: &Vec<&CpuTensor<E>>, axis: usize) -> (r: Result<
    CpuTensor<E>,
    Error,
>)
    requires
        forall|p: int| 0 <= p < parts.len() ==> (#[trigger] parts@[p]).well_formed(),
    ensures
        gives(r, Contents::joined(contents_of_parts(parts@), axis as int)),
{
    proof {
        lemma_same_complaint(parts@, axis as int, parts.len() as int);
        assert(lengths(contents_of_parts(parts@), axis as int) =~= part_dims(parts@, axis as int));
    }
    if parts.len() > 0 && axis < parts[0].shape.len() {
        let mut p: usize = 0;
        let mut agree = true;
        while p < parts.len() && agree
            invariant
                p <= parts.len(),
                parts.len() > 0,
                axis < parts@[0].shape.len(),
                agree == (parts_error(parts@, axis as int, p as int) is None),
                forall|q: int|
                    0 <= q < p && agree ==> same_but(
                        parts@[0].shape@,
                        (#[trigger] parts@[q]).shape@,
                        axis as int,
                    ),
                !agree ==> parts_error(parts@, axis as int, parts.len() as int) is Some,
            decreases parts.len() - p,
        {
            match part_check(&parts[0].shape, &parts[p].shape, axis) {
                Ok(_) => {},
                Err(_) => {
                    agree = false;
                    proof {
                        lemma_parts_error_stays(
                            parts@,
                            axis as int,
                            p + 1,
                            parts.len() as int,
                        );
                    }
                },
            }
            p += 1;
        }
        if agree {
            match joined_length(parts, axis) {
                Some(_) => {},
                None => {
                    return Err(Error::message("concat dimension overflow"));
                },
            }
        }
    }
    let r = CpuTensor::concat(parts, axis);
    proof {
        if r is Ok {
            lemma_parts_agree(parts@, axis as int, parts.len() as int);
            lemma_joined(parts@, axis as int, r->Ok_0);
        }
    }
    r
}

/// One part of the last axis split in `n` equal parts.
pub(crate) fn share_of<E: Number>(x: &CpuTensor<E>, n: usize, i: usize) -> (t: CpuTensor<E>)
    requires
        x.well_formed(),
        x.shape.len() > 0,
        0 < n <= 3,
        i < n,
        x.shape@.last() as int % n as int == 0,
    ensures
        t.well_formed(),
        contents_of(t) == share(contents_of(*x), n as int, i as int),
{
    let axis: usize = x.shape.len() - 1;
    let each: usize = x.shape[axis] / n;
    proof {
        let len = x.shape@.last() as int;
        vstd::arithmetic::div_mod::lemma_fundamental_div_mod(len, n as int);
        assert(0 <= i * each && i * each + each <= len) by (nonlinear_arith)
            requires
                len == n * each,
                0 <= i,
                i + 1 <= n,
                each >= 0,
        ;
    }
    match slice(x, axis, i * each, i * each + each) {
        Ok(t) => t,
        Err(_) => {
            assert(false);
            x.duplicate()
        },
    }
}

/// Whether the last axis can be split in `n` equal parts.
pub(crate) fn check_split(shape: &Vec<usize>, n: usize) -> (r: Result<(), Error>)
    requires
        n > 0,
    ensures
        match r {
            Ok(_) => split_complaint(shape@, n as int) is None,
            Err(e) => split_complaint(shape@, n as int) == Some(e@),
        },
{
    if shape.len() == 0 {
        return Err(Error::message("split requires a tensor with at least one dimension"));
    }
    if shape[shape.len() - 1] % n != 0 {
        let mut text = String::from_str("cannot split the last axis of ");
        push_list(&mut text, shape);
        text.append(" in ");
        push_decimal(&mut text, n as u64);
        return Err(Error::from_text(text));
    }
    Ok(())
}

/// A shape has positions unless one of its dimensions is zero.
fn has_positions(shape: &Vec<usize>) -> (b: bool)
    ensures
        b == (size(shape@) > 0),
{
    let mut i: usize = 0;
    assert(shape@.take(0) =~= Seq::empty());
    while i < shape.len()
        invariant
            i <= shape.len(),
            size(shape@.take(i as int)) > 0,
        decreases shape.len() - i,
    {
        let ghost upto = shape@.take(i + 1);
        proof {
            assert(upto.drop_last() =~= shape@.take(i as int));
            assert(upto.last() == shape@[i as int]);
            let (front, d) = (size(shape@.take(i as int)), shape@[i as int] as int);
            assert(d > 0 ==> front * d > 0) by (nonlinear_arith)
                requires
                    front > 0,
            ;
        }
        if shape[i] == 0 {
            proof {
                lemma_size_split(shape@, i as int);
                let (x, z) = (size(shape@.take(i as int)), size(shape@.skip(i + 1)));
                assert(x * (0 * z) == 0) by (nonlinear_arith);
            }
            return false;
        }
        i += 1;
    }
    assert(shape@.take(i as int) =~= shape@);
    true
}

/// Whether two tensors go together element by element.
fn check_pairing<E: Number>(lhs: &CpuTensor<E>, rhs: &CpuTensor<E>) -> (r: Result<(), Error>)
    requires
        lhs.well_formed(),
        rhs.well_formed(),
    ensures
        match r {
            Ok(_) => pairing_complaint(lhs.shape@, rhs.shape@) is None,
            Err(e) => pairing_complaint(lhs.shape@, rhs.shape@) == Some(e@),
        },
{
    let out: Vec<usize> = match broadcast_shape(&lhs.shape, &rhs.shape) {
        Ok(out) => out,
        Err(e) => {
            return Err(e);
        },
    };
    if has_positions(&out) && (lhs.data.len() == 0 || rhs.data.len() == 0) {
        let mut text = String::from_str("cannot broadcast a tensor without elements: ");
        push_list(&mut text, &lhs.shape);
        text.append(" and ");
        push_list(&mut text, &rhs.shape);
        return Err(Error::from_text(text));
    }
    proof {
        lemma_size_nonnegative(lhs.shape@);
        lemma_size_nonnegative(rhs.shape@);
    }
    Ok(())
}

pub(crate) fn add<E: Number>(lhs: &CpuTensor<E>, rhs: &CpuTensor<E>) -> (r: Result<
    CpuTensor<E>,
    Error,
>)
    requires
        lhs.well_formed(),
        rhs.well_formed(),
    ensures
        gives(r, contents_of(*lhs).sum(contents_of(*rhs))),
{
    if let Err(e) = check_pairing(lhs, rhs) {
        return Err(e);
    }
    let combine = |x: E, y: E| -> (z: E)
        ensures
            z == x.plus(y),
    {
        x.add(y)
    };
    let r = lhs.duplicate().binary_op(rhs, combine);
    proof {
        if r is Ok {
            assert(r->Ok_0.data@ =~= paired(
                contents_of(*lhs),
                contents_of(*rhs),
                |x: E, y: E| x.plus(y),
            ).values);
        }
    }
    r
}

pub(crate) fn mul<E: Number>(lhs: &CpuTensor<E>, rhs: &CpuTensor<E>) -> (r: Result<
    CpuTensor<E>,
    Error,
>)
    requires
        lhs.well_formed(),
        rhs.well_formed(),
    ensures
        gives(r, contents_of(*lhs).product(contents_of(*rhs))),
{
    if let Err(e) = check_pairing(lhs, rhs) {
        return Err(e);
    }
    let combine = |x: E, y: E| -> (z: E)
        ensures
            z == x.times(y),
    {
        x.mul(y)
    };
    let r = lhs.duplicate().binary_op(rhs, combine);
    proof {
        if r is Ok {
            assert(r->Ok_0.data@ =~= paired(
                contents_of(*lhs),
                contents_of(*rhs),
                |x: E, y: E| x.times(y),
            ).values);
        }
    }
    r
}

pub(crate) fn scale<E: Number>(x: &CpuTensor<E>, factor: u32) -> (t: CpuTensor<E>)
    requires
        x.well_formed(),
    ensures
        t.well_formed(),
        contents_of(*x).scaled(factor) == Ok::<Contents<E>, Seq<char>>(contents_of(t)),
{
    let grow = |x: E| -> (z: E)
        ensures
            z == x.times_bits(factor),
    {
        x.scale(factor)
    };
    let t = x.duplicate().unary_op(grow);
    assert(t.data@ =~= x.data@.map_values(|x: E| x.times_bits(factor)));
    t
}

/// The product of two blocks of matrices.
fn block_product<E: Number>(lhs: &Vec<E>, rhs: &Vec<E>, p: Product) -> (v: Vec<E>)
    requires
        lies_within(p, lhs.len() as int, rhs.len() as int),
    ensures
        v.len() == p.rows * p.cols,
        forall|i: int| 0 <= i < v.len() ==> #[trigger] v@[i] == product_at(lhs@, rhs@, p, i),
{
    E::product(lhs, rhs, p)
}

/// The product of a block with one that is held by columns.
fn block_row_product<E: Number>(lhs: &Vec<E>, rhs: &Vec<E>, p: Product) -> (v: Vec<E>)
    requires
        lies_within(p, lhs.len() as int, rhs.len() as int),
    ensures
        v.len() == p.rows * p.cols,
        forall|i: int| 0 <= i < v.len() ==> #[trigger] v@[i] == row_product_at(lhs@, rhs@, p, i),
{
    E::row_product(lhs, rhs, p)
}

pub(crate) fn matmul<E: Number>(lhs: &CpuTensor<E>, rhs: &CpuTensor<E>) -> (r: Result<
    CpuTensor<E>,
    Error,
>)
    requires
        lhs.well_formed(),
        rhs.well_formed(),
    ensures
        gives(r, contents_of(*lhs).matrix_product(contents_of(*rhs))),
{
    let r = lhs.matmul(rhs, block_product::<E>);
    proof {
        if r is Ok {
            let t = r->Ok_0;
            let m = lhs.shape@[lhs.shape.len() - 2] as int;
            let k = lhs.shape@[lhs.shape.len() - 1] as int;
            let n = rhs.shape@[rhs.shape.len() - 1] as int;
            let batch = size(lead(lhs.shape@));
            lemma_size_stack(lhs.shape@);
            lemma_size_stack(rhs.shape@);
            lemma_size_nonnegative(lead(lhs.shape@));
            assert(batch * k * n == batch * (k * n)) by (nonlinear_arith);
            assert forall|i: int| 0 <= i < t.data.len() implies #[trigger] t.data@[i] == matmul_at(
                lhs.data@,
                rhs.data@,
                m,
                k,
                n,
                i,
            ) by {
                let (block, v, at) = lemma_chunk_element(
                    block_product::<E>,
                    lhs.data,
                    rhs.data,
                    batch,
                    m,
                    k,
                    n,
                    usize::MAX as int,
                    t.data@,
                    i,
                );
                assert(v@[at] == product_at(lhs.data@, rhs.data@, block, at));
            }
            assert(t.data@ =~= matmul_contents(contents_of(*lhs), contents_of(*rhs)).values);
        }
    }
    r
}

/// However many rows are worked on at a time, the products of two stacks of matrices are
/// the same.
pub proof fn law_row_chunks_change_nothing<E: Algebra, P: Fn(&Vec<E>, &Vec<E>, Product) -> Vec<E>>(
    product: P,
    lhs: Vec<E>,
    rhs: Vec<E>,
    batch: int,
    m: int,
    k: int,
    n: int,
    chunk: int,
    other: int,
    a: Seq<E>,
    b: Seq<E>,
)
    requires
        forall|p: Product, v: Vec<E>, i: int|
            #[trigger] call_ensures(product, (&lhs, &rhs, p), v) && 0 <= i < v.len()
                ==> #[trigger] v@[i] == product_at(lhs@, rhs@, p, i),
        is_chunked_product(product, lhs, rhs, batch, m, k, n, chunk, a),
        is_chunked_product(product, lhs, rhs, batch, m, k, n, other, b),
        lhs.len() == batch * m * k,
        rhs.len() == batch * (k * n),
        0 <= batch,
        0 <= m <= usize::MAX,
        0 <= k <= usize::MAX,
        0 <= n <= usize::MAX,
        1 <= chunk,
        1 <= other,
    ensures
        a == b,
        forall|i: int|
            0 <= i < a.len() ==> #[trigger] a[i] == matmul_at(lhs@, rhs@, m, k, n, i),
{
    assert forall|i: int| 0 <= i < a.len() implies #[trigger] a[i] == matmul_at(
        lhs@,
        rhs@,
        m,
        k,
        n,
        i,
    ) && b[i] == a[i] by {
        let (p, v, at) = lemma_chunk_element(product, lhs, rhs, batch, m, k, n, chunk, a, i);
        assert(v@[at] == product_at(lhs@, rhs@, p, at));
        let (q, w, to) = lemma_chunk_element(product, lhs, rhs, batch, m, k, n, other, b, i);
        assert(w@[to] == product_at(lhs@, rhs@, q, to));
    }
    assert(a =~= b);
}

/// What a bias holds, where there is one.
pub open spec fn contents_of_bias<E>(bias: Option<&CpuTensor<E>>) -> Option<Contents<E>> {
    match bias {
        Some(b) => Some(contents_of(*b)),
        None => None,
    }
}

pub(crate) fn linear<E: Number>(
    x: &CpuTensor<E>,
    weight: &CpuTensor<E>,
    bias: Option<&CpuTensor<E>>,
) -> (r: Result<CpuTensor<E>, Error>)
    requires
        x.well_formed(),
        weight.well_formed(),
        bias is Some ==> bias->0.well_formed(),
    ensures
        gives(r, contents_of(*x).linear_image(contents_of(*weight), contents_of_bias(bias))),
{
    let in_dim: usize = if x.shape.len() > 0 {
        x.shape[x.shape.len() - 1]
    } else {
        0
    };
    let out_dim: usize = if weight.shape.len() > 0 {
        weight.shape[0]
    } else {
        0
    };
    let rows: usize = if in_dim > 0 {
        x.data.len() / in_dim
    } else {
        0
    };
    let chunk: usize = E::layer_rows(rows, in_dim, out_dim);
    let plus = |x: E, y: E| -> (z: E)
        ensures
            z == x.plus(y),
    {
        x.add(y)
    };
    let r = x.linear(weight, bias, chunk, block_row_product::<E>, plus);
    proof {
        assert(bias_shape(bias) == optional_shape(contents_of_bias(bias)));
        if r is Ok {
            let t = r->Ok_0;
            let m = size(x.shape@.drop_last());
            let k = weight.shape@[1] as int;
            let n = weight.shape@[0] as int;
            let products = choose|products: Seq<E>| #[trigger]
                is_chunked_product(
                    block_row_product::<E>,
                    x.data,
                    weight.data,
                    1,
                    m,
                    k,
                    n,
                    chunk as int,
                    products,
                ) && is_biased(products, bias, n, plus, t.data@);
            lemma_size_nonnegative(x.shape@.drop_last());
            assert(weight.shape@ =~= seq![weight.shape@[0], weight.shape@[1]]);
            lemma_size_two(weight.shape@[0], weight.shape@[1]);
            assert(1 * m * k == m * k) by (nonlinear_arith);
            assert(1 * (k * n) == n * k) by (nonlinear_arith);
            lemma_fits_take(t.shape@, t.shape.len() - 1);
            assert(t.shape@.take(t.shape.len() - 1) =~= x.shape@.drop_last());
            assert(fits(x.shape@.drop_last()));
            assert(x.shape@.drop_last().take(x.shape.len() - 1) =~= x.shape@.drop_last());
            assert forall|i: int| 0 <= i < t.data.len() implies #[trigger] t.data@[i] == linear_at(
                x.data@,
                weight.data@,
                contents_of_bias(bias),
                k,
                n,
                i,
            ) by {
                let (block, v, at) = lemma_chunk_element(
                    block_row_product::<E>,
                    x.data,
                    weight.data,
                    1,
                    m,
                    k,
                    n,
                    chunk as int,
                    products,
                    i,
                );
                assert(v@[at] == row_product_at(x.data@, weight.data@, block, at));
                vstd::arithmetic::div_mod::lemma_basic_div(i / n, m);
                assert(0 * (k * n) == 0) by (nonlinear_arith);
                assert(block.rhs_offset == 0);
                assert(products[i] == E::dot(
                    lane(x.data@, (i / n) * k, 1, k),
                    lane(weight.data@, (i % n) * k, 1, k),
                ));
            }
            assert(t.data@ =~= linear_contents(
                contents_of(*x),
                contents_of(*weight),
                contents_of_bias(bias),
            ).values);
        }
    }
    r
}

pub(crate) fn rms_norm<E: Number>(x: &CpuTensor<E>, weight: &CpuTensor<E>, eps: u32) -> (r: Result<
    CpuTensor<E>,
    Error,
>)
    requires
        x.well_formed(),
        weight.well_formed(),
    ensures
        gives(r, contents_of(*x).rms_normed(contents_of(*weight), eps)),
{
    let kernel = |row: &Vec<E>, w: &Vec<E>| -> (v: Vec<E>)
        ensures
            v.len() == row.len(),
            forall|i: int| 0 <= i < v.len() ==> #[trigger] v@[i] == E::norm_at(row@, w@, eps, i),
    {
        E::norm(row, w, eps)
    };
    let r = x.duplicate().rms_norm(weight, kernel);
    proof {
        if r is Ok {
            let t = r->Ok_0;
            let dim = x.shape@.last() as int;
            assert forall|k: int| 0 <= k < t.data.len() implies #[trigger] t.data@[k]
                == E::norm_at(lane(x.data@, (k / dim) * dim, 1, dim), weight.data@, eps, k % dim) by {
                let front = size(x.shape@.drop_last());
                lemma_size_nonnegative(x.shape@.drop_last());
                assert(dim > 0) by (nonlinear_arith)
                    requires
                        0 < front * dim,
                        front >= 0,
                        dim >= 0,
                ;
                let row = k / dim;
                vstd::arithmetic::div_mod::lemma_fundamental_div_mod(k, dim);
                assert(0 <= row && (row + 1) * dim <= front * dim && (row + 1) * dim == row * dim
                    + dim && row * dim == dim * row && 0 <= row * dim) by (nonlinear_arith)
                    requires
                        0 <= k < front * dim,
                        k == dim * row + k % dim,
                        0 <= k % dim < dim,
                        dim > 0,
                ;
                let before = x.data@.subrange(row * dim, (row + 1) * dim);
                let after = t.data@.subrange(row * dim, (row + 1) * dim);
                assert(is_row_result(kernel, weight.data, before, after));
                let (v, w) = choose|v: Vec<E>, w: Vec<E>|
                    v@ == before && w@ == after && #[trigger] call_ensures(
                        kernel,
                        (&v, &weight.data),
                        w,
                    );
                assert(before =~= lane(x.data@, row * dim, 1, dim));
                assert(after[k % dim] == t.data@[k]);
                assert(w@[k % dim] == E::norm_at(v@, weight.data@, eps, k % dim));
            }
            assert(t.data@ =~= norm_contents(contents_of(*x), contents_of(*weight), eps).values);
        }
    }
    r
}

/// Position `k` is on the lane of its block and offset.
proof fn lemma_on_lane(k: int, outer: int, len: int, inner: int)
    requires
        0 <= k < outer * (len * inner),
        len > 0,
        inner > 0,
    ensures
        0 <= k / (len * inner) < outer,
        0 <= k % inner < inner,
        0 <= k / inner % len < len,
        k == lane_base(k / (len * inner), k % inner, len, inner) + (k / inner % len) * inner,
{
    let block = len * inner;
    assert(block > 0) by (nonlinear_arith)
        requires
            block == len * inner,
            len > 0,
            inner > 0,
    ;
    let o = k / block;
    let q = k / inner;
    let j = q % len;
    let i = k % inner;
    vstd::arithmetic::div_mod::lemma_fundamental_div_mod(k, block);
    vstd::arithmetic::div_mod::lemma_fundamental_div_mod(k, inner);
    vstd::arithmetic::div_mod::lemma_fundamental_div_mod(q, len);
    vstd::arithmetic::div_mod::lemma_div_denominator(k, inner, len);
    assert(inner * len == block) by (nonlinear_arith)
        requires
            block == len * inner,
    ;
    assert(q / len == o);
    assert(0 <= o < outer) by (nonlinear_arith)
        requires
            0 <= k < outer * block,
            k == block * o + k % block,
            0 <= k % block < block,
            block > 0,
    ;
    assert(k == o * block + i + j * inner) by (nonlinear_arith)
        requires
            k == inner * q + i,
            q == len * o + j,
            block == len * inner,
    ;
}

pub(crate) fn softmax<E: Number>(x: &CpuTensor<E>, axis: isize) -> (r: Result<CpuTensor<E>, Error>)
    requires
        x.well_formed(),
    ensures
        gives(r, contents_of(*x).softmaxed(axis as int)),
{
    if x.shape.len() > isize::MAX as usize {
        return Err(Error::message("softmax expects fewer dimensions"));
    }
    let kernel = |row: &Vec<E>| -> (v: Vec<E>)
        ensures
            v.len() == row.len(),
            forall|i: int| 0 <= i < v.len() ==> #[trigger] v@[i] == E::softmax_at(row@, i),
    {
        E::softmax(row)
    };
    let r = x.duplicate().softmax(axis, kernel);
    proof {
        if r is Ok {
            let t = r->Ok_0;
            let a = resolved_axis(axis as int, x.shape.len() as int);
            let len = x.shape@[a] as int;
            let outer = outer_size(x.shape@, a);
            let inner = inner_size(x.shape@, a);
            assert forall|k: int| 0 <= k < t.data.len() implies #[trigger] t.data@[k]
                == softmax_value(x.data@, len, inner, k) by {
                lemma_size_split(x.shape@, a);
                lemma_size_nonnegative(x.shape@.take(a));
                lemma_size_nonnegative(x.shape@.skip(a + 1));
                assert(outer > 0 && len > 0 && inner > 0) by (nonlinear_arith)
                    requires
                        0 < outer * (len * inner),
                        outer >= 0,
                        len >= 0,
                        inner >= 0,
                ;
                lemma_on_lane(k, outer, len, inner);
                let (o, i, j) = (k / (len * inner), k % inner, k / inner % len);
                let before = lane(x.data@, lane_base(o, i, len, inner), inner, len);
                let after = lane(t.data@, lane_base(o, i, len, inner), inner, len);
                assert(is_kernel_result(kernel, before, after));
                let (v, w) = choose|v: Vec<E>, w: Vec<E>|
                    v@ == before && w@ == after && #[trigger] call_ensures(kernel, (&v,), w);
                assert(after[j] == t.data@[k]);
                assert(w@[j] == E::softmax_at(v@, j));
            }
            assert(t.data@ =~= softmax_contents(contents_of(*x), axis as int).values);
        }
    }
    r
}

/// `rotate` turns pairs as numbers are turned.
spec fn turns<E: Number, R: Fn(E, E, i32, usize, usize) -> (E, E)>(rotate: R, theta: u32) -> bool {
    forall|x: E, y: E, p: i32, o: usize, d: usize, r: (E, E)| #[trigger]
        call_ensures(rotate, (x, y, p, o, d), r) ==> r == E::turned(x, y, p, o, d, theta)
}

proof fn lemma_turned<E: Number, R: Fn(E, E, i32, usize, usize) -> (E, E)>(
    before: Seq<E>,
    after: Seq<E>,
    start: int,
    channel: int,
    dims: int,
    position: i32,
    theta: u32,
    rotate: R,
)
    requires
        is_rotated(before, after, start, dims, position, rotate),
        turns(rotate, theta),
        dims % 2 == 0,
        0 <= channel < dims,
    ensures
        after[start + channel] == turned_at(before, start, channel, dims, position, theta),
{
    let j = channel / 2;
    assert(0 <= j < dims / 2);
    assert(call_ensures(
        rotate,
        (
            before[start + 2 * j],
            before[start + 2 * j + 1],
            position,
            (2 * j) as usize,
            dims as usize,
        ),
        (after[start + 2 * j], after[start + 2 * j + 1]),
    ));
    if channel % 2 == 0 {
        assert(channel == 2 * j);
    } else {
        assert(channel == 2 * j + 1);
    }
}

proof fn lemma_heads_turned<E: Number, R: Fn(E, E, i32, usize, usize) -> (E, E)>(
    x: CpuTensor<E>,
    t: CpuTensor<E>,
    num_heads: int,
    head_dim: int,
    a: int,
    first: Seq<i32>,
    b: int,
    second: Seq<i32>,
    theta: u32,
    rotate: R,
)
    requires
        x.well_formed(),
        t.well_formed(),
        t.shape@ == x.shape@,
        size(x.shape@) == num_heads * first.len() * head_dim,
        head_dim > 0,
        num_heads >= 0,
        0 <= a,
        0 <= b,
        a + b <= head_dim,
        a % 2 == 0,
        b % 2 == 0,
        turns(rotate, theta),
        heads_rotated(x.data@, t.data@, num_heads, head_dim, a, first, b, second, rotate),
    ensures
        contents_of(t) == rope_contents(
            contents_of(x),
            head_dim,
            a,
            first,
            b,
            second,
            theta,
        ),
{
    let tokens = first.len() as int;
    assert forall|k: int| 0 <= k < t.data.len() implies #[trigger] t.data@[k] == rope_value(
        x.data@,
        head_dim,
        a,
        first,
        b,
        second,
        theta,
        k,
    ) by {
        let row = k / head_dim;
        let channel = k % head_dim;
        vstd::arithmetic::div_mod::lemma_fundamental_div_mod(k, head_dim);
        assert(0 <= row < num_heads * tokens) by (nonlinear_arith)
            requires
                0 <= k < num_heads * tokens * head_dim,
                k == head_dim * row + channel,
                0 <= channel < head_dim,
        ;
        assert(tokens > 0) by (nonlinear_arith)
            requires
                0 < num_heads * tokens,
                num_heads >= 0,
                tokens >= 0,
        ;
        let h = row / tokens;
        let token = row % tokens;
        vstd::arithmetic::div_mod::lemma_fundamental_div_mod(row, tokens);
        assert(0 <= h < num_heads) by (nonlinear_arith)
            requires
                0 <= row < num_heads * tokens,
                row == tokens * h + token,
                0 <= token < tokens,
        ;
        assert(h * tokens + token == row) by (nonlinear_arith)
            requires
                row == tokens * h + token,
        ;
        assert(row * head_dim + channel == k) by (nonlinear_arith)
            requires
                k == head_dim * row + channel,
        ;
        assert(is_rotated_token(
            x.data@,
            t.data@,
            h,
            token,
            head_dim,
            a,
            first,
            b,
            second,
            rotate,
        ));
        if channel < a {
            lemma_turned(
                x.data@,
                t.data@,
                row * head_dim,
                channel,
                a,
                first[token],
                theta,
                rotate,
            );
        } else if channel < a + b {
            lemma_turned(
                x.data@,
                t.data@,
                row * head_dim + a,
                channel - a,
                b,
                second[token],
                theta,
                rotate,
            );
        }
    }
    assert(t.data@ =~= rope_contents(
        contents_of(x),
        head_dim,
        a,
        first,
        b,
        second,
        theta,
    ).values);
}

pub(crate) fn rope<E: Number>(
    x: &CpuTensor<E>,
    positions: &Vec<i32>,
    head_dim: usize,
    num_heads: usize,
    theta: u32,
) -> (r: Result<CpuTensor<E>, Error>)
    requires
        x.well_formed(),
    ensures
        gives(
            r,
            contents_of(*x).rotated(positions@, head_dim as int, num_heads as int, theta),
        ),
{
    let rotate = |x: E, y: E, p: i32, o: usize, d: usize| -> (r: (E, E))
        ensures
            r == E::turned(x, y, p, o, d, theta),
    {
        E::turn(x, y, p, o, d, theta)
    };
    let copy = x.duplicate();
    let ghost copied = copy;
    let r = copy.rope(positions, head_dim, num_heads, 0, rotate);
    proof {
        if r is Ok {
            assert(x.shape@ =~= seq![num_heads, positions@.len() as usize, head_dim]);
            lemma_size_three(num_heads, positions@.len() as usize, head_dim);
            lemma_heads_turned(
                copied,
                r->Ok_0,
                num_heads as int,
                head_dim as int,
                head_dim as int,
                positions@,
                0,
                positions@,
                theta,
                rotate,
            );
        }
    }
    r
}

pub(crate) fn region_rope<E: Number>(
    x: &CpuTensor<E>,
    positions: &Vec<i32>,
    region_ids: &Vec<i32>,
    head_dim: usize,
    num_heads: usize,
    theta: u32,
) -> (r: Result<CpuTensor<E>, Error>)
    requires
        x.well_formed(),
    ensures
        gives(
            r,
            contents_of(*x).region_rotated(
                positions@,
                region_ids@,
                head_dim as int,
                num_heads as int,
                theta,
            ),
        ),
{
    let rotate = |x: E, y: E, p: i32, o: usize, d: usize| -> (r: (E, E))
        ensures
            r == E::turned(x, y, p, o, d, theta),
    {
        E::turn(x, y, p, o, d, theta)
    };
    let copy = x.duplicate();
    let ghost copied = copy;
    let r = copy.region_rope(positions, region_ids, head_dim, num_heads, 0, rotate);
    proof {
        if r is Ok {
            assert(x.shape@ =~= seq![num_heads, positions@.len() as usize, head_dim]);
            lemma_size_three(num_heads, positions@.len() as usize, head_dim);
            lemma_heads_turned(
                copied,
                r->Ok_0,
                num_heads as int,
                head_dim as int,
                head_dim as int / 2,
                positions@,
                head_dim as int / 2,
                region_ids@,
                theta,
                rotate,
            );
        }
    }
    r
}

proof fn lemma_weighted<E: Number, M: Fn(E, E, E) -> E>(
    x: CpuTensor<E>,
    kernel: CpuTensor<E>,
    mac: M,
    start: E,
    offset: int,
    channel: int,
    sums: Seq<E>,
    n: int,
)
    requires
        are_partial_sums(x, kernel, mac, start, offset, channel, sums),
        forall|s: E, a: E, b: E, r: E| #[trigger]
            call_ensures(mac, (s, a, b), r) ==> r == s.plus_product(a, b),
        0 <= n < sums.len(),
    ensures
        sums[n] == weighted(contents_of(x), contents_of(kernel), start, offset, channel, n),
    decreases n,
{
    if n > 0 {
        lemma_weighted(x, kernel, mac, start, offset, channel, sums, n - 1);
        assert(is_weight_taken(
            x,
            kernel,
            mac,
            offset,
            channel,
            n - 1,
            sums[n - 1],
            sums[n - 1 + 1],
        ));
    }
}

pub(crate) fn conv1d_dw<E: Number>(
    x: &CpuTensor<E>,
    kernel: &CpuTensor<E>,
    bias: Option<&CpuTensor<E>>,
    stride: usize,
    padding: usize,
) -> (r: Result<CpuTensor<E>, Error>)
    requires
        x.well_formed(),
        kernel.well_formed(),
        bias is Some ==> bias->0.well_formed(),
    ensures
        gives(
            r,
            contents_of(*x).convolved(
                contents_of(*kernel),
                contents_of_bias(bias),
                stride as int,
                padding as int,
            ),
        ),
{
    assert(bias_shape(bias) == optional_shape(contents_of_bias(bias)));
    let bias_len: Option<&Vec<usize>> = match bias {
        Some(b) => Some(&b.shape),
        None => None,
    };
    if let Err(e) = check_conv(&x.shape, &kernel.shape, bias_len, stride) {
        return Err(e);
    }
    let time: usize = count_positions(x.shape[0], kernel.shape[1], stride, padding);
    if time.checked_mul(x.shape[1]).is_none() {
        return Err(Error::message("conv1d_dw dimension overflow"));
    }
    let mac = |s: E, a: E, b: E| -> (r: E)
        ensures
            r == s.plus_product(a, b),
    {
        s.add_product(a, b)
    };
    let zero: E = E::nothing();
    let r = x.conv1d_dw(kernel, bias, stride, padding, zero, mac);
    proof {
        if r is Ok {
            let t = r->Ok_0;
            let model = conv_contents(
                contents_of(*x),
                contents_of(*kernel),
                contents_of_bias(bias),
                stride as int,
                padding as int,
            );
            assert(t.shape@ =~= model.shape);
            let channels = x.shape@[1] as int;
            assert forall|i: int| 0 <= i < t.data.len() implies #[trigger] t.data@[i]
                == model.values[i] by {
                assert(is_conv_value(
                    *x,
                    *kernel,
                    bias,
                    stride as int,
                    padding as int,
                    zero,
                    mac,
                    i,
                    t.data@[i],
                ));
                let start = bias_at(bias, zero, i % channels);
                let offset = i / channels * stride - padding;
                let sums = choose|sums: Seq<E>| #[trigger]
                    are_partial_sums(*x, *kernel, mac, start, offset, i % channels, sums)
                        && sums.len() == kernel.shape@[1] + 1 && sums.last() == t.data@[i];
                lemma_weighted(
                    *x,
                    *kernel,
                    mac,
                    start,
                    offset,
                    i % channels,
                    sums,
                    kernel.shape@[1] as int,
                );
            }
            assert(t.data@ =~= model.values);
        }
    }
    r
}

} // verus!
