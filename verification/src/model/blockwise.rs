//! Attention on dense tensors: working on a few queries at a time changes nothing.
use vstd::prelude::*;

use crate::model::blocks::{
    attend_result, block_end, block_result, blocks_result, masked_result, merge_heads_result,
    query_rows, reshape_for_heads_result, scaled_dot_product_attention_chunked_result,
    scaled_dot_product_attention_result,
};
use crate::tensor::contents::{
    arranged, covers, cut, join_complaint, joined_at, joined_contents, lengths, matmul_contents,
    paired, parts_complaint, softmax_contents, transposed_contents, Contents,
};
use crate::tensor::cpu::{lemma_fits_smaller, swapped};
use crate::tensor::cpu_kernels::{lead, matmul_error, matmul_shape};
use crate::tensor::cpu_layout::{lemma_flat_three, lemma_flat_two, part_offset, same_but};
use crate::tensor::cpu_ops::{inner_size, lane, lane_base, lemma_suffix_source};
use crate::tensor::dense_ops::lemma_covered;
use crate::tensor::numbers::Algebra;
use crate::tensor::ops::TensorModel;
use crate::tensor::shape::{
    aligned_dim, broadcast_result, broadcastable, coords, fits, in_bounds, law_coords_then_flat,
    law_flat_then_coords, lemma_flat_bounds, lemma_size_nonnegative, lemma_size_three,
    lemma_size_two, size,
};

verus! {

/// The element in row `y` and column `z` of matrix `x` of a stack.
pub open spec fn at3<E>(t: Contents<E>, x: int, y: int, z: int) -> E {
    t.values[(x * t.shape[1] + y) * t.shape[2] + z]
}

/// A stack of `a` matrices of `b` rows and `c` columns.
pub open spec fn is_stack<E>(t: Contents<E>, a: usize, b: usize, c: usize) -> bool {
    t.well_formed() && t.shape == seq![a, b, c]
}

/// A position in a stack, and what it is made of.
pub proof fn lemma_position(x: int, y: int, z: int, a: int, b: int, c: int)
    requires
        0 <= x < a,
        0 <= y < b,
        0 <= z < c,
    ensures
        0 <= (x * b + y) * c + z < a * b * c,
        ((x * b + y) * c + z) / c == x * b + y,
        ((x * b + y) * c + z) % c == z,
        (x * b + y) / b == x,
        (x * b + y) % b == y,
{
    let row = x * b + y;
    assert(0 <= row < a * b) by (nonlinear_arith)
        requires
            row == x * b + y,
            0 <= x,
            x + 1 <= a,
            0 <= y < b,
    ;
    assert(0 <= row * c + z < a * b * c) by (nonlinear_arith)
        requires
            0 <= row,
            row + 1 <= a * b,
            0 <= z < c,
    ;
    vstd::arithmetic::div_mod::lemma_fundamental_div_mod_converse(row * c + z, c, row, z);
    vstd::arithmetic::div_mod::lemma_fundamental_div_mod_converse(row, b, x, y);
}

/// Two stacks with the same elements are the same.
proof fn lemma_same_stack<E>(s: Contents<E>, t: Contents<E>, a: usize, b: usize, c: usize)
    requires
        is_stack(s, a, b, c),
        is_stack(t, a, b, c),
        forall|x: int, y: int, z: int|
            0 <= x < a && 0 <= y < b && 0 <= z < c ==> #[trigger] at3(s, x, y, z) == at3(
                t,
                x,
                y,
                z,
            ),
    ensures
        s == t,
{
    let shape = seq![a, b, c];
    assert forall|k: int| 0 <= k < s.values.len() implies s.values[k] == t.values[k] by {
        law_coords_then_flat(shape, k);
        let d = coords(shape, k);
        let (x, y, z) = (d[0], d[1], d[2]);
        assert(d =~= seq![x, y, z]);
        lemma_flat_three(a, b, c, x, y, z);
        assert(at3(s, x, y, z) == at3(t, x, y, z));
    }
    assert(s.values =~= t.values);
    assert(s =~= t);
}

/// An element of a tensor that is given by coordinates.
pub proof fn lemma_arranged_at<E>(shape: Seq<usize>, f: spec_fn(Seq<int>) -> E, c: Seq<int>)
    requires
        in_bounds(shape, c),
    ensures
        arranged(shape, f).at(c) == f(c),
{
    lemma_flat_bounds(shape, c);
    law_flat_then_coords(shape, c);
}

/// Row `y` of matrix `x` of a stack.
pub open spec fn row_of<E>(t: Contents<E>, x: int, y: int) -> Seq<E> {
    lane(t.values, (x * t.shape[1] + y) * t.shape[2], 1, t.shape[2] as int)
}

/// Row `y` of a mask, where there is one.
pub open spec fn mask_row<E>(mask: Option<Contents<E>>, y: int) -> Option<Seq<E>> {
    match mask {
        Some(t) => Some(lane(t.values, y * t.shape[1], 1, t.shape[1] as int)),
        None => None,
    }
}

/// The scores of a query of head `x` against all keys.
pub open spec fn score_row<E: Algebra>(
    k_t: Contents<E>,
    query: Seq<E>,
    mask: Option<Seq<E>>,
    head_dim: int,
    x: int,
) -> Seq<E> {
    let (d, m) = (k_t.shape[1] as int, k_t.shape[2] as int);
    Seq::new(
        m as nat,
        |j: int|
            {
                let score = E::dot(query, lane(k_t.values, x * (d * m) + j, m, d)).times_bits(
                    E::score_factor(head_dim),
                );
                match mask {
                    Some(row) => score.plus(row[j]),
                    None => score,
                }
            },
    )
}

/// Feature `z` of what a query of head `x` attends to.
pub open spec fn attended<E: Algebra>(
    k_t: Contents<E>,
    v: Contents<E>,
    query: Seq<E>,
    mask: Option<Seq<E>>,
    head_dim: int,
    x: int,
    z: int,
) -> E {
    let (m, e) = (v.shape[1] as int, v.shape[2] as int);
    let scores = score_row(k_t, query, mask, head_dim, x);
    E::dot(
        Seq::new(m as nat, |j: int| E::softmax_at(scores, j)),
        lane(v.values, x * (m * e) + z, e, m),
    )
}

/// The product of two stacks of matrices.
proof fn lemma_product<E: Algebra>(
    l: Contents<E>,
    r: Contents<E>,
    h: usize,
    a: usize,
    b: usize,
    c: usize,
)
    requires
        is_stack(l, h, a, b),
        is_stack(r, h, b, c),
        fits(seq![h, a, c]),
    ensures
        l.matrix_product(r) matches Ok(t) && is_stack(t, h, a, c) && forall|x: int, y: int, z: int|
            0 <= x < h && 0 <= y < a && 0 <= z < c ==> #[trigger] at3(t, x, y, z) == E::dot(
                row_of(l, x, y),
                lane(r.values, x * (b * c) + z, c as int, b as int),
            ),
{
    assert(lead(l.shape) =~= lead(r.shape));
    assert(matmul_error(l.shape, r.shape) is None);
    let t = matmul_contents(l, r);
    assert(matmul_shape(l.shape, r.shape) =~= seq![h, a, c]);
    lemma_size_three(h, a, c);
    lemma_size_nonnegative(t.shape);
    assert forall|x: int, y: int, z: int|
        0 <= x < h && 0 <= y < a && 0 <= z < c implies #[trigger] at3(t, x, y, z) == E::dot(
        row_of(l, x, y),
        lane(r.values, x * (b * c) + z, c as int, b as int),
    ) by {
        lemma_position(x, y, z, h as int, a as int, c as int);
    }
}

/// A mask of `n` rows and `m` columns, where there is one.
pub open spec fn fits_mask<E>(mask: Option<Contents<E>>, n: usize, m: usize) -> bool {
    match mask {
        Some(t) => t.well_formed() && t.shape == seq![n, m],
        None => true,
    }
}

/// A mask is added to the scores of every head.
#[verifier::rlimit(30)]
proof fn lemma_masked<E: Algebra>(t: Contents<E>, mask: Contents<E>, h: usize, n: usize, m: usize)
    requires
        h >= 1,
        is_stack(t, h, n, m),
        mask.well_formed(),
        mask.shape == seq![n, m],
        fits(seq![h, n, m]),
    ensures
        t.sum(mask) matches Ok(r) && is_stack(r, h, n, m) && forall|x: int, y: int, z: int|
            0 <= x < h && 0 <= y < n && 0 <= z < m ==> #[trigger] at3(r, x, y, z) == at3(
                t,
                x,
                y,
                z,
            ).plus(mask_row(Some(mask), y)->0[z]),
{
    let out = seq![h, n, m];
    assert forall|axis: int| 0 <= axis < 3 implies {
        let l = #[trigger] aligned_dim(t.shape, 3, axis);
        let r = aligned_dim(mask.shape, 3, axis);
        l == r || r == 1
    } by {}
    assert(broadcastable(t.shape, mask.shape));
    assert(broadcast_result(t.shape, mask.shape) =~= out);
    lemma_size_three(h, n, m);
    lemma_size_two(n, m);
    lemma_size_nonnegative(out);
    lemma_size_nonnegative(mask.shape);
    let nm = n * m;
    assert(h * n * m > 0 ==> nm > 0) by (nonlinear_arith)
        requires
            nm == n * m,
            nm >= 0,
            h >= 1,
    ;
    let r = paired(t, mask, |a: E, b: E| a.plus(b));
    assert forall|x: int, y: int, z: int|
        0 <= x < h && 0 <= y < n && 0 <= z < m implies #[trigger] at3(r, x, y, z) == at3(
        t,
        x,
        y,
        z,
    ).plus(mask_row(Some(mask), y)->0[z]) by {
        lemma_position(x, y, z, h as int, n as int, m as int);
        let k = (x * n + y) * m + z;
        assert(out.skip(0) =~= out);
        assert(out.skip(1) =~= seq![n, m]);
        lemma_suffix_source(out, out, k);
        lemma_suffix_source(out, seq![n, m], k);
        vstd::arithmetic::div_mod::lemma_small_mod(k as nat, size(out) as nat);
        assert(k == x * nm + (y * m + z) && 0 <= y * m + z < nm) by (nonlinear_arith)
            requires
                k == (x * n + y) * m + z,
                nm == n * m,
                0 <= y,
                y + 1 <= n,
                0 <= z < m,
        ;
        vstd::arithmetic::div_mod::lemma_fundamental_div_mod_converse(k, nm, x, y * m + z);
    }
}

/// A softmax along the last axis takes every row for itself.
proof fn lemma_softmax<E: Algebra>(t: Contents<E>, h: usize, n: usize, m: usize)
    requires
        is_stack(t, h, n, m),
    ensures
        t.softmaxed(-1) matches Ok(r) && is_stack(r, h, n, m) && forall|x: int, y: int, z: int|
            0 <= x < h && 0 <= y < n && 0 <= z < m ==> #[trigger] at3(r, x, y, z) == E::softmax_at(
                row_of(t, x, y),
                z,
            ),
{
    let r = softmax_contents(t, -1);
    lemma_size_nonnegative(t.shape);
    assert(t.shape.skip(3) =~= Seq::empty());
    assert(inner_size(t.shape, 2) == 1);
    assert forall|x: int, y: int, z: int|
        0 <= x < h && 0 <= y < n && 0 <= z < m implies #[trigger] at3(r, x, y, z) == E::softmax_at(
        row_of(t, x, y),
        z,
    ) by {
        lemma_size_three(h, n, m);
        lemma_position(x, y, z, h as int, n as int, m as int);
        let k = (x * n + y) * m + z;
        assert(m * 1 == m);
        assert(k / 1 == k && k % 1 == 0);
        assert(lane_base(k / (m * 1), 0, m as int, 1) == (x * n + y) * m);
    }
}

/// Every element of what queries attend to is determined by the query and its mask.
#[verifier::rlimit(30)]
proof fn lemma_attended<E: Algebra>(
    q: Contents<E>,
    k_t: Contents<E>,
    v: Contents<E>,
    mask: Option<Contents<E>>,
    head_dim: int,
    h: usize,
    n: usize,
    m: usize,
    d: usize,
    e: usize,
)
    requires
        h >= 1 || mask is None,
        is_stack(q, h, n, d),
        is_stack(k_t, h, d, m),
        is_stack(v, h, m, e),
        fits_mask(mask, n, m),
        fits(seq![h, n, m]),
        fits(seq![h, n, e]),
    ensures
        attend_result(q, k_t, v, mask, head_dim) matches Ok(t) && is_stack(t, h, n, e)
            && forall|x: int, y: int, z: int|
            0 <= x < h && 0 <= y < n && 0 <= z < e ==> #[trigger] at3(t, x, y, z) == attended(
                k_t,
                v,
                row_of(q, x, y),
                mask_row(mask, y),
                head_dim,
                x,
                z,
            ),
{
    lemma_product(q, k_t, h, n, d, m);
    let raw = q.matrix_product(k_t)->Ok_0;
    let factor = E::score_factor(head_dim);
    let scores = raw.scaled(factor)->Ok_0;
    assert(is_stack(scores, h, n, m));
    assert forall|x: int, y: int, z: int| 0 <= x < h && 0 <= y < n && 0 <= z < m implies at3(
        scores,
        x,
        y,
        z,
    ) == (#[trigger] at3(raw, x, y, z)).times_bits(factor) by {
        lemma_size_three(h, n, m);
        lemma_position(x, y, z, h as int, n as int, m as int);
    }
    if mask is Some {
        lemma_masked(scores, mask->0, h, n, m);
    }
    let masked = masked_result(scores, mask)->Ok_0;
    assert(is_stack(masked, h, n, m));
    lemma_softmax(masked, h, n, m);
    let probs = masked.softmaxed(-1)->Ok_0;
    lemma_product(probs, v, h, n, m, e);
    let t = probs.matrix_product(v)->Ok_0;
    assert forall|x: int, y: int, z: int|
        0 <= x < h && 0 <= y < n && 0 <= z < e implies #[trigger] at3(t, x, y, z) == attended(
        k_t,
        v,
        row_of(q, x, y),
        mask_row(mask, y),
        head_dim,
        x,
        z,
    ) by {
        let expected = score_row(k_t, row_of(q, x, y), mask_row(mask, y), head_dim, x);
        let found = row_of(masked, x, y);
        assert forall|j: int| 0 <= j < m implies found[j] == expected[j] by {
            assert(found[j] == at3(masked, x, y, j));
            assert(at3(raw, x, y, j) == E::dot(
                row_of(q, x, y),
                lane(k_t.values, x * (d * m) + j, m as int, d as int),
            ));
        }
        assert(found =~= expected);
        let weights = Seq::new(m as nat, |j: int| E::softmax_at(expected, j));
        let row = row_of(probs, x, y);
        assert forall|j: int| 0 <= j < m implies row[j] == weights[j] by {
            assert(row[j] == at3(probs, x, y, j));
        }
        assert(row =~= weights);
    }
}

/// The queries from `start` to `end`, and their rows.
proof fn lemma_cut_queries<E>(q: Contents<E>, h: usize, n: usize, d: usize, start: int, end: int)
    requires
        is_stack(q, h, n, d),
        0 <= start <= end <= n,
    ensures
        is_stack(cut(q, 1, start, end), h, (end - start) as usize, d),
        forall|x: int, y: int|
            0 <= x < h && 0 <= y < end - start ==> #[trigger] row_of(
                cut(q, 1, start, end),
                x,
                y,
            ) == row_of(q, x, y + start),
{
    let t = cut(q, 1, start, end);
    let b = (end - start) as usize;
    assert(t.shape =~= seq![h, b, d]);
    lemma_size_nonnegative(t.shape);
    assert forall|x: int, y: int| 0 <= x < h && 0 <= y < end - start implies #[trigger] row_of(
        t,
        x,
        y,
    ) == row_of(q, x, y + start) by {
        assert forall|z: int| 0 <= z < d implies row_of(t, x, y)[z] == row_of(q, x, y + start)[z] by {
            let c = seq![x, y, z];
            lemma_flat_three(h, b, d, x, y, z);
            lemma_flat_three(h, n, d, x, y + start, z);
            assert(c.update(1, c[1] + start) =~= seq![x, y + start, z]);
            lemma_arranged_at(
                t.shape,
                |c: Seq<int>| q.at(c.update(1, c[1] + start)),
                c,
            );
            assert(t.at(c) == q.at(seq![x, y + start, z]));
        }
        assert(row_of(t, x, y) =~= row_of(q, x, y + start));
    }
}

/// The rows of a mask from `start` to `end`.
proof fn lemma_cut_mask<E>(mask: Contents<E>, n: usize, m: usize, start: int, end: int)
    requires
        mask.well_formed(),
        mask.shape == seq![n, m],
        0 <= start <= end <= n,
    ensures
        cut(mask, 0, start, end).well_formed(),
        cut(mask, 0, start, end).shape == seq![(end - start) as usize, m],
        forall|y: int|
            0 <= y < end - start ==> #[trigger] mask_row(Some(cut(mask, 0, start, end)), y)
                == mask_row(Some(mask), y + start),
{
    let t = cut(mask, 0, start, end);
    let b = (end - start) as usize;
    assert(t.shape =~= seq![b, m]);
    lemma_size_nonnegative(t.shape);
    assert forall|y: int| 0 <= y < end - start implies #[trigger] mask_row(Some(t), y) == mask_row(
        Some(mask),
        y + start,
    ) by {
        let found = mask_row(Some(t), y)->0;
        let expected = mask_row(Some(mask), y + start)->0;
        assert forall|z: int| 0 <= z < m implies found[z] == expected[z] by {
            let c = seq![y, z];
            lemma_flat_two(b, m, y, z);
            lemma_flat_two(n, m, y + start, z);
            assert(c.update(0, c[0] + start) =~= seq![y + start, z]);
            lemma_arranged_at(
                t.shape,
                |c: Seq<int>| mask.at(c.update(0, c[0] + start)),
                c,
            );
            assert(t.at(c) == mask.at(seq![y + start, z]));
        }
        assert(found =~= expected);
    }
}

/// Feature `z` of what query `y` of head `x` attends to.
pub open spec fn answer<E: Algebra>(
    q: Contents<E>,
    k_t: Contents<E>,
    v: Contents<E>,
    mask: Option<Contents<E>>,
    head_dim: int,
    x: int,
    y: int,
    z: int,
) -> E {
    attended(k_t, v, row_of(q, x, y), mask_row(mask, y), head_dim, x, z)
}

/// `t` holds the answers to `rows` queries from `start` on.
pub open spec fn answers<E: Algebra>(
    t: Contents<E>,
    q: Contents<E>,
    k_t: Contents<E>,
    v: Contents<E>,
    mask: Option<Contents<E>>,
    head_dim: int,
    start: int,
) -> bool {
    forall|x: int, y: int, z: int|
        0 <= x < t.shape[0] && 0 <= y < t.shape[1] && 0 <= z < t.shape[2] ==> #[trigger] at3(
            t,
            x,
            y,
            z,
        ) == answer(q, k_t, v, mask, head_dim, x, y + start, z)
}

/// The part of a mask from `start` to `end`, where there is one.
pub open spec fn cut_mask<E>(mask: Option<Contents<E>>, start: int, end: int) -> Option<
    Contents<E>,
> {
    match mask {
        Some(t) => Some(cut(t, 0, start, end)),
        None => None,
    }
}

/// A block is attention of the queries that are cut out.
proof fn lemma_block_is_attention<E: Algebra>(
    q: Contents<E>,
    k_t: Contents<E>,
    v: Contents<E>,
    mask: Option<Contents<E>>,
    head_dim: int,
    start: int,
    end: int,
)
    requires
        q.shape.len() == 3,
        mask is Some ==> mask->0.shape.len() == 2 && end <= mask->0.shape[0],
        0 <= start <= end <= q.shape[1],
    ensures
        block_result(q, k_t, v, mask, head_dim, start, end) == attend_result(
            cut(q, 1, start, end),
            k_t,
            v,
            cut_mask(mask, start, end),
            head_dim,
        ),
{
    assert(q.sliced(1, start, end) == Ok::<Contents<E>, Seq<char>>(cut(q, 1, start, end)));
    if mask is Some {
        let t = mask->0;
        assert(t.sliced(0, start, end) == Ok::<Contents<E>, Seq<char>>(cut(t, 0, start, end)));
    }
}

#[verifier::rlimit(30)]
proof fn lemma_block<E: Algebra>(
    q: Contents<E>,
    k_t: Contents<E>,
    v: Contents<E>,
    mask: Option<Contents<E>>,
    head_dim: int,
    h: usize,
    n: usize,
    m: usize,
    d: usize,
    e: usize,
    start: int,
    end: int,
)
    requires
        h >= 1 || mask is None,
        is_stack(q, h, n, d),
        is_stack(k_t, h, d, m),
        is_stack(v, h, m, e),
        fits_mask(mask, n, m),
        fits(seq![h, n, m]),
        fits(seq![h, n, e]),
        0 <= start <= end <= n,
    ensures
        block_result(q, k_t, v, mask, head_dim, start, end) matches Ok(t) && is_stack(
            t,
            h,
            (end - start) as usize,
            e,
        ) && answers(t, q, k_t, v, mask, head_dim, start),
{
    let b = (end - start) as usize;
    let part = cut(q, 1, start, end);
    lemma_cut_queries(q, h, n, d, start, end);
    lemma_fits_smaller(seq![h, n, m], seq![h, b, m]);
    lemma_fits_smaller(seq![h, n, e], seq![h, b, e]);
    let mask_part = cut_mask(mask, start, end);
    if mask is Some {
        lemma_cut_mask(mask->0, n, m, start, end);
    }
    lemma_attended(part, k_t, v, mask_part, head_dim, h, b, m, d, e);
    lemma_block_is_attention(q, k_t, v, mask, head_dim, start, end);
    let t = attend_result(part, k_t, v, mask_part, head_dim)->Ok_0;
    assert forall|x: int, y: int, z: int|
        0 <= x < t.shape[0] && 0 <= y < t.shape[1] && 0 <= z < t.shape[2] implies #[trigger] at3(
        t,
        x,
        y,
        z,
    ) == answer(q, k_t, v, mask, head_dim, x, y + start, z) by {
        assert(row_of(part, x, y) == row_of(q, x, y + start));
        if mask is Some {
            assert(mask_row(mask_part, y) == mask_row(mask, y + start));
        }
    }
}

/// The outputs are the answers to the queries from `start` on, one after the other.
pub open spec fn are_answers<E: Algebra>(
    outputs: Seq<Contents<E>>,
    q: Contents<E>,
    k_t: Contents<E>,
    v: Contents<E>,
    mask: Option<Contents<E>>,
    head_dim: int,
    h: usize,
    e: usize,
    start: int,
) -> bool {
    forall|p: int|
        0 <= p < outputs.len() ==> {
            &&& is_stack(#[trigger] outputs[p], h, outputs[p].shape[1], e)
            &&& answers(
                outputs[p],
                q,
                k_t,
                v,
                mask,
                head_dim,
                start + part_offset(lengths(outputs, 1), p),
            )
        }
}

proof fn lemma_offset_prepended(first: int, rest: Seq<int>, p: int)
    requires
        0 <= p <= rest.len(),
    ensures
        part_offset(seq![first] + rest, p + 1) == first + part_offset(rest, p),
    decreases p,
{
    let all = seq![first] + rest;
    if p > 0 {
        lemma_offset_prepended(first, rest, p - 1);
        assert(all[p] == rest[p - 1]);
    } else {
        assert(part_offset(all, 0) == 0);
        assert(all[0] == first);
    }
}

/// A block in front of the blocks that follow it.
proof fn lemma_answers_prepended<E: Algebra>(
    first: Contents<E>,
    rest: Seq<Contents<E>>,
    q: Contents<E>,
    k_t: Contents<E>,
    v: Contents<E>,
    mask: Option<Contents<E>>,
    head_dim: int,
    h: usize,
    e: usize,
    start: int,
    b: usize,
)
    requires
        is_stack(first, h, b, e),
        answers(first, q, k_t, v, mask, head_dim, start),
        are_answers(rest, q, k_t, v, mask, head_dim, h, e, start + b),
    ensures
        are_answers(seq![first] + rest, q, k_t, v, mask, head_dim, h, e, start),
        part_offset(lengths(seq![first] + rest, 1), (seq![first] + rest).len() as int) == b
            + part_offset(lengths(rest, 1), rest.len() as int),
{
    let outputs = seq![first] + rest;
    let dims = lengths(rest, 1);
    assert(lengths(outputs, 1) =~= seq![b as int] + dims);
    assert forall|p: int| 0 <= p < outputs.len() implies {
        &&& is_stack(#[trigger] outputs[p], h, outputs[p].shape[1], e)
        &&& answers(
            outputs[p],
            q,
            k_t,
            v,
            mask,
            head_dim,
            start + part_offset(lengths(outputs, 1), p),
        )
    } by {
        if p == 0 {
            assert(part_offset(lengths(outputs, 1), 0) == 0);
        } else {
            assert(outputs[p] == rest[p - 1]);
            lemma_offset_prepended(b as int, dims, p - 1);
        }
    }
    lemma_offset_prepended(b as int, dims, rest.len() as int);
}

#[verifier::rlimit(30)]
proof fn lemma_blocks<E: Algebra>(
    q: Contents<E>,
    k_t: Contents<E>,
    v: Contents<E>,
    mask: Option<Contents<E>>,
    head_dim: int,
    h: usize,
    n: usize,
    m: usize,
    d: usize,
    e: usize,
    rows: int,
    start: int,
)
    requires
        h >= 1 || mask is None,
        is_stack(q, h, n, d),
        is_stack(k_t, h, d, m),
        is_stack(v, h, m, e),
        fits_mask(mask, n, m),
        fits(seq![h, n, m]),
        fits(seq![h, n, e]),
        0 < rows,
        0 <= start <= n,
    ensures
        blocks_result(q, k_t, v, mask, head_dim, rows, n as int, start) matches Ok(outputs)
            && are_answers(outputs, q, k_t, v, mask, head_dim, h, e, start) && (start < n
            ==> outputs.len() > 0) && part_offset(lengths(outputs, 1), outputs.len() as int) == n
            - start,
    decreases n - start,
{
    if start < n {
        let end = block_end(start, rows, n as int);
        lemma_block(q, k_t, v, mask, head_dim, h, n, m, d, e, start, end);
        lemma_blocks(q, k_t, v, mask, head_dim, h, n, m, d, e, rows, end);
        let first = block_result(q, k_t, v, mask, head_dim, start, end)->Ok_0;
        let rest = blocks_result(q, k_t, v, mask, head_dim, rows, n as int, end)->Ok_0;
        let outputs = seq![first] + rest;
        assert(blocks_result(q, k_t, v, mask, head_dim, rows, n as int, start) == Ok::<
            Seq<Contents<E>>,
            Seq<char>,
        >(outputs));
        lemma_answers_prepended(
            first,
            rest,
            q,
            k_t,
            v,
            mask,
            head_dim,
            h,
            e,
            start,
            (end - start) as usize,
        );
    } else {
        assert(lengths(Seq::<Contents<E>>::empty(), 1) =~= Seq::empty());
    }
}

proof fn lemma_no_complaint<E: Algebra>(outputs: Seq<Contents<E>>, h: usize, e: usize, p: int)
    requires
        0 <= p <= outputs.len(),
        forall|i: int|
            0 <= i < outputs.len() ==> (#[trigger] outputs[i]).shape == seq![
                h,
                outputs[i].shape[1],
                e,
            ],
    ensures
        parts_complaint(outputs, 1, p) is None,
    decreases p,
{
    if p > 0 {
        lemma_no_complaint(outputs, h, e, p - 1);
        let (a, b) = (outputs[0].shape, outputs[p - 1].shape);
        assert(a == seq![h, a[1], e] && b == seq![h, b[1], e]);
        assert(same_but(a, b, 1));
    }
}

/// The answers to parts of the queries, joined, are the answers to all of them.
proof fn lemma_joined_answers<E: Algebra>(
    outputs: Seq<Contents<E>>,
    q: Contents<E>,
    k_t: Contents<E>,
    v: Contents<E>,
    mask: Option<Contents<E>>,
    head_dim: int,
    h: usize,
    n: usize,
    e: usize,
)
    requires
        outputs.len() > 0,
        are_answers(outputs, q, k_t, v, mask, head_dim, h, e, 0),
        part_offset(lengths(outputs, 1), outputs.len() as int) == n,
        fits(seq![h, n, e]),
    ensures
        Contents::joined(outputs, 1) matches Ok(t) && is_stack(t, h, n, e) && answers(
            t,
            q,
            k_t,
            v,
            mask,
            head_dim,
            0,
        ),
{
    let dims = lengths(outputs, 1);
    assert forall|i: int| 0 <= i < outputs.len() implies (#[trigger] outputs[i]).shape == seq![
        h,
        outputs[i].shape[1],
        e,
    ] by {
        assert(is_stack(outputs[i], h, outputs[i].shape[1], e));
    }
    lemma_no_complaint(outputs, h, e, outputs.len() as int);
    assert(outputs[0].shape.len() == 3);
    assert(join_complaint(outputs, 1) is None);
    let t = joined_contents(outputs, 1);
    assert(t.shape =~= seq![h, n, e]);
    lemma_size_nonnegative(t.shape);
    assert forall|x: int, y: int, z: int|
        0 <= x < t.shape[0] && 0 <= y < t.shape[1] && 0 <= z < t.shape[2] implies #[trigger] at3(
        t,
        x,
        y,
        z,
    ) == answer(q, k_t, v, mask, head_dim, x, y + 0, z) by {
        let c = seq![x, y, z];
        lemma_flat_three(h, n, e, x, y, z);
        lemma_arranged_at(t.shape, |c: Seq<int>| joined_at(outputs, 1, c), c);
        assert(at3(t, x, y, z) == t.at(c));
        let some = lemma_covered(dims, y, outputs.len() as int);
        let p = choose|p: int| covers(dims, p, c[1]);
        assert(covers(dims, p, y));
        let from = part_offset(dims, p);
        let part = outputs[p];
        assert(is_stack(part, h, part.shape[1], e));
        assert(dims[p] == part.shape[1]);
        assert(c.update(1, y - from) =~= seq![x, y - from, z]);
        lemma_flat_three(h, part.shape[1], e, x, y - from, z);
        assert(t.at(c) == at3(part, x, y - from, z));
        assert(answers(part, q, k_t, v, mask, head_dim, 0 + from));
    }
}

/// However many queries are worked on at a time, attention gives the same: a value for
/// every query, determined by the query, its row of the mask, the keys and the values.
#[verifier::rlimit(30)]
pub proof fn law_blocks_change_nothing<E: Algebra>(
    q: Contents<E>,
    k: Contents<E>,
    v: Contents<E>,
    mask: Option<Contents<E>>,
    head_dim: int,
    h: usize,
    n: usize,
    m: usize,
    d: usize,
    e: usize,
    rows: int,
)
    requires
        h >= 1 || mask is None,
        is_stack(q, h, n, d),
        is_stack(k, h, m, d),
        is_stack(v, h, m, e),
        fits_mask(mask, n, m),
        fits(seq![h, n, m]),
        fits(seq![h, n, e]),
        0 < rows,
    ensures
        scaled_dot_product_attention_chunked_result(q, k, v, mask, head_dim, rows) matches Ok(t)
            && is_stack(t, h, n, e) && answers(
            t,
            q,
            transposed_contents(k, 1, 2),
            v,
            mask,
            head_dim,
            0,
        ),
        scaled_dot_product_attention_chunked_result(q, k, v, mask, head_dim, rows)
            == scaled_dot_product_attention_chunked_result(q, k, v, mask, head_dim, n as int),
{
    let k_t = transposed_contents(k, 1, 2);
    assert(k_t.shape =~= seq![h, d, m]);
    lemma_size_nonnegative(k_t.shape);
    assert(k.transposed(1, 2) == Ok::<Contents<E>, Seq<char>>(k_t));
    lemma_attended(q, k_t, v, mask, head_dim, h, n, m, d, e);
    let full = attend_result(q, k_t, v, mask, head_dim)->Ok_0;
    assert(answers(full, q, k_t, v, mask, head_dim, 0));
    if rows < n {
        lemma_blocks(q, k_t, v, mask, head_dim, h, n, m, d, e, rows, 0);
        let outputs = blocks_result(q, k_t, v, mask, head_dim, rows, n as int, 0)->Ok_0;
        lemma_joined_answers(outputs, q, k_t, v, mask, head_dim, h, n, e);
        let t = Contents::joined(outputs, 1)->Ok_0;
        assert forall|x: int, y: int, z: int|
            0 <= x < h && 0 <= y < n && 0 <= z < e implies #[trigger] at3(t, x, y, z) == at3(
            full,
            x,
            y,
            z,
        ) by {
            assert(at3(t, x, y, z) == answer(q, k_t, v, mask, head_dim, x, y + 0, z));
            assert(at3(full, x, y, z) == answer(q, k_t, v, mask, head_dim, x, y + 0, z));
        }
        lemma_same_stack(t, full, h, n, e);
    }
}

/// However many scores may be held at once, attention gives the same.
pub proof fn law_score_limit_changes_nothing<E: Algebra>(
    q: Contents<E>,
    k: Contents<E>,
    v: Contents<E>,
    mask: Option<Contents<E>>,
    head_dim: int,
    h: usize,
    n: usize,
    m: usize,
    d: usize,
    most: int,
    other: int,
)
    requires
        h >= 1 || mask is None,
        is_stack(q, h, n, d),
        is_stack(k, h, m, d),
        is_stack(v, h, m, d),
        fits_mask(mask, n, m),
        fits(seq![h, n, m]),
        fits(seq![h, n, d]),
        0 <= most,
        0 <= other,
    ensures
        scaled_dot_product_attention_result(q, k, v, mask, head_dim, most) is Ok,
        scaled_dot_product_attention_result(q, k, v, mask, head_dim, most)
            == scaled_dot_product_attention_result(q, k, v, mask, head_dim, other),
{
    let a = query_rows(h as int, n as int, m as int, most);
    let b = query_rows(h as int, n as int, m as int, other);
    if n > 0 {
        law_blocks_change_nothing(q, k, v, mask, head_dim, h, n, m, d, d, a);
        law_blocks_change_nothing(q, k, v, mask, head_dim, h, n, m, d, d, b);
    } else {
        law_blocks_change_nothing(q, k, v, mask, head_dim, h, n, m, d, d, 1);
    }
}

/// A sequence whose features are split among heads, and whose heads are put side by side
/// again, is the same sequence.
pub proof fn law_merging_heads_restores<E: Algebra>(
    t: Contents<E>,
    len: usize,
    num_heads: usize,
    head_dim: usize,
)
    requires
        t.well_formed(),
        num_heads * head_dim <= usize::MAX,
        t.shape == seq![len, (num_heads * head_dim) as usize],
        fits(t.shape),
        fits(seq![len, num_heads, head_dim]),
    ensures
        reshape_for_heads_result(t, num_heads, head_dim) matches Ok(heads) && heads.shape == seq![
            num_heads,
            len,
            head_dim,
        ] && merge_heads_result(heads) == Ok::<Contents<E>, Seq<char>>(t),
{
    let wide = (num_heads * head_dim) as usize;
    let split = Contents { shape: seq![len, num_heads, head_dim], values: t.values };
    lemma_size_two(len, wide);
    lemma_size_three(len, num_heads, head_dim);
    assert(len * num_heads * head_dim == len * (num_heads * head_dim)) by (nonlinear_arith);
    assert(t.reshaped(seq![len, num_heads, head_dim]) == Ok::<Contents<E>, Seq<char>>(split));
    let heads = transposed_contents(split, 0, 1);
    assert(heads.shape =~= seq![num_heads, len, head_dim]);
    assert(split.transposed(0, 1) == Ok::<Contents<E>, Seq<char>>(heads));
    let rows = transposed_contents(heads, 0, 1);
    assert(rows.shape =~= split.shape);
    lemma_size_nonnegative(split.shape);
    lemma_size_nonnegative(heads.shape);
    assert forall|x: int, y: int, z: int|
        0 <= x < len && 0 <= y < num_heads && 0 <= z < head_dim implies #[trigger] at3(
        rows,
        x,
        y,
        z,
    ) == at3(split, x, y, z) by {
        lemma_flat_three(len, num_heads, head_dim, x, y, z);
        lemma_flat_three(num_heads, len, head_dim, y, x, z);
        let c = seq![x, y, z];
        assert(swapped(c, 0, 1) =~= seq![y, x, z]);
        assert(swapped(seq![y, x, z], 0, 1) =~= c);
        lemma_arranged_at(rows.shape, |c: Seq<int>| heads.at(swapped(c, 0, 1)), c);
        lemma_arranged_at(heads.shape, |c: Seq<int>| split.at(swapped(c, 0, 1)), seq![y, x, z]);
        assert(rows.at(c) == split.at(c));
    }
    lemma_same_stack(rows, split, len, num_heads, head_dim);
    assert(heads.transposed(0, 1) == Ok::<Contents<E>, Seq<char>>(rows));
    assert(rows.reshaped(seq![len, wide]) == Ok::<Contents<E>, Seq<char>>(t));
}

} // verus!
