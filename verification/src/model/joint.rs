//! Attention token by token: what every row of the result is, in terms of the rows that
//! go in.
use vstd::prelude::*;

use crate::model::blocks::{
    joint_attention_result, joint_heads_result, joined_heads_result, k_norm_of,
    merge_heads_result, optional_norm_result, q_norm_of, query_rows, reshape_for_heads_result,
    scaled_dot_product_attention_result, stream_heads_result, JointAttentionWeights,
    JointStreamWeights, LinearWeights, StreamHeads, RMS_NORM_EPS,
};
use crate::model::blockwise::{
    answer, answers, at3, attended, fits_mask, is_stack, law_blocks_change_nothing,
    lemma_arranged_at, lemma_position, mask_row, row_of, score_row,
};
use crate::tensor::contents::{
    covers, cut, join_complaint, joined_at, joined_contents, lengths, linear_contents,
    norm_contents, parts_complaint, rope_contents, share, transposed_contents, Contents,
};
use crate::tensor::cpu::swapped;
use crate::tensor::cpu_layout::{lemma_flat_three, lemma_flat_two, part_offset, same_but};
use crate::tensor::cpu_ops::lane;
use crate::tensor::numbers::Algebra;
use crate::tensor::ops::TensorModel;
use crate::tensor::shape::{fits, lemma_size_nonnegative, lemma_size_three, lemma_size_two};

verus! {

// ---------------------------------------------------------------------------
// Rows of matrices
// ---------------------------------------------------------------------------
/// A matrix of `a` rows and `b` columns.
pub open spec fn is_matrix<E>(t: Contents<E>, a: usize, b: usize) -> bool {
    t.well_formed() && t.shape == seq![a, b]
}

/// The element in row `y` and column `z` of a matrix.
pub open spec fn at2<E>(t: Contents<E>, y: int, z: int) -> E {
    t.values[y * t.shape[1] + z]
}

/// Row `y` of a matrix.
pub open spec fn matrix_row<E>(t: Contents<E>, y: int) -> Seq<E> {
    Seq::new(t.shape[1] as nat, |z: int| t.values[y * t.shape[1] + z])
}

/// A row after it is normed.
pub open spec fn normed_row<E: Algebra>(row: Seq<E>, weight: Seq<E>) -> Seq<E> {
    Seq::new(row.len(), |z: int| E::norm_at(row, weight, 0x3586_37bdu32, z))
}

/// What a linear layer makes of a row: the product with each row of the weights, and the
/// bias.
pub open spec fn layer_row<E: Algebra>(row: Seq<E>, layer: LinearWeights<Contents<E>>) -> Seq<E> {
    Seq::new(
        layer.weight.shape[0] as nat,
        |c: int| E::dot(row, matrix_row(layer.weight, c)).plus(layer.bias.values[c]),
    )
}

/// A row after it is normed, where there are weights for it.
pub open spec fn maybe_normed_row<E: Algebra>(row: Seq<E>, weight: Option<Contents<E>>) -> Seq<E> {
    match weight {
        Some(w) => normed_row(row, w.values),
        None => row,
    }
}

pub proof fn lemma_place(y: int, z: int, a: int, b: int)
    requires
        0 <= y < a,
        0 <= z < b,
    ensures
        0 <= y * b + z < a * b,
        (y * b + z) / b == y,
        (y * b + z) % b == z,
{
    vstd::arithmetic::div_mod::lemma_fundamental_div_mod_converse(y * b + z, b, y, z);
    assert(0 <= y * b + z < a * b) by (nonlinear_arith)
        requires
            0 <= y,
            y + 1 <= a,
            0 <= z < b,
    ;
}

/// Norming takes every row of a matrix for itself.
pub proof fn lemma_normed_matrix<E: Algebra>(t: Contents<E>, w: Contents<E>, a: usize, b: usize)
    requires
        is_matrix(t, a, b),
        w.shape == seq![b],
    ensures
        t.rms_normed(w, RMS_NORM_EPS) matches Ok(r) && is_matrix(r, a, b) && forall|y: int|
            0 <= y < a ==> #[trigger] matrix_row(r, y) == normed_row(matrix_row(t, y), w.values),
{
    let r = norm_contents(t, w, RMS_NORM_EPS);
    assert(seq![t.shape.last()] =~= seq![b]);
    lemma_size_nonnegative(t.shape);
    lemma_size_two(a, b);
    assert forall|y: int| 0 <= y < a implies #[trigger] matrix_row(r, y) == normed_row(
        matrix_row(t, y),
        w.values,
    ) by {
        let row = matrix_row(t, y);
        assert forall|z: int| 0 <= z < b implies matrix_row(r, y)[z] == normed_row(
            row,
            w.values,
        )[z] by {
            lemma_place(y, z, a as int, b as int);
            assert(lane(t.values, y * b, 1, b as int) =~= row);
        }
        assert(matrix_row(r, y) =~= normed_row(row, w.values));
    }
}

/// A linear layer takes every row of a matrix for itself.
pub proof fn lemma_layer_of_matrix<E: Algebra>(
    t: Contents<E>,
    layer: LinearWeights<Contents<E>>,
    a: usize,
    b: usize,
    c: usize,
)
    requires
        is_matrix(t, a, b),
        is_matrix(layer.weight, c, b),
        layer.bias.shape == seq![c],
        fits(seq![a, c]),
    ensures
        t.linear_image(layer.weight, Some(layer.bias)) matches Ok(r) && is_matrix(r, a, c)
            && forall|y: int|
            0 <= y < a ==> #[trigger] matrix_row(r, y) == layer_row(matrix_row(t, y), layer),
{
    let r = linear_contents(t, layer.weight, Some(layer.bias));
    assert(t.shape.drop_last().push(c) =~= seq![a, c]);
    lemma_size_nonnegative(r.shape);
    lemma_size_two(a, c);
    assert forall|y: int| 0 <= y < a implies #[trigger] matrix_row(r, y) == layer_row(
        matrix_row(t, y),
        layer,
    ) by {
        let row = matrix_row(t, y);
        assert forall|z: int| 0 <= z < c implies matrix_row(r, y)[z] == layer_row(row, layer)[z] by {
            lemma_place(y, z, a as int, c as int);
            assert(lane(t.values, y * b, 1, b as int) =~= row);
            assert(lane(layer.weight.values, z * b, 1, b as int) =~= matrix_row(layer.weight, z));
        }
        assert(matrix_row(r, y) =~= layer_row(row, layer));
    }
}

/// Part `i` of the columns of a matrix.
pub proof fn lemma_share_of_matrix<E>(t: Contents<E>, a: usize, b: usize, each: usize, n: int, i: int)
    requires
        is_matrix(t, a, b),
        b == n * each,
        n > 0,
        0 <= i < n,
    ensures
        is_matrix(share(t, n, i), a, each),
        b as int % n == 0,
        forall|y: int, z: int|
            0 <= y < a && 0 <= z < each ==> #[trigger] at2(share(t, n, i), y, z) == at2(
                t,
                y,
                i * each + z,
            ),
{
    let r = share(t, n, i);
    assert(b as int / n == each && b as int % n == 0) by {
        assert(n * each == each * n) by (nonlinear_arith);
        vstd::arithmetic::div_mod::lemma_fundamental_div_mod_converse(
            b as int,
            n,
            each as int,
            0,
        );
    }
    let start = i * each;
    assert(start + each - start == each);
    assert(r.shape =~= seq![a, each]);
    lemma_size_nonnegative(r.shape);
    assert forall|y: int, z: int| 0 <= y < a && 0 <= z < each implies #[trigger] at2(r, y, z)
        == at2(t, y, i * each + z) by {
        let c = seq![y, z];
        assert(0 <= i * each && i * each + each <= n * each) by (nonlinear_arith)
            requires
                0 <= i,
                i + 1 <= n,
                each >= 0,
        ;
        lemma_flat_two(a, each, y, z);
        lemma_flat_two(a, b, y, z + start);
        assert(c.update(1, c[1] + start) =~= seq![y, z + start]);
        lemma_arranged_at(r.shape, |c: Seq<int>| t.at(c.update(1, c[1] + start)), c);
        assert(r.at(c) == t.at(seq![y, z + start]));
    }
}

/// Rows of a matrix from `start` to `end`.
proof fn lemma_cut_rows<E>(t: Contents<E>, a: usize, b: usize, start: int, end: int)
    requires
        is_matrix(t, a, b),
        0 <= start <= end <= a,
    ensures
        is_matrix(cut(t, 0, start, end), (end - start) as usize, b),
        forall|y: int|
            0 <= y < end - start ==> #[trigger] matrix_row(cut(t, 0, start, end), y) == matrix_row(
                t,
                y + start,
            ),
{
    let r = cut(t, 0, start, end);
    let n = (end - start) as usize;
    assert(r.shape =~= seq![n, b]);
    lemma_size_nonnegative(r.shape);
    assert forall|y: int| 0 <= y < end - start implies #[trigger] matrix_row(r, y) == matrix_row(
        t,
        y + start,
    ) by {
        assert forall|z: int| 0 <= z < b implies matrix_row(r, y)[z] == matrix_row(
            t,
            y + start,
        )[z] by {
            let c = seq![y, z];
            lemma_flat_two(n, b, y, z);
            lemma_flat_two(a, b, y + start, z);
            assert(c.update(0, c[0] + start) =~= seq![y + start, z]);
            lemma_arranged_at(r.shape, |c: Seq<int>| t.at(c.update(0, c[0] + start)), c);
            assert(r.at(c) == t.at(seq![y + start, z]));
        }
        assert(matrix_row(r, y) =~= matrix_row(t, y + start));
    }
}

// ---------------------------------------------------------------------------
// Heads
// ---------------------------------------------------------------------------
/// A head has its share of the features of every token.
pub proof fn lemma_heads<E: Algebra>(t: Contents<E>, len: usize, heads: usize, dim: usize)
    requires
        heads * dim <= usize::MAX,
        is_matrix(t, len, (heads * dim) as usize),
        fits(seq![len, heads, dim]),
    ensures
        reshape_for_heads_result(t, heads, dim) matches Ok(r) && is_stack(r, heads, len, dim)
            && forall|x: int, y: int, z: int|
            0 <= x < heads && 0 <= y < len && 0 <= z < dim ==> #[trigger] at3(r, x, y, z) == at2(
                t,
                y,
                x * dim + z,
            ),
{
    let wide = (heads * dim) as usize;
    let split = Contents { shape: seq![len, heads, dim], values: t.values };
    lemma_size_two(len, wide);
    lemma_size_three(len, heads, dim);
    assert(len * heads * dim == len * (heads * dim)) by (nonlinear_arith);
    assert(t.reshaped(seq![len, heads, dim]) == Ok::<Contents<E>, Seq<char>>(split));
    let r = transposed_contents(split, 0, 1);
    assert(r.shape =~= seq![heads, len, dim]);
    lemma_size_nonnegative(r.shape);
    assert(split.transposed(0, 1) == Ok::<Contents<E>, Seq<char>>(r));
    assert forall|x: int, y: int, z: int|
        0 <= x < heads && 0 <= y < len && 0 <= z < dim implies #[trigger] at3(r, x, y, z) == at2(
        t,
        y,
        x * dim + z,
    ) by {
        let c = seq![x, y, z];
        lemma_flat_three(heads, len, dim, x, y, z);
        lemma_flat_three(len, heads, dim, y, x, z);
        assert(swapped(c, 0, 1) =~= seq![y, x, z]);
        lemma_arranged_at(r.shape, |c: Seq<int>| split.at(swapped(c, 0, 1)), c);
        assert(r.at(c) == split.at(seq![y, x, z]));
        assert((y * heads + x) * dim + z == y * (heads * dim) + (x * dim + z)) by (nonlinear_arith);
    }
}

/// The features of the heads stand side by side again.
pub proof fn lemma_merged<E: Algebra>(t: Contents<E>, len: usize, heads: usize, dim: usize)
    requires
        heads * dim <= usize::MAX,
        is_stack(t, heads, len, dim),
        fits(seq![len, (heads * dim) as usize]),
    ensures
        merge_heads_result(t) matches Ok(r) && is_matrix(r, len, (heads * dim) as usize)
            && forall|x: int, y: int, z: int|
            0 <= x < heads && 0 <= y < len && 0 <= z < dim ==> #[trigger] at3(t, x, y, z) == at2(
                r,
                y,
                x * dim + z,
            ),
{
    let wide = (heads * dim) as usize;
    let rows = transposed_contents(t, 0, 1);
    assert(rows.shape =~= seq![len, heads, dim]);
    lemma_size_nonnegative(rows.shape);
    lemma_size_two(len, wide);
    lemma_size_three(len, heads, dim);
    assert(len * heads * dim == len * (heads * dim)) by (nonlinear_arith);
    assert(t.transposed(0, 1) == Ok::<Contents<E>, Seq<char>>(rows));
    let r = Contents { shape: seq![len, wide], values: rows.values };
    assert(rows.reshaped(seq![len, wide]) == Ok::<Contents<E>, Seq<char>>(r));
    assert forall|x: int, y: int, z: int|
        0 <= x < heads && 0 <= y < len && 0 <= z < dim implies #[trigger] at3(t, x, y, z) == at2(
        r,
        y,
        x * dim + z,
    ) by {
        let c = seq![y, x, z];
        lemma_flat_three(heads, len, dim, x, y, z);
        lemma_flat_three(len, heads, dim, y, x, z);
        assert(swapped(c, 0, 1) =~= seq![x, y, z]);
        lemma_arranged_at(rows.shape, |c: Seq<int>| t.at(swapped(c, 0, 1)), c);
        assert(rows.at(c) == t.at(seq![x, y, z]));
        assert((y * heads + x) * dim + z == y * (heads * dim) + (x * dim + z)) by (nonlinear_arith);
    }
}

/// Norming takes every row of every head for itself.
proof fn lemma_normed_stack<E: Algebra>(
    t: Contents<E>,
    w: Option<Contents<E>>,
    label: Seq<char>,
    h: usize,
    n: usize,
    d: usize,
)
    requires
        is_stack(t, h, n, d),
        w is Some ==> w->0.shape == seq![d],
    ensures
        optional_norm_result(t, w, label) matches Ok(r) && is_stack(r, h, n, d) && forall|
            x: int,
            y: int,
        |
            0 <= x < h && 0 <= y < n ==> #[trigger] row_of(r, x, y) == maybe_normed_row(
                row_of(t, x, y),
                w,
            ),
{
    if w is Some {
        let weight = w->0;
        let r = norm_contents(t, weight, RMS_NORM_EPS);
        assert(seq![t.shape.last()] =~= seq![d]);
        lemma_size_nonnegative(t.shape);
        lemma_size_three(h, n, d);
        assert forall|x: int, y: int| 0 <= x < h && 0 <= y < n implies #[trigger] row_of(r, x, y)
            == maybe_normed_row(row_of(t, x, y), w) by {
            let row = row_of(t, x, y);
            assert forall|z: int| 0 <= z < d implies row_of(r, x, y)[z] == normed_row(
                row,
                weight.values,
            )[z] by {
                lemma_position(x, y, z, h as int, n as int, d as int);
            }
            assert(row_of(r, x, y) =~= normed_row(row, weight.values));
        }
    }
}

/// One stack behind the other along the tokens.
proof fn lemma_joined_stacks<E: Algebra>(
    a: Contents<E>,
    b: Contents<E>,
    h: usize,
    p: usize,
    s: usize,
    d: usize,
)
    requires
        is_stack(a, h, p, d),
        is_stack(b, h, s, d),
        p + s <= usize::MAX,
        fits(seq![h, (p + s) as usize, d]),
    ensures
        Contents::joined(seq![a, b], 1) matches Ok(r) && is_stack(r, h, (p + s) as usize, d)
            && forall|x: int, y: int|
            0 <= x < h && 0 <= y < p + s ==> #[trigger] row_of(r, x, y) == if y < p {
                row_of(a, x, y)
            } else {
                row_of(b, x, y - p)
            },
{
    let parts = seq![a, b];
    let dims = lengths(parts, 1);
    assert(dims =~= seq![p as int, s as int]);
    reveal_with_fuel(part_offset, 3);
    assert(part_offset(dims, 0) == 0);
    assert(part_offset(dims, 1) == p);
    assert(part_offset(dims, 2) == p + s);
    reveal_with_fuel(parts_complaint, 3);
    assert(same_but(a.shape, a.shape, 1));
    assert(same_but(a.shape, b.shape, 1));
    assert(parts_complaint(parts, 1, 2) is None);
    assert(join_complaint(parts, 1) is None);
    let n = (p + s) as usize;
    let r = joined_contents(parts, 1);
    assert(r.shape =~= seq![h, n, d]);
    lemma_size_nonnegative(r.shape);
    assert forall|x: int, y: int| 0 <= x < h && 0 <= y < p + s implies #[trigger] row_of(r, x, y)
        == if y < p {
        row_of(a, x, y)
    } else {
        row_of(b, x, y - p)
    } by {
        let expected = if y < p {
            row_of(a, x, y)
        } else {
            row_of(b, x, y - p)
        };
        assert forall|z: int| 0 <= z < d implies row_of(r, x, y)[z] == expected[z] by {
            let c = seq![x, y, z];
            lemma_flat_three(h, n, d, x, y, z);
            lemma_arranged_at(r.shape, |c: Seq<int>| joined_at(parts, 1, c), c);
            let q = choose|q: int| covers(dims, q, c[1]);
            assert(covers(
                dims,
                if y < p {
                    0
                } else {
                    1
                },
                y,
            ));
            assert(covers(dims, q, y));
            if y < p {
                assert(q == 0);
                assert(c.update(1, y - 0) =~= seq![x, y, z]);
                lemma_flat_three(h, p, d, x, y, z);
            } else {
                assert(q == 1);
                assert(c.update(1, y - p) =~= seq![x, y - p, z]);
                lemma_flat_three(h, s, d, x, y - p, z);
            }
        }
        assert(row_of(r, x, y) =~= expected);
    }
}

/// Neighbouring channels of a row, from `start` on, turned by a position: channel `z` of
/// `dims` of them.
pub open spec fn turned_channel<E: Algebra>(
    row: Seq<E>,
    start: int,
    dims: int,
    z: int,
    position: i32,
    theta: u32,
) -> E {
    let first = 2 * (z / 2);
    let (even, odd) = E::turned(
        row[start + first],
        row[start + first + 1],
        position,
        first as usize,
        dims as usize,
        theta,
    );
    if z % 2 == 0 {
        even
    } else {
        odd
    }
}

/// A row whose first half is turned by the position of its token and whose second half is
/// turned by the region of its token.
pub open spec fn region_turned_row<E: Algebra>(
    row: Seq<E>,
    position: i32,
    region: i32,
    theta: u32,
) -> Seq<E> {
    let half = row.len() as int / 2;
    Seq::new(
        row.len(),
        |z: int|
            if z < half {
                turned_channel(row, 0, half, z, position, theta)
            } else {
                turned_channel(row, half, half, z - half, region, theta)
            },
    )
}

proof fn lemma_region_turned<E: Algebra>(
    t: Contents<E>,
    positions: Seq<i32>,
    region_ids: Seq<i32>,
    h: usize,
    n: usize,
    d: usize,
    theta: u32,
)
    requires
        is_stack(t, h, n, d),
        positions.len() == n,
        region_ids.len() == n,
        d > 0,
        d % 4 == 0,
    ensures
        t.region_rotated(positions, region_ids, d as int, h as int, theta) matches Ok(r)
            && is_stack(r, h, n, d) && forall|x: int, y: int|
            0 <= x < h && 0 <= y < n ==> #[trigger] row_of(r, x, y) == region_turned_row(
                row_of(t, x, y),
                positions[y],
                region_ids[y],
                theta,
            ),
{
    let half = d as int / 2;
    let r = rope_contents(t, d as int, half, positions, half, region_ids, theta);
    assert(t.region_rotated(positions, region_ids, d as int, h as int, theta) == Ok::<
        Contents<E>,
        Seq<char>,
    >(r));
    lemma_size_nonnegative(t.shape);
    lemma_size_three(h, n, d);
    assert forall|x: int, y: int| 0 <= x < h && 0 <= y < n implies #[trigger] row_of(r, x, y)
        == region_turned_row(row_of(t, x, y), positions[y], region_ids[y], theta) by {
        let row = row_of(t, x, y);
        let expected = region_turned_row(row, positions[y], region_ids[y], theta);
        assert forall|z: int| 0 <= z < d implies row_of(r, x, y)[z] == expected[z] by {
            lemma_position(x, y, z, h as int, n as int, d as int);
            let base = (x * n + y) * d;
            let u = if z < half {
                z
            } else {
                z - half
            };
            let first = 2 * (u / 2);
            assert(0 <= first && first + 1 < half);
        }
        assert(row_of(r, x, y) =~= expected);
    }
}

// ---------------------------------------------------------------------------
// Attention over heads
// ---------------------------------------------------------------------------
/// What a query hears: the values, each weighted by the softmax of the scores of its key.
/// A score is the product of the query and the key, scaled, and what the mask adds to it.
pub open spec fn heard<E: Algebra>(
    query: Seq<E>,
    keys: Seq<Seq<E>>,
    values: Seq<Seq<E>>,
    mask: Option<Seq<E>>,
    factor: u32,
) -> Seq<E> {
    let scores = Seq::new(
        keys.len(),
        |j: int|
            match mask {
                Some(row) => E::dot(query, keys[j]).times_bits(factor).plus(row[j]),
                None => E::dot(query, keys[j]).times_bits(factor),
            },
    );
    let weights = Seq::new(keys.len(), |j: int| E::softmax_at(scores, j));
    Seq::new(
        query.len(),
        |z: int| E::dot(weights, Seq::new(keys.len(), |j: int| values[j][z])),
    )
}

/// The rows of matrix `x` of a stack.
pub open spec fn rows_of<E>(t: Contents<E>, x: int) -> Seq<Seq<E>> {
    Seq::new(t.shape[1] as nat, |y: int| row_of(t, x, y))
}

/// Every query of every head hears the values of its head.
#[verifier::rlimit(30)]
pub proof fn lemma_heard<E: Algebra>(
    q: Contents<E>,
    k: Contents<E>,
    v: Contents<E>,
    mask: Option<Contents<E>>,
    h: usize,
    n: usize,
    d: usize,
    most: int,
)
    requires
        h >= 1,
        is_stack(q, h, n, d),
        is_stack(k, h, n, d),
        is_stack(v, h, n, d),
        fits_mask(mask, n, n),
        fits(seq![h, n, n]),
        fits(seq![h, n, d]),
        0 <= most,
    ensures
        scaled_dot_product_attention_result(q, k, v, mask, d as int, most) matches Ok(t)
            && is_stack(t, h, n, d) && forall|x: int, y: int|
            0 <= x < h && 0 <= y < n ==> #[trigger] row_of(t, x, y) == heard(
                row_of(q, x, y),
                rows_of(k, x),
                rows_of(v, x),
                mask_row(mask, y),
                E::score_factor(d as int),
            ),
{
    let rows = query_rows(h as int, n as int, n as int, most);
    if n > 0 {
        law_blocks_change_nothing(q, k, v, mask, d as int, h, n, n, d, d, rows);
    } else {
        law_blocks_change_nothing(q, k, v, mask, d as int, h, n, n, d, d, 1);
    }
    let t = scaled_dot_product_attention_result(q, k, v, mask, d as int, most)->Ok_0;
    let k_t = transposed_contents(k, 1, 2);
    assert(k_t.shape =~= seq![h, d, n]);
    assert(answers(t, q, k_t, v, mask, d as int, 0));
    assert forall|x: int, y: int| 0 <= x < h && 0 <= y < n implies #[trigger] row_of(t, x, y)
        == heard(
        row_of(q, x, y),
        rows_of(k, x),
        rows_of(v, x),
        mask_row(mask, y),
        E::score_factor(d as int),
    ) by {
        lemma_one_heard(q, k, v, mask, h, n, d, x, y);
        let expected = heard(
            row_of(q, x, y),
            rows_of(k, x),
            rows_of(v, x),
            mask_row(mask, y),
            E::score_factor(d as int),
        );
        assert forall|z: int| 0 <= z < d implies row_of(t, x, y)[z] == expected[z] by {
            assert(at3(t, x, y, z) == answer(q, k_t, v, mask, d as int, x, y + 0, z));
        }
        assert(row_of(t, x, y) =~= expected);
    }
}

/// The answer to a query is what it hears.
proof fn lemma_one_heard<E: Algebra>(
    q: Contents<E>,
    k: Contents<E>,
    v: Contents<E>,
    mask: Option<Contents<E>>,
    h: usize,
    n: usize,
    d: usize,
    x: int,
    y: int,
)
    requires
        is_stack(q, h, n, d),
        is_stack(k, h, n, d),
        is_stack(v, h, n, d),
        fits_mask(mask, n, n),
        0 <= x < h,
        0 <= y < n,
    ensures
        forall|z: int|
            0 <= z < d ==> #[trigger] answer(
                q,
                transposed_contents(k, 1, 2),
                v,
                mask,
                d as int,
                x,
                y,
                z,
            ) == heard(
                row_of(q, x, y),
                rows_of(k, x),
                rows_of(v, x),
                mask_row(mask, y),
                E::score_factor(d as int),
            )[z],
{
    let k_t = transposed_contents(k, 1, 2);
    let query = row_of(q, x, y);
    let row = mask_row(mask, y);
    let keys = rows_of(k, x);
    let factor = E::score_factor(d as int);
    assert(k_t.shape =~= seq![h, d, n]);
    let scores = Seq::new(
        keys.len(),
        |j: int|
            match row {
                Some(row) => E::dot(query, keys[j]).times_bits(factor).plus(row[j]),
                None => E::dot(query, keys[j]).times_bits(factor),
            },
    );
    let found = score_row(k_t, query, row, d as int, x);
    assert forall|j: int| 0 <= j < n implies found[j] == scores[j] by {
        let key = lane(k_t.values, x * (d * n) + j, n as int, d as int);
        assert forall|z: int| 0 <= z < d implies key[z] == keys[j][z] by {
            let c = seq![x, z, j];
            lemma_flat_three(h, d, n, x, z, j);
            lemma_flat_three(h, n, d, x, j, z);
            assert(swapped(c, 1, 2) =~= seq![x, j, z]);
            lemma_arranged_at(k_t.shape, |c: Seq<int>| k.at(swapped(c, 1, 2)), c);
            assert(k_t.at(c) == k.at(seq![x, j, z]));
            assert(x * (d * n) + j + z * n == (x * d + z) * n + j) by (nonlinear_arith);
        }
        assert(key =~= keys[j]);
    }
    assert(found =~= scores);
    assert forall|z: int| 0 <= z < d implies #[trigger] answer(
        q,
        k_t,
        v,
        mask,
        d as int,
        x,
        y,
        z,
    ) == heard(query, keys, rows_of(v, x), row, factor)[z] by {
        let column = lane(v.values, x * (n * d) + z, d as int, n as int);
        let values = Seq::new(keys.len(), |j: int| rows_of(v, x)[j][z]);
        assert forall|j: int| 0 <= j < n implies column[j] == values[j] by {
            assert(x * (n * d) + z + j * d == (x * n + j) * d + z) by (nonlinear_arith);
        }
        assert(column =~= values);
        assert(Seq::new(n as nat, |j: int| E::softmax_at(found, j)) =~= Seq::new(
            keys.len(),
            |j: int| E::softmax_at(scores, j),
        ));
        assert(answer(q, k_t, v, mask, d as int, x, y, z) == attended(
            k_t,
            v,
            query,
            row,
            d as int,
            x,
            z,
        ));
    }
}

// ---------------------------------------------------------------------------
// Joint attention
// ---------------------------------------------------------------------------
/// The arguments of joint attention.
pub struct JointArguments<E> {
    pub pool: Contents<E>,
    pub x: Contents<E>,
    pub weights: JointAttentionWeights<Contents<E>>,
    pub positions: Seq<i32>,
    pub region_ids: Seq<i32>,
    pub mask: Contents<E>,
    pub num_heads: usize,
    pub head_dim: usize,
    pub theta: u32,
}

/// The weights of a stream fit `len` rows of `dim` features, and what is made of the rows
/// can be held.
pub open spec fn stream_fits<E>(
    t: Contents<E>,
    w: JointStreamWeights<Contents<E>>,
    num_heads: usize,
    head_dim: usize,
) -> bool {
    let len = t.shape[0];
    let dim = t.shape[1];
    let wide = num_heads * head_dim;
    &&& t.well_formed()
    &&& t.shape.len() == 2
    &&& w.norm.shape == seq![dim]
    &&& is_matrix(w.qkv.weight, (3 * wide) as usize, dim)
    &&& w.qkv.bias.shape == seq![(3 * wide) as usize]
    &&& w.qk_norm is Some ==> w.qk_norm->0.q.shape == seq![head_dim] && w.qk_norm->0.k.shape
        == seq![head_dim]
    &&& w.out.weight.well_formed()
    &&& w.out.weight.shape.len() == 2
    &&& w.out.weight.shape[1] == wide
    &&& w.out.bias.shape == seq![w.out.weight.shape[0]]
    &&& fits(seq![len, (3 * wide) as usize])
    &&& fits(seq![len, num_heads, head_dim])
    &&& fits(seq![len, w.out.weight.shape[0]])
}

impl<E: Algebra> JointArguments<E> {
    /// How many tokens there are: those of the pool in front of those of the sequence.
    pub open spec fn tokens(self) -> int {
        self.pool.shape[0] + self.x.shape[0]
    }

    /// The arguments fit together.
    pub open spec fn fit(self) -> bool {
        let n = self.tokens();
        &&& self.num_heads > 0
        &&& self.head_dim > 0
        &&& self.head_dim % 4 == 0
        &&& 3 * (self.num_heads * self.head_dim) <= usize::MAX
        &&& n <= usize::MAX
        &&& stream_fits(self.pool, self.weights.pool, self.num_heads, self.head_dim)
        &&& stream_fits(self.x, self.weights.x, self.num_heads, self.head_dim)
        &&& self.positions.len() == n
        &&& self.region_ids.len() == n
        &&& is_matrix(self.mask, n as usize, n as usize)
        &&& fits(seq![self.num_heads, n as usize, n as usize])
        &&& fits(seq![self.num_heads, n as usize, self.head_dim])
        &&& fits(seq![n as usize, (self.num_heads * self.head_dim) as usize])
    }

    /// The weights for token `i`: those of the pool or those of the sequence.
    pub open spec fn stream(self, i: int) -> JointStreamWeights<Contents<E>> {
        if i < self.pool.shape[0] {
            self.weights.pool
        } else {
            self.weights.x
        }
    }

    /// The features of token `i`.
    pub open spec fn features(self, i: int) -> Seq<E> {
        if i < self.pool.shape[0] {
            matrix_row(self.pool, i)
        } else {
            matrix_row(self.x, i - self.pool.shape[0])
        }
    }

    /// Part `part` of what the first layer makes of token `i`, for head `h`. The parts are
    /// the queries, the keys and the values.
    pub open spec fn share_of(self, i: int, part: int, h: int) -> Seq<E> {
        let w = self.stream(i);
        let all = layer_row(normed_row(self.features(i), w.norm.values), w.qkv);
        let wide = self.num_heads * self.head_dim;
        Seq::new(self.head_dim as nat, |z: int| all[part * wide + (h * self.head_dim + z)])
    }

    /// What token `i` asks for in head `h`.
    pub open spec fn query(self, i: int, h: int) -> Seq<E> {
        region_turned_row(
            match self.stream(i).qk_norm {
                Some(w) => normed_row(self.share_of(i, 0, h), w.q.values),
                None => self.share_of(i, 0, h),
            },
            self.positions[i],
            self.region_ids[i],
            self.theta,
        )
    }

    /// What token `i` is found by in head `h`.
    pub open spec fn key(self, i: int, h: int) -> Seq<E> {
        region_turned_row(
            match self.stream(i).qk_norm {
                Some(w) => normed_row(self.share_of(i, 1, h), w.k.values),
                None => self.share_of(i, 1, h),
            },
            self.positions[i],
            self.region_ids[i],
            self.theta,
        )
    }

    /// What token `i` hears in all heads: in head `h`, the values of all tokens, each
    /// weighted by the softmax of the scaled scores with row `i` of the mask added.
    pub open spec fn attended_row(self, i: int) -> Seq<E> {
        let n = self.tokens() as nat;
        let d = self.head_dim as int;
        Seq::new(
            (self.num_heads * self.head_dim) as nat,
            |c: int|
                heard(
                    self.query(i, c / d),
                    Seq::new(n, |j: int| self.key(j, c / d)),
                    Seq::new(n, |j: int| self.share_of(j, 2, c / d)),
                    Some(matrix_row(self.mask, i)),
                    E::score_factor(d),
                )[c % d],
        )
    }
}

/// `s` has the shares of the tokens from `from` on.
spec fn has_heads<E: Algebra>(
    s: StreamHeads<Contents<E>>,
    call: JointArguments<E>,
    from: int,
    len: usize,
) -> bool {
    let (h, d) = (call.num_heads, call.head_dim);
    &&& is_stack(s.q, h, len, d)
    &&& is_stack(s.k, h, len, d)
    &&& is_stack(s.v, h, len, d)
    &&& forall|x: int, y: int|
        0 <= x < h && 0 <= y < len ==> #[trigger] row_of(s.q, x, y) == maybe_normed_row(
            call.share_of(from + y, 0, x),
            q_norm_of(call.stream(from + y).qk_norm),
        )
    &&& forall|x: int, y: int|
        0 <= x < h && 0 <= y < len ==> #[trigger] row_of(s.k, x, y) == maybe_normed_row(
            call.share_of(from + y, 1, x),
            k_norm_of(call.stream(from + y).qk_norm),
        )
    &&& forall|x: int, y: int|
        0 <= x < h && 0 <= y < len ==> #[trigger] row_of(s.v, x, y) == call.share_of(
            from + y,
            2,
            x,
        )
}

/// A part of what the first layer makes of a stream, by heads.
proof fn lemma_part_by_heads<E: Algebra>(
    qkv: Contents<E>,
    call: JointArguments<E>,
    from: int,
    len: usize,
    part: int,
)
    requires
        call.fit(),
        is_matrix(qkv, len, (3 * (call.num_heads * call.head_dim)) as usize),
        fits(seq![len, call.num_heads, call.head_dim]),
        0 <= part < 3,
        forall|y: int|
            0 <= y < len ==> #[trigger] matrix_row(qkv, y) == layer_row(
                normed_row(call.features(from + y), call.stream(from + y).norm.values),
                call.stream(from + y).qkv,
            ),
    ensures
        reshape_for_heads_result(share(qkv, 3, part), call.num_heads, call.head_dim) matches Ok(r)
            && is_stack(r, call.num_heads, len, call.head_dim) && forall|x: int, y: int|
            0 <= x < call.num_heads && 0 <= y < len ==> #[trigger] row_of(r, x, y)
                == call.share_of(from + y, part, x),
        (3 * (call.num_heads * call.head_dim)) % 3 == 0,
{
    let (h, d) = (call.num_heads, call.head_dim);
    let wide = (h * d) as usize;
    lemma_share_of_matrix(qkv, len, (3 * (h * d)) as usize, wide, 3, part);
    let t = share(qkv, 3, part);
    lemma_heads(t, len, h, d);
    let r = reshape_for_heads_result(t, h, d)->Ok_0;
    assert forall|x: int, y: int| 0 <= x < h && 0 <= y < len implies #[trigger] row_of(r, x, y)
        == call.share_of(from + y, part, x) by {
        let expected = call.share_of(from + y, part, x);
        assert forall|z: int| 0 <= z < d implies row_of(r, x, y)[z] == expected[z] by {
            lemma_place(x, z, h as int, d as int);
            assert(row_of(r, x, y)[z] == at3(r, x, y, z));
            let c = part * wide + (x * d + z);
            assert(0 <= c < 3 * wide) by (nonlinear_arith)
                requires
                    c == part * wide + (x * d + z),
                    0 <= x * d + z < wide,
                    0 <= part <= 2,
            ;
            assert(at2(t, y, x * d + z) == at2(qkv, y, c));
            assert(at2(qkv, y, c) == matrix_row(qkv, y)[c]);
        }
        assert(row_of(r, x, y) =~= expected);
    }
}

/// Queries, keys and values of a stream.
proof fn lemma_stream<E: Algebra>(
    call: JointArguments<E>,
    t: Contents<E>,
    w: JointStreamWeights<Contents<E>>,
    from: int,
    q_label: Seq<char>,
    k_label: Seq<char>,
)
    requires
        call.fit(),
        stream_fits(t, w, call.num_heads, call.head_dim),
        forall|y: int|
            0 <= y < t.shape[0] ==> #[trigger] matrix_row(t, y) == call.features(from + y)
                && call.stream(from + y) == w,
    ensures
        ({
            let (h, d) = (call.num_heads, call.head_dim);
            &&& t.rms_normed(w.norm, RMS_NORM_EPS) matches Ok(normed)
            &&& normed.linear_image(w.qkv.weight, Some(w.qkv.bias)) matches Ok(qkv)
            &&& qkv.thirds() matches Ok(parts)
            &&& stream_heads_result(parts, w, h, d, q_label, k_label) matches Ok(s)
            &&& has_heads(s, call, from, t.shape[0])
        }),
{
    let (h, d) = (call.num_heads, call.head_dim);
    let len = t.shape[0];
    let dim = t.shape[1];
    let all = (3 * (h * d)) as usize;
    assert(t.shape =~= seq![len, dim]);
    lemma_normed_matrix(t, w.norm, len, dim);
    let normed = t.rms_normed(w.norm, RMS_NORM_EPS)->Ok_0;
    lemma_layer_of_matrix(normed, w.qkv, len, dim, all);
    let qkv = normed.linear_image(w.qkv.weight, Some(w.qkv.bias))->Ok_0;
    assert forall|y: int| 0 <= y < len implies #[trigger] matrix_row(qkv, y) == layer_row(
        normed_row(call.features(from + y), call.stream(from + y).norm.values),
        call.stream(from + y).qkv,
    ) by {
        assert(matrix_row(normed, y) == normed_row(matrix_row(t, y), w.norm.values));
    }
    lemma_part_by_heads(qkv, call, from, len, 0);
    lemma_part_by_heads(qkv, call, from, len, 1);
    lemma_part_by_heads(qkv, call, from, len, 2);
    let parts = (share(qkv, 3, 0), share(qkv, 3, 1), share(qkv, 3, 2));
    assert(qkv.thirds() == Ok::<(Contents<E>, Contents<E>, Contents<E>), Seq<char>>(parts));
    let qh = reshape_for_heads_result(parts.0, h, d)->Ok_0;
    let kh = reshape_for_heads_result(parts.1, h, d)->Ok_0;
    lemma_normed_stack(qh, q_norm_of(w.qk_norm), q_label, h, len, d);
    lemma_normed_stack(kh, k_norm_of(w.qk_norm), k_label, h, len, d);
    let s = stream_heads_result(parts, w, h, d, q_label, k_label)->Ok_0;
    assert forall|x: int, y: int| 0 <= x < h && 0 <= y < len implies #[trigger] row_of(s.q, x, y)
        == maybe_normed_row(
        call.share_of(from + y, 0, x),
        q_norm_of(call.stream(from + y).qk_norm),
    ) by {
        assert(matrix_row(t, y) == call.features(from + y));
        assert(row_of(qh, x, y) == call.share_of(from + y, 0, x));
    }
    assert forall|x: int, y: int| 0 <= x < h && 0 <= y < len implies #[trigger] row_of(s.k, x, y)
        == maybe_normed_row(
        call.share_of(from + y, 1, x),
        k_norm_of(call.stream(from + y).qk_norm),
    ) by {
        assert(matrix_row(t, y) == call.features(from + y));
        assert(row_of(kh, x, y) == call.share_of(from + y, 1, x));
    }
}

/// Queries, keys and values of all tokens.
proof fn lemma_all_heads<E: Algebra>(
    call: JointArguments<E>,
    p: StreamHeads<Contents<E>>,
    s: StreamHeads<Contents<E>>,
)
    requires
        call.fit(),
        has_heads(p, call, 0, call.pool.shape[0]),
        has_heads(s, call, call.pool.shape[0] as int, call.x.shape[0]),
    ensures
        ({
            let (h, d) = (call.num_heads, call.head_dim);
            let n = call.tokens();
            &&& joined_heads_result(p, s, call.positions, call.region_ids, h, d, call.theta) matches
                Ok(all)
            &&& is_stack(all.q, h, n as usize, d)
            &&& is_stack(all.k, h, n as usize, d)
            &&& is_stack(all.v, h, n as usize, d)
            &&& forall|x: int, i: int|
                0 <= x < h && 0 <= i < n ==> #[trigger] row_of(all.q, x, i) == call.query(i, x)
            &&& forall|x: int, i: int|
                0 <= x < h && 0 <= i < n ==> #[trigger] row_of(all.k, x, i) == call.key(i, x)
            &&& forall|x: int, i: int|
                0 <= x < h && 0 <= i < n ==> #[trigger] row_of(all.v, x, i) == call.share_of(
                    i,
                    2,
                    x,
                )
        }),
{
    let (h, d) = (call.num_heads, call.head_dim);
    let first = call.pool.shape[0];
    let second = call.x.shape[0];
    let n = call.tokens() as usize;
    let theta = call.theta;
    lemma_joined_stacks(p.q, s.q, h, first, second, d);
    lemma_joined_stacks(p.k, s.k, h, first, second, d);
    lemma_joined_stacks(p.v, s.v, h, first, second, d);
    let q1 = Contents::joined(seq![p.q, s.q], 1)->Ok_0;
    let k1 = Contents::joined(seq![p.k, s.k], 1)->Ok_0;
    let v = Contents::joined(seq![p.v, s.v], 1)->Ok_0;
    lemma_region_turned(q1, call.positions, call.region_ids, h, n, d, theta);
    lemma_region_turned(k1, call.positions, call.region_ids, h, n, d, theta);
    let q = q1.region_rotated(
        call.positions,
        call.region_ids,
        d as int,
        h as int,
        theta,
    )->Ok_0;
    let k = k1.region_rotated(
        call.positions,
        call.region_ids,
        d as int,
        h as int,
        theta,
    )->Ok_0;
    assert forall|x: int, i: int| 0 <= x < h && 0 <= i < n implies #[trigger] row_of(q, x, i)
        == call.query(i, x) by {
        if i < first {
            assert(row_of(q1, x, i) == row_of(p.q, x, i));
            assert(row_of(p.q, x, i) == maybe_normed_row(
                call.share_of(0 + i, 0, x),
                q_norm_of(call.stream(0 + i).qk_norm),
            ));
        } else {
            assert(row_of(q1, x, i) == row_of(s.q, x, i - first));
            assert(row_of(s.q, x, i - first) == maybe_normed_row(
                call.share_of(first + (i - first), 0, x),
                q_norm_of(call.stream(first + (i - first)).qk_norm),
            ));
        }
    }
    assert forall|x: int, i: int| 0 <= x < h && 0 <= i < n implies #[trigger] row_of(k, x, i)
        == call.key(i, x) by {
        if i < first {
            assert(row_of(k1, x, i) == row_of(p.k, x, i));
            assert(row_of(p.k, x, i) == maybe_normed_row(
                call.share_of(0 + i, 1, x),
                k_norm_of(call.stream(0 + i).qk_norm),
            ));
        } else {
            assert(row_of(k1, x, i) == row_of(s.k, x, i - first));
            assert(row_of(s.k, x, i - first) == maybe_normed_row(
                call.share_of(first + (i - first), 1, x),
                k_norm_of(call.stream(first + (i - first)).qk_norm),
            ));
        }
    }
    assert forall|x: int, i: int| 0 <= x < h && 0 <= i < n implies #[trigger] row_of(v, x, i)
        == call.share_of(i, 2, x) by {
        if i < first {
            assert(row_of(v, x, i) == row_of(p.v, x, i));
            assert(row_of(p.v, x, i) == call.share_of(0 + i, 2, x));
        } else {
            assert(row_of(v, x, i) == row_of(s.v, x, i - first));
            assert(row_of(s.v, x, i - first) == call.share_of(first + (i - first), 2, x));
        }
    }
}

/// What the tokens hear, the heads side by side.
proof fn lemma_attended_rows<E: Algebra>(
    call: JointArguments<E>,
    all: StreamHeads<Contents<E>>,
    most: int,
)
    requires
        call.fit(),
        0 <= most,
        ({
            let (h, d) = (call.num_heads, call.head_dim);
            let n = call.tokens();
            &&& is_stack(all.q, h, n as usize, d)
            &&& is_stack(all.k, h, n as usize, d)
            &&& is_stack(all.v, h, n as usize, d)
            &&& forall|x: int, i: int|
                0 <= x < h && 0 <= i < n ==> #[trigger] row_of(all.q, x, i) == call.query(i, x)
            &&& forall|x: int, i: int|
                0 <= x < h && 0 <= i < n ==> #[trigger] row_of(all.k, x, i) == call.key(i, x)
            &&& forall|x: int, i: int|
                0 <= x < h && 0 <= i < n ==> #[trigger] row_of(all.v, x, i) == call.share_of(
                    i,
                    2,
                    x,
                )
        }),
    ensures
        ({
            let (h, d) = (call.num_heads, call.head_dim);
            let n = call.tokens();
            &&& scaled_dot_product_attention_result(
                all.q,
                all.k,
                all.v,
                Some(call.mask),
                d as int,
                most,
            ) matches Ok(t)
            &&& merge_heads_result(t) matches Ok(merged)
            &&& is_matrix(merged, n as usize, (h * d) as usize)
            &&& forall|i: int|
                0 <= i < n ==> #[trigger] matrix_row(merged, i) == call.attended_row(i)
        }),
{
    let (h, d) = (call.num_heads, call.head_dim);
    let n = call.tokens() as usize;
    let mask = Some(call.mask);
    lemma_heard(all.q, all.k, all.v, mask, h, n, d, most);
    let t = scaled_dot_product_attention_result(
        all.q,
        all.k,
        all.v,
        mask,
        d as int,
        most,
    )->Ok_0;
    lemma_merged(t, n, h, d);
    let merged = merge_heads_result(t)->Ok_0;
    assert forall|i: int| 0 <= i < n implies #[trigger] matrix_row(merged, i) == call.attended_row(
        i,
    ) by {
        let expected = call.attended_row(i);
        assert(mask_row(mask, i)->0 =~= matrix_row(call.mask, i));
        assert forall|c: int| 0 <= c < h * d implies matrix_row(merged, i)[c] == expected[c] by {
            let x = c / d as int;
            let z = c % d as int;
            vstd::arithmetic::div_mod::lemma_fundamental_div_mod(c, d as int);
            assert(0 <= z < d && 0 <= x < h && c == x * d + z) by (nonlinear_arith)
                requires
                    0 <= c < h * d,
                    c == d * x + z,
                    z == c % d as int,
                    x == c / d as int,
                    d > 0,
            ;
            assert(at3(t, x, i, z) == at2(merged, i, x * d + z));
            assert(row_of(t, x, i)[z] == at3(t, x, i, z));
            assert(rows_of(all.k, x) =~= Seq::new(n as nat, |j: int| call.key(j, x)));
            assert(rows_of(all.v, x) =~= Seq::new(n as nat, |j: int| call.share_of(j, 2, x)));
            assert(row_of(all.q, x, i) == call.query(i, x));
        }
        assert(matrix_row(merged, i) =~= expected);
    }
}

/// Joint attention, token by token. Every token of the pool and of the sequence hears the
/// values of all tokens, each weighted by the softmax of the scores, to which the token's
/// row of the mask is added; and each stream has a last layer of its own.
pub proof fn law_tokens_hear_each_other_as_the_mask_allows<E: Algebra>(
    call: JointArguments<E>,
    most: usize,
)
    requires
        call.fit(),
    ensures
        ({
            let p = call.pool.shape[0] as int;
            &&& joint_attention_result(
                call.pool,
                call.x,
                call.weights,
                call.positions,
                call.region_ids,
                call.mask,
                call.num_heads,
                call.head_dim,
                call.theta,
                most,
            ) matches Ok(o)
            &&& is_matrix(o.pool, call.pool.shape[0], call.weights.pool.out.weight.shape[0])
            &&& is_matrix(o.x, call.x.shape[0], call.weights.x.out.weight.shape[0])
            &&& forall|i: int|
                0 <= i < p ==> #[trigger] matrix_row(o.pool, i) == layer_row(
                    call.attended_row(i),
                    call.weights.pool.out,
                )
            &&& forall|i: int|
                0 <= i < call.x.shape[0] ==> #[trigger] matrix_row(o.x, i) == layer_row(
                    call.attended_row(p + i),
                    call.weights.x.out,
                )
        }),
{
    let (h, d) = (call.num_heads, call.head_dim);
    let wide = (h * d) as usize;
    let p = call.pool.shape[0];
    let s = call.x.shape[0];
    let w = call.weights;
    let n = call.tokens();
    assert forall|y: int| 0 <= y < s implies #[trigger] matrix_row(call.x, y) == call.features(
        p + y,
    ) && call.stream(p + y) == w.x by {}
    lemma_stream(
        call,
        call.pool,
        w.pool,
        0,
        "joint_attention pool q_norm"@,
        "joint_attention pool k_norm"@,
    );
    lemma_stream(
        call,
        call.x,
        w.x,
        p as int,
        "joint_attention x q_norm"@,
        "joint_attention x k_norm"@,
    );
    let heads = joint_heads_result(call.pool, call.x, w, h, d)->Ok_0;
    lemma_all_heads(call, heads.0, heads.1);
    let all = joined_heads_result(
        heads.0,
        heads.1,
        call.positions,
        call.region_ids,
        h,
        d,
        call.theta,
    )->Ok_0;
    lemma_attended_rows(call, all, most as int);
    let t = scaled_dot_product_attention_result(
        all.q,
        all.k,
        all.v,
        Some(call.mask),
        d as int,
        most as int,
    )->Ok_0;
    let merged = merge_heads_result(t)->Ok_0;
    lemma_cut_rows(merged, n as usize, wide, 0, p as int);
    lemma_cut_rows(merged, n as usize, wide, p as int, n);
    let a = cut(merged, 0, 0, p as int);
    let b = cut(merged, 0, p as int, n);
    assert(w.pool.out.weight.shape =~= seq![w.pool.out.weight.shape[0], wide]);
    assert(w.x.out.weight.shape =~= seq![w.x.out.weight.shape[0], wide]);
    lemma_layer_of_matrix(a, w.pool.out, p, wide, w.pool.out.weight.shape[0]);
    lemma_layer_of_matrix(b, w.x.out, s, wide, w.x.out.weight.shape[0]);
    let pool_out = a.linear_image(w.pool.out.weight, Some(w.pool.out.bias))->Ok_0;
    let x_out = b.linear_image(w.x.out.weight, Some(w.x.out.bias))->Ok_0;
    assert(merged.sliced(0, 0, p as int) == Ok::<Contents<E>, Seq<char>>(a));
    assert(merged.sliced(0, p as int, p + s) == Ok::<Contents<E>, Seq<char>>(b));
    assert forall|i: int| 0 <= i < p implies #[trigger] matrix_row(pool_out, i) == layer_row(
        call.attended_row(i),
        w.pool.out,
    ) by {
        assert(matrix_row(a, i) == matrix_row(merged, i + 0));
    }
    assert forall|i: int| 0 <= i < s implies #[trigger] matrix_row(x_out, i) == layer_row(
        call.attended_row(p + i),
        w.x.out,
    ) by {
        assert(matrix_row(b, i) == matrix_row(merged, i + p));
    }
}

} // verus!
