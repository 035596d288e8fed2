//! The blocks of the networks row by row: what every row of the result is, in terms of
//! the rows that go in.
use vstd::prelude::*;

use crate::model::blocks::{
    apply_residual_glu_result, attention_result, ebf_block_result, jebf_block_result,
    joint_attention_result, merge_heads_result, merge_stream_result, pac_result, pjac_result,
    reshape_for_heads_result, scaled_dot_product_attention_result, smoothed_result,
    AttentionWeights, DepthwiseWeights, EbfBlockWeights, JebfBlockWeights, JointAttentionOutput,
    LinearWeights, MergeWeights, PacWeights, PjacWeights, ResidualGluWeights, RMS_NORM_EPS,
};
use crate::model::blockwise::{
    at3, is_stack, lemma_arranged_at, lemma_position, mask_row, row_of,
};
use crate::model::joint::{
    at2, heard, is_matrix, layer_row, lemma_heads, lemma_heard, lemma_layer_of_matrix,
    lemma_merged, lemma_normed_matrix, lemma_place, lemma_share_of_matrix, matrix_row, normed_row,
    rows_of, turned_channel,
};
use crate::tensor::contents::{
    conv_contents, covers, join_complaint, joined_at, joined_contents, lengths, paired,
    parts_complaint, rope_contents, share, weighted, Contents,
};
use crate::tensor::cpu_layout::{lemma_flat_two, part_offset, same_but};
use crate::tensor::cpu_ops::lemma_suffix_source;
use crate::tensor::numbers::Algebra;
use crate::tensor::ops::{LayerModel, TensorModel};
use crate::tensor::shape::{
    aligned_dim, broadcast_result, broadcastable, fits, lemma_size_nonnegative, lemma_size_one,
    lemma_size_three, lemma_size_two, size,
};

verus! {

// ---------------------------------------------------------------------------
// Attention of a sequence to itself
// ---------------------------------------------------------------------------
/// A row whose neighbouring channels are turned by the position of its token.
pub open spec fn turned_row<E: Algebra>(row: Seq<E>, position: i32, theta: u32) -> Seq<E> {
    Seq::new(
        row.len(),
        |z: int| turned_channel(row, 0, row.len() as int, z, position, theta),
    )
}

proof fn lemma_turned<E: Algebra>(
    t: Contents<E>,
    positions: Seq<i32>,
    h: usize,
    n: usize,
    d: usize,
    theta: u32,
)
    requires
        is_stack(t, h, n, d),
        positions.len() == n,
        d > 0,
        d % 2 == 0,
    ensures
        t.rotated(positions, d as int, h as int, theta) matches Ok(r) && is_stack(r, h, n, d)
            && forall|x: int, y: int|
            0 <= x < h && 0 <= y < n ==> #[trigger] row_of(r, x, y) == turned_row(
                row_of(t, x, y),
                positions[y],
                theta,
            ),
{
    let r = rope_contents(t, d as int, d as int, positions, 0, positions, theta);
    assert(t.rotated(positions, d as int, h as int, theta) == Ok::<Contents<E>, Seq<char>>(r));
    lemma_size_nonnegative(t.shape);
    lemma_size_three(h, n, d);
    assert forall|x: int, y: int| 0 <= x < h && 0 <= y < n implies #[trigger] row_of(r, x, y)
        == turned_row(row_of(t, x, y), positions[y], theta) by {
        let row = row_of(t, x, y);
        let expected = turned_row(row, positions[y], theta);
        assert forall|z: int| 0 <= z < d implies row_of(r, x, y)[z] == expected[z] by {
            lemma_position(x, y, z, h as int, n as int, d as int);
            let first = 2 * (z / 2);
            assert(0 <= first && first + 1 < d);
        }
        assert(row_of(r, x, y) =~= expected);
    }
}

/// The arguments of attention.
pub struct AttentionArguments<E> {
    pub x: Contents<E>,
    pub weights: AttentionWeights<Contents<E>>,
    pub positions: Seq<i32>,
    pub num_heads: usize,
    pub head_dim: usize,
    pub theta: u32,
}

impl<E: Algebra> AttentionArguments<E> {
    /// The arguments fit together, and what is made of them can be held.
    pub open spec fn fit(self) -> bool {
        let n = self.x.shape[0];
        let dim = self.x.shape[1];
        let wide = self.num_heads * self.head_dim;
        let w = self.weights;
        &&& self.x.well_formed()
        &&& self.x.shape.len() == 2
        &&& self.positions.len() == n
        &&& self.num_heads > 0
        &&& self.head_dim > 0
        &&& self.head_dim % 2 == 0
        &&& 2 * wide <= usize::MAX
        &&& is_matrix(w.q.weight, wide as usize, dim)
        &&& w.q.bias.shape == seq![wide as usize]
        &&& is_matrix(w.kv.weight, (2 * wide) as usize, dim)
        &&& w.kv.bias.shape == seq![(2 * wide) as usize]
        &&& w.out.weight.well_formed()
        &&& w.out.weight.shape.len() == 2
        &&& w.out.weight.shape[1] == wide
        &&& w.out.bias.shape == seq![w.out.weight.shape[0]]
        &&& fits(seq![n, (2 * wide) as usize])
        &&& fits(seq![n, wide as usize])
        &&& fits(seq![n, self.num_heads, self.head_dim])
        &&& fits(seq![self.num_heads, n, n])
        &&& fits(seq![self.num_heads, n, self.head_dim])
        &&& fits(seq![n, w.out.weight.shape[0]])
    }

    /// What token `i` asks for in head `h`.
    pub open spec fn query(self, i: int, h: int) -> Seq<E> {
        let all = layer_row(matrix_row(self.x, i), self.weights.q);
        turned_row(
            Seq::new(self.head_dim as nat, |z: int| all[h * self.head_dim + z]),
            self.positions[i],
            self.theta,
        )
    }

    /// What token `i` is found by in head `h`: the first half of the layer for both.
    pub open spec fn key(self, i: int, h: int) -> Seq<E> {
        let all = layer_row(matrix_row(self.x, i), self.weights.kv);
        turned_row(
            Seq::new(self.head_dim as nat, |z: int| all[h * self.head_dim + z]),
            self.positions[i],
            self.theta,
        )
    }

    /// What token `i` has to say in head `h`: the second half of the layer for both.
    pub open spec fn value(self, i: int, h: int) -> Seq<E> {
        let all = layer_row(matrix_row(self.x, i), self.weights.kv);
        let wide = self.num_heads * self.head_dim;
        Seq::new(self.head_dim as nat, |z: int| all[wide + (h * self.head_dim + z)])
    }

    /// What token `i` hears in all heads.
    pub open spec fn attended_row(self, i: int) -> Seq<E> {
        let n = self.x.shape[0] as nat;
        let d = self.head_dim as int;
        Seq::new(
            (self.num_heads * self.head_dim) as nat,
            |c: int|
                heard(
                    self.query(i, c / d),
                    Seq::new(n, |j: int| self.key(j, c / d)),
                    Seq::new(n, |j: int| self.value(j, c / d)),
                    None,
                    E::score_factor(d),
                )[c % d],
        )
    }
}

/// All of the columns, or one half of them.
spec fn part_of<E>(t: Contents<E>, parts: int, part: int) -> Contents<E> {
    if parts == 1 {
        t
    } else {
        share(t, 2, part)
    }
}

/// A part of what a layer makes of a sequence, by heads.
proof fn lemma_layer_by_heads<E: Algebra>(
    call: AttentionArguments<E>,
    layer: LinearWeights<Contents<E>>,
    parts: int,
    part: int,
)
    requires
        call.fit(),
        parts == 1 || parts == 2,
        0 <= part < parts,
        is_matrix(
            layer.weight,
            (parts * (call.num_heads * call.head_dim)) as usize,
            call.x.shape[1],
        ),
        layer.bias.shape == seq![(parts * (call.num_heads * call.head_dim)) as usize],
    ensures
        ({
            let (h, d) = (call.num_heads, call.head_dim);
            let wide = h * d;
            &&& call.x.linear_image(layer.weight, Some(layer.bias)) matches Ok(t)
            &&& is_matrix(t, call.x.shape[0], (parts * wide) as usize)
            &&& reshape_for_heads_result(part_of(t, parts, part), h, d) matches Ok(r)
            &&& is_stack(r, h, call.x.shape[0], d)
            &&& forall|x: int, y: int|
                0 <= x < h && 0 <= y < call.x.shape[0] ==> #[trigger] row_of(r, x, y) == Seq::new(
                    d as nat,
                    |z: int|
                        layer_row(matrix_row(call.x, y), layer)[part * wide + (x * d + z)],
                )
        }),
        (parts * (call.num_heads * call.head_dim)) % parts == 0,
{
    let (h, d) = (call.num_heads, call.head_dim);
    let n = call.x.shape[0];
    let wide = (h * d) as usize;
    let all = (parts * wide) as usize;
    assert(call.x.shape =~= seq![n, call.x.shape[1]]);
    lemma_layer_of_matrix(call.x, layer, n, call.x.shape[1], all);
    let t = call.x.linear_image(layer.weight, Some(layer.bias))->Ok_0;
    let mine = part_of(t, parts, part);
    if parts == 2 {
        lemma_share_of_matrix(t, n, all, wide, 2, part);
    }
    assert forall|y: int, z: int| 0 <= y < n && 0 <= z < wide implies #[trigger] at2(mine, y, z)
        == at2(t, y, part * wide + z) by {
        if parts == 2 {
            assert(at2(share(t, 2, part), y, z) == at2(t, y, part * wide + z));
        } else {
            assert(part * wide == 0) by (nonlinear_arith)
                requires
                    part == 0,
            ;
        }
    }
    lemma_heads(mine, n, h, d);
    let r = reshape_for_heads_result(mine, h, d)->Ok_0;
    assert forall|x: int, y: int| 0 <= x < h && 0 <= y < n implies #[trigger] row_of(r, x, y)
        == Seq::new(
        d as nat,
        |z: int| layer_row(matrix_row(call.x, y), layer)[part * wide + (x * d + z)],
    ) by {
        let expected = Seq::new(
            d as nat,
            |z: int| layer_row(matrix_row(call.x, y), layer)[part * wide + (x * d + z)],
        );
        assert forall|z: int| 0 <= z < d implies row_of(r, x, y)[z] == expected[z] by {
            lemma_place(x, z, h as int, d as int);
            assert(row_of(r, x, y)[z] == at3(r, x, y, z));
            assert(at2(mine, y, x * d + z) == at2(t, y, part * wide + (x * d + z)));
            let c = part * wide + (x * d + z);
            assert(0 <= c < parts * wide) by (nonlinear_arith)
                requires
                    c == part * wide + (x * d + z),
                    0 <= x * d + z < wide,
                    0 <= part,
                    part + 1 <= parts,
            ;
            assert(at2(t, y, c) == matrix_row(t, y)[c]);
            assert(matrix_row(t, y) == layer_row(matrix_row(call.x, y), layer));
        }
        assert(row_of(r, x, y) =~= expected);
    }
}

/// Queries, keys and values of all tokens.
spec fn has_tokens<E: Algebra>(
    call: AttentionArguments<E>,
    q: Contents<E>,
    k: Contents<E>,
    v: Contents<E>,
) -> bool {
    let (h, d) = (call.num_heads, call.head_dim);
    let n = call.x.shape[0];
    &&& is_stack(q, h, n, d)
    &&& is_stack(k, h, n, d)
    &&& is_stack(v, h, n, d)
    &&& forall|x: int, i: int|
        0 <= x < h && 0 <= i < n ==> #[trigger] row_of(q, x, i) == call.query(i, x)
    &&& forall|x: int, i: int|
        0 <= x < h && 0 <= i < n ==> #[trigger] row_of(k, x, i) == call.key(i, x)
    &&& forall|x: int, i: int|
        0 <= x < h && 0 <= i < n ==> #[trigger] row_of(v, x, i) == call.value(i, x)
}

/// The layers give queries, keys and values of all tokens.
proof fn lemma_own_heads<E: Algebra>(call: AttentionArguments<E>)
    requires
        call.fit(),
    ensures
        ({
            let (h, d) = (call.num_heads, call.head_dim);
            let w = call.weights;
            &&& call.x.linear_image(w.q.weight, Some(w.q.bias)) matches Ok(q0)
            &&& call.x.linear_image(w.kv.weight, Some(w.kv.bias)) matches Ok(kv)
            &&& kv.halves() matches Ok(parts)
            &&& reshape_for_heads_result(q0, h, d) matches Ok(q1)
            &&& reshape_for_heads_result(parts.0, h, d) matches Ok(k1)
            &&& reshape_for_heads_result(parts.1, h, d) matches Ok(v)
            &&& q1.rotated(call.positions, d as int, h as int, call.theta) matches Ok(q)
            &&& k1.rotated(call.positions, d as int, h as int, call.theta) matches Ok(k)
            &&& has_tokens(call, q, k, v)
        }),
{
    let (h, d) = (call.num_heads, call.head_dim);
    let n = call.x.shape[0];
    let w = call.weights;
    lemma_layer_by_heads(call, w.q, 1, 0);
    lemma_layer_by_heads(call, w.kv, 2, 0);
    lemma_layer_by_heads(call, w.kv, 2, 1);
    assert(0 * (h * d) == 0 && 1 * (h * d) == h * d) by (nonlinear_arith);
    let q0 = call.x.linear_image(w.q.weight, Some(w.q.bias))->Ok_0;
    let kv = call.x.linear_image(w.kv.weight, Some(w.kv.bias))->Ok_0;
    let parts = (share(kv, 2, 0), share(kv, 2, 1));
    assert(kv.halves() == Ok::<(Contents<E>, Contents<E>), Seq<char>>(parts));
    assert(part_of(q0, 1, 0) == q0);
    assert(part_of(kv, 2, 0) == parts.0 && part_of(kv, 2, 1) == parts.1);
    let q1 = reshape_for_heads_result(q0, h, d)->Ok_0;
    let k1 = reshape_for_heads_result(parts.0, h, d)->Ok_0;
    let v = reshape_for_heads_result(parts.1, h, d)->Ok_0;
    lemma_turned(q1, call.positions, h, n, d, call.theta);
    lemma_turned(k1, call.positions, h, n, d, call.theta);
    let q = q1.rotated(call.positions, d as int, h as int, call.theta)->Ok_0;
    let k = k1.rotated(call.positions, d as int, h as int, call.theta)->Ok_0;
    assert forall|x: int, i: int| 0 <= x < h && 0 <= i < n implies #[trigger] row_of(q, x, i)
        == call.query(i, x) by {
        let all = layer_row(matrix_row(call.x, i), w.q);
        assert(row_of(q1, x, i) =~= Seq::new(d as nat, |z: int| all[x * d + z]));
    }
    assert forall|x: int, i: int| 0 <= x < h && 0 <= i < n implies #[trigger] row_of(k, x, i)
        == call.key(i, x) by {
        let all = layer_row(matrix_row(call.x, i), w.kv);
        assert(row_of(k1, x, i) =~= Seq::new(d as nat, |z: int| all[x * d + z]));
    }
    assert forall|x: int, i: int| 0 <= x < h && 0 <= i < n implies #[trigger] row_of(v, x, i)
        == call.value(i, x) by {
        let all = layer_row(matrix_row(call.x, i), w.kv);
        assert(row_of(v, x, i) =~= Seq::new(d as nat, |z: int| all[h * d + (x * d + z)]));
    }
}

/// What the tokens hear, the heads side by side.
proof fn lemma_own_attended<E: Algebra>(
    call: AttentionArguments<E>,
    q: Contents<E>,
    k: Contents<E>,
    v: Contents<E>,
    most: int,
)
    requires
        call.fit(),
        0 <= most,
        has_tokens(call, q, k, v),
    ensures
        ({
            let (h, d) = (call.num_heads, call.head_dim);
            let n = call.x.shape[0];
            let none: Option<Contents<E>> = None;
            &&& scaled_dot_product_attention_result(q, k, v, none, d as int, most) matches Ok(t)
            &&& merge_heads_result(t) matches Ok(merged)
            &&& is_matrix(merged, n, (h * d) as usize)
            &&& forall|i: int|
                0 <= i < n ==> #[trigger] matrix_row(merged, i) == call.attended_row(i)
        }),
{
    let (h, d) = (call.num_heads, call.head_dim);
    let n = call.x.shape[0];
    let none: Option<Contents<E>> = None;
    lemma_heard(q, k, v, none, h, n, d, most);
    let t = scaled_dot_product_attention_result(q, k, v, none, d as int, most)->Ok_0;
    lemma_merged(t, n, h, d);
    let merged = merge_heads_result(t)->Ok_0;
    assert forall|i: int| 0 <= i < n implies #[trigger] matrix_row(merged, i) == call.attended_row(
        i,
    ) by {
        let expected = call.attended_row(i);
        assert forall|c: int| 0 <= c < h * d implies matrix_row(merged, i)[c] == expected[c] by {
            let x = c / d as int;
            let z = c % d as int;
            vstd::arithmetic::div_mod::lemma_fundamental_div_mod(c, d as int);
            assert(0 <= z < d && 0 <= x < h && c == x * d + z) by (nonlinear_arith)
                requires
                    0 <= c < h * d,
                    c == d * x + z,
                    z == c % d as int,
                    x == c / d as int,
                    d > 0,
            ;
            assert(at3(t, x, i, z) == at2(merged, i, x * d + z));
            assert(row_of(t, x, i)[z] == at3(t, x, i, z));
            assert(rows_of(k, x) =~= Seq::new(n as nat, |j: int| call.key(j, x)));
            assert(rows_of(v, x) =~= Seq::new(n as nat, |j: int| call.value(j, x)));
            assert(row_of(q, x, i) == call.query(i, x));
            assert(mask_row(none, i) is None);
        }
        assert(matrix_row(merged, i) =~= expected);
    }
}

/// Attention, token by token: every token hears the values of all tokens, each weighted by
/// the softmax of the scaled scores, and the last layer maps what it hears.
pub proof fn law_tokens_hear_each_other<E: Algebra>(call: AttentionArguments<E>, most: usize)
    requires
        call.fit(),
    ensures
        attention_result(
            call.x,
            call.weights,
            call.positions,
            call.num_heads,
            call.head_dim,
            call.theta,
            most,
        ) matches Ok(t) && is_matrix(t, call.x.shape[0], call.weights.out.weight.shape[0])
            && forall|i: int|
            0 <= i < call.x.shape[0] ==> #[trigger] matrix_row(t, i) == layer_row(
                call.attended_row(i),
                call.weights.out,
            ),
{
    let (h, d) = (call.num_heads, call.head_dim);
    let n = call.x.shape[0];
    let wide = (h * d) as usize;
    let w = call.weights;
    lemma_own_heads(call);
    let q0 = call.x.linear_image(w.q.weight, Some(w.q.bias))->Ok_0;
    let kv = call.x.linear_image(w.kv.weight, Some(w.kv.bias))->Ok_0;
    let parts = kv.halves()->Ok_0;
    let q1 = reshape_for_heads_result(q0, h, d)->Ok_0;
    let k1 = reshape_for_heads_result(parts.0, h, d)->Ok_0;
    let v = reshape_for_heads_result(parts.1, h, d)->Ok_0;
    let q = q1.rotated(call.positions, d as int, h as int, call.theta)->Ok_0;
    let k = k1.rotated(call.positions, d as int, h as int, call.theta)->Ok_0;
    lemma_own_attended(call, q, k, v, most as int);
    let none: Option<Contents<E>> = None;
    let t = scaled_dot_product_attention_result(q, k, v, none, d as int, most as int)->Ok_0;
    let merged = merge_heads_result(t)->Ok_0;
    assert(w.out.weight.shape =~= seq![w.out.weight.shape[0], wide]);
    lemma_layer_of_matrix(merged, w.out, n, wide, w.out.weight.shape[0]);
    let out = merged.linear_image(w.out.weight, Some(w.out.bias))->Ok_0;
    assert forall|i: int| 0 <= i < n implies #[trigger] matrix_row(out, i) == layer_row(
        call.attended_row(i),
        w.out,
    ) by {
        assert(matrix_row(merged, i) == call.attended_row(i));
    }
}

// ---------------------------------------------------------------------------
// Branches
// ---------------------------------------------------------------------------
/// Two matrices of the same shape, added element by element.
proof fn lemma_sum<E: Algebra>(s: Contents<E>, t: Contents<E>, a: usize, b: usize)
    requires
        is_matrix(s, a, b),
        is_matrix(t, a, b),
        fits(seq![a, b]),
    ensures
        s.sum(t) matches Ok(r) && is_matrix(r, a, b) && forall|y: int, z: int|
            0 <= y < a && 0 <= z < b ==> #[trigger] at2(r, y, z) == at2(s, y, z).plus(
                at2(t, y, z),
            ),
{
    let out = seq![a, b];
    assert(broadcastable(s.shape, t.shape));
    assert(broadcast_result(s.shape, t.shape) =~= out);
    lemma_size_two(a, b);
    lemma_size_nonnegative(out);
    let r = paired(s, t, |p: E, q: E| p.plus(q));
    assert forall|y: int, z: int| 0 <= y < a && 0 <= z < b implies #[trigger] at2(r, y, z)
        == at2(s, y, z).plus(at2(t, y, z)) by {
        lemma_place(y, z, a as int, b as int);
        let k = y * b + z;
        assert(out.skip(0) =~= out);
        lemma_suffix_source(out, out, k);
        vstd::arithmetic::div_mod::lemma_small_mod(k as nat, size(out) as nat);
    }
}

/// A matrix with every column multiplied by its weight.
proof fn lemma_weighted_columns<E: Algebra>(s: Contents<E>, w: Contents<E>, a: usize, b: usize)
    requires
        is_matrix(s, a, b),
        w.well_formed(),
        w.shape == seq![b],
        fits(seq![a, b]),
        a > 0,
    ensures
        s.product(w) matches Ok(r) && is_matrix(r, a, b) && forall|y: int, z: int|
            0 <= y < a && 0 <= z < b ==> #[trigger] at2(r, y, z) == at2(s, y, z).times(
                w.values[z],
            ),
{
    let out = seq![a, b];
    assert forall|axis: int| 0 <= axis < 2 implies {
        let l = #[trigger] aligned_dim(s.shape, 2, axis);
        let r = aligned_dim(w.shape, 2, axis);
        l == r || l == 1 || r == 1
    } by {}
    assert(broadcastable(s.shape, w.shape));
    assert(broadcast_result(s.shape, w.shape) =~= out);
    lemma_size_two(a, b);
    lemma_size_one(b);
    lemma_size_nonnegative(out);
    assert(size(w.shape) == b);
    assert(a * b > 0 ==> b > 0) by (nonlinear_arith)
        requires
            a > 0,
            b >= 0,
    ;
    let r = paired(s, w, |p: E, q: E| p.times(q));
    assert forall|y: int, z: int| 0 <= y < a && 0 <= z < b implies #[trigger] at2(r, y, z)
        == at2(s, y, z).times(w.values[z]) by {
        lemma_place(y, z, a as int, b as int);
        let k = y * b + z;
        assert(out.skip(0) =~= out);
        assert(out.skip(1) =~= seq![b]);
        lemma_suffix_source(out, out, k);
        lemma_suffix_source(out, seq![b], k);
        vstd::arithmetic::div_mod::lemma_small_mod(k as nat, size(out) as nat);
    }
}

/// The matrix whose rows are normed.
pub open spec fn normed_matrix<E: Algebra>(t: Contents<E>, weight: Seq<E>) -> Contents<E> {
    Contents {
        shape: t.shape,
        values: Seq::new(
            t.values.len(),
            |k: int|
                normed_row(matrix_row(t, k / t.shape[1] as int), weight)[k % t.shape[1] as int],
        ),
    }
}

/// What `rms_normed` gives is the matrix whose rows are normed.
proof fn lemma_normed_is<E: Algebra>(t: Contents<E>, w: Contents<E>, a: usize, b: usize)
    requires
        is_matrix(t, a, b),
        w.shape == seq![b],
    ensures
        t.rms_normed(w, RMS_NORM_EPS) == Ok::<Contents<E>, Seq<char>>(normed_matrix(t, w.values)),
{
    lemma_normed_matrix(t, w, a, b);
    let r = t.rms_normed(w, RMS_NORM_EPS)->Ok_0;
    let n = normed_matrix(t, w.values);
    lemma_size_two(a, b);
    lemma_size_nonnegative(t.shape);
    assert forall|k: int| 0 <= k < r.values.len() implies r.values[k] == n.values[k] by {
        let y = k / b as int;
        let z = k % b as int;
        assert(b > 0) by (nonlinear_arith)
            requires
                0 <= k < a * b,
                b >= 0,
        ;
        vstd::arithmetic::div_mod::lemma_fundamental_div_mod(k, b as int);
        assert(0 <= z < b && 0 <= y < a && k == y * b + z) by (nonlinear_arith)
            requires
                0 <= k < a * b,
                k == b * y + z,
                z == k % b as int,
                y == k / b as int,
                b > 0,
        ;
        assert(matrix_row(r, y) == normed_row(matrix_row(t, y), w.values));
        assert(matrix_row(r, y)[z] == r.values[k]);
    }
    assert(r.values =~= n.values);
    assert(r =~= n);
}

/// A stream with a gated branch: to every element its branch is added, which is what the
/// layer makes of the normed stream, multiplied by the weight of the column where there
/// are such weights, and by the factor unless it is one.
pub proof fn law_branch_is_added<E: Algebra, F: LayerModel<Contents<E>>>(
    x: Contents<E>,
    weights: ResidualGluWeights<Contents<E>, F>,
    factor: u32,
    branch: Contents<E>,
    a: usize,
    b: usize,
)
    requires
        a > 0,
        is_matrix(x, a, b),
        weights.norm.shape == seq![b],
        weights.layer_scale is Some ==> weights.layer_scale->0.well_formed()
            && weights.layer_scale->0.shape == seq![b],
        fits(seq![a, b]),
        weights.ffn.image(normed_matrix(x, weights.norm.values)) == Ok::<Contents<E>, Seq<char>>(
            branch,
        ),
        is_matrix(branch, a, b),
    ensures
        apply_residual_glu_result(x, weights, factor) matches Ok(r) && is_matrix(r, a, b)
            && forall|y: int, z: int|
            0 <= y < a && 0 <= z < b ==> #[trigger] at2(r, y, z) == at2(x, y, z).plus(
                {
                    let own = match weights.layer_scale {
                        Some(w) => at2(branch, y, z).times(w.values[z]),
                        None => at2(branch, y, z),
                    };
                    if factor == 0x3f80_0000 {
                        own
                    } else {
                        own.times_bits(factor)
                    }
                },
            ),
{
    lemma_normed_is(x, weights.norm, a, b);
    if weights.layer_scale is Some {
        lemma_weighted_columns(branch, weights.layer_scale->0, a, b);
    }
    let own = match weights.layer_scale {
        Some(w) => branch.product(w)->Ok_0,
        None => branch,
    };
    let scaled = if factor == 0x3f80_0000 {
        own
    } else {
        own.scaled(factor)->Ok_0
    };
    assert(is_matrix(scaled, a, b));
    lemma_sum(x, scaled, a, b);
    let r = x.sum(scaled)->Ok_0;
    lemma_size_two(a, b);
    assert forall|y: int, z: int| 0 <= y < a && 0 <= z < b implies #[trigger] at2(r, y, z)
        == at2(x, y, z).plus(
        {
            let own = match weights.layer_scale {
                Some(w) => at2(branch, y, z).times(w.values[z]),
                None => at2(branch, y, z),
            };
            if factor == 0x3f80_0000 {
                own
            } else {
                own.times_bits(factor)
            }
        },
    ) by {
        lemma_place(y, z, a as int, b as int);
        assert(at2(r, y, z) == at2(x, y, z).plus(at2(scaled, y, z)));
        if weights.layer_scale is Some {
            assert(at2(own, y, z) == at2(branch, y, z).times(weights.layer_scale->0.values[z]));
        }
    }
}

// ---------------------------------------------------------------------------
// Merging
// ---------------------------------------------------------------------------
/// Two matrices side by side.
proof fn lemma_side_by_side<E: Algebra>(
    s: Contents<E>,
    t: Contents<E>,
    n: usize,
    a: usize,
    b: usize,
)
    requires
        is_matrix(s, n, a),
        is_matrix(t, n, b),
        a + b <= usize::MAX,
        fits(seq![n, (a + b) as usize]),
    ensures
        Contents::joined(seq![s, t], 1) matches Ok(r) && is_matrix(r, n, (a + b) as usize)
            && forall|y: int|
            0 <= y < n ==> #[trigger] matrix_row(r, y) == matrix_row(s, y) + matrix_row(t, y),
{
    let parts = seq![s, t];
    let dims = lengths(parts, 1);
    assert(dims =~= seq![a as int, b as int]);
    reveal_with_fuel(part_offset, 3);
    assert(part_offset(dims, 0) == 0);
    assert(part_offset(dims, 1) == a);
    assert(part_offset(dims, 2) == a + b);
    reveal_with_fuel(parts_complaint, 3);
    assert(same_but(s.shape, s.shape, 1));
    assert(same_but(s.shape, t.shape, 1));
    assert(parts_complaint(parts, 1, 2) is None);
    assert(join_complaint(parts, 1) is None);
    let c = (a + b) as usize;
    let r = joined_contents(parts, 1);
    assert(r.shape =~= seq![n, c]);
    lemma_size_nonnegative(r.shape);
    assert forall|y: int| 0 <= y < n implies #[trigger] matrix_row(r, y) == matrix_row(s, y)
        + matrix_row(t, y) by {
        let expected = matrix_row(s, y) + matrix_row(t, y);
        assert forall|z: int| 0 <= z < c implies matrix_row(r, y)[z] == expected[z] by {
            let at = seq![y, z];
            lemma_flat_two(n, c, y, z);
            lemma_arranged_at(r.shape, |c: Seq<int>| joined_at(parts, 1, c), at);
            let q = choose|q: int| covers(dims, q, at[1]);
            let some = if z < a {
                0int
            } else {
                1int
            };
            assert(covers(dims, some, z));
            assert(covers(dims, q, z));
            if z < a {
                assert(q == 0);
                assert(at.update(1, z - 0) =~= seq![y, z]);
                lemma_flat_two(n, a, y, z);
            } else {
                assert(q == 1);
                assert(at.update(1, z - a) =~= seq![y, z - a]);
                lemma_flat_two(n, b, y, z - a);
            }
        }
        assert(matrix_row(r, y) =~= expected);
    }
}

/// The rows of a matrix.
pub open spec fn all_rows<E>(t: Contents<E>) -> Seq<Seq<E>> {
    Seq::new(t.shape[0] as nat, |y: int| matrix_row(t, y))
}

/// The first `m` weights of a channel, each times the feature of the row that it stands
/// on, where there is one; the first weight stands on row `first`.
pub open spec fn taps<E: Algebra>(
    rows: Seq<Seq<E>>,
    weights: Seq<E>,
    start: E,
    first: int,
    channel: int,
    m: int,
) -> E
    decreases m,
{
    if m <= 0 {
        start
    } else {
        let before = taps(rows, weights, start, first, channel, m - 1);
        if 0 <= first + (m - 1) < rows.len() {
            before.plus_product(rows[first + (m - 1)][channel], weights[m - 1])
        } else {
            before
        }
    }
}

/// Feature `c` of row `y` after smoothing: a weighted sum over the rows around it, as many
/// before as behind, and the feature itself.
pub open spec fn smoothed_feature<E: Algebra>(
    rows: Seq<Seq<E>>,
    dw: Option<DepthwiseWeights<Contents<E>>>,
    y: int,
    c: int,
) -> E {
    match dw {
        Some(w) => taps(
            rows,
            matrix_row(w.weight, c),
            match w.bias {
                Some(b) => b.values[c],
                None => E::zero(),
            },
            y - (w.weight.shape[1] - 1) / 2,
            c,
            w.weight.shape[1] as int,
        ).plus(rows[y][c]),
        None => rows[y][c],
    }
}

proof fn lemma_taps<E: Algebra>(
    x: Contents<E>,
    kernel: Contents<E>,
    start: E,
    first: int,
    channel: int,
    m: int,
    n: usize,
    c: usize,
    k: usize,
)
    requires
        is_matrix(x, n, c),
        is_matrix(kernel, c, k),
        0 <= channel < c,
        m <= k,
    ensures
        weighted(x, kernel, start, first, channel, m) == taps(
            all_rows(x),
            matrix_row(kernel, channel),
            start,
            first,
            channel,
            m,
        ),
    decreases m,
{
    if m > 0 {
        lemma_taps(x, kernel, start, first, channel, m - 1, n, c, k);
    }
}

/// The weights of a depthwise convolution fit `c` channels, and reach as far back as
/// ahead.
pub open spec fn dw_fits<E>(dw: Option<DepthwiseWeights<Contents<E>>>, c: usize) -> bool {
    dw matches Some(w) ==> {
        &&& is_matrix(w.weight, c, w.kernel_size)
        &&& w.kernel_size % 2 == 1
        &&& w.bias is Some ==> w.bias->0.shape == seq![c]
    }
}

proof fn lemma_smoothed<E: Algebra>(
    x: Contents<E>,
    dw: Option<DepthwiseWeights<Contents<E>>>,
    n: usize,
    c: usize,
)
    requires
        is_matrix(x, n, c),
        fits(seq![n, c]),
        dw_fits(dw, c),
        dw is Some ==> n + dw->0.kernel_size <= usize::MAX,
        n * c <= usize::MAX,
    ensures
        smoothed_result(x, dw) matches Ok(r) && is_matrix(r, n, c) && forall|y: int|
            0 <= y < n ==> #[trigger] matrix_row(r, y) == Seq::new(
                c as nat,
                |z: int| smoothed_feature(all_rows(x), dw, y, z),
            ),
{
    if dw is Some {
        let w = dw->0;
        let k = w.kernel_size as int;
        let pad = (k - 1) / 2;
        let t = conv_contents(x, w.weight, w.bias, 1, pad);
        assert(t.shape =~= seq![n, c]);
        assert(x.convolved(w.weight, w.bias, 1, pad) == Ok::<Contents<E>, Seq<char>>(t));
        lemma_size_two(n, c);
        lemma_size_nonnegative(t.shape);
        assert(is_matrix(t, n, c));
        lemma_sum(t, x, n, c);
        let r = t.sum(x)->Ok_0;
        assert forall|y: int| 0 <= y < n implies #[trigger] matrix_row(r, y) == Seq::new(
            c as nat,
            |z: int| smoothed_feature(all_rows(x), dw, y, z),
        ) by {
            let expected = Seq::new(
                c as nat,
                |z: int| smoothed_feature(all_rows(x), dw, y, z),
            );
            assert forall|z: int| 0 <= z < c implies matrix_row(r, y)[z] == expected[z] by {
                lemma_place(y, z, n as int, c as int);
                let start = match w.bias {
                    Some(b) => b.values[z],
                    None => E::zero(),
                };
                lemma_taps(x, w.weight, start, y - pad, z, k, n, c, w.kernel_size);
                assert(at2(r, y, z) == at2(t, y, z).plus(at2(x, y, z)));
                assert(all_rows(x)[y][z] == at2(x, y, z));
            }
            assert(matrix_row(r, y) =~= expected);
        }
    } else {
        assert forall|y: int| 0 <= y < n implies #[trigger] matrix_row(x, y) == Seq::new(
            c as nat,
            |z: int| smoothed_feature(all_rows(x), dw, y, z),
        ) by {
            assert(matrix_row(x, y) =~= Seq::new(
                c as nat,
                |z: int| smoothed_feature(all_rows(x), dw, y, z),
            ));
        }
    }
}

/// Merging, row by row: the features of attention are followed by those of the branch,
/// smoothed along the sequence where there are weights for it, and mapped by the layer.
pub proof fn law_streams_are_merged<E: Algebra>(
    attn: Contents<E>,
    branch: Contents<E>,
    weights: MergeWeights<Contents<E>>,
    n: usize,
    a: usize,
    b: usize,
    o: usize,
)
    requires
        is_matrix(attn, n, a),
        is_matrix(branch, n, b),
        a + b <= usize::MAX,
        fits(seq![n, (a + b) as usize]),
        n * (a + b) <= usize::MAX,
        fits(seq![n, o]),
        dw_fits(weights.dw, (a + b) as usize),
        weights.dw is Some ==> n + weights.dw->0.kernel_size <= usize::MAX,
        is_matrix(weights.linear.weight, o, (a + b) as usize),
        weights.linear.bias.shape == seq![o],
    ensures
        ({
            let rows = Seq::new(
                n as nat,
                |y: int| matrix_row(attn, y) + matrix_row(branch, y),
            );
            &&& merge_stream_result(attn, branch, weights) matches Ok(r)
            &&& is_matrix(r, n, o)
            &&& forall|y: int|
                0 <= y < n ==> #[trigger] matrix_row(r, y) == layer_row(
                    Seq::new(
                        (a + b) as nat,
                        |c: int| smoothed_feature(rows, weights.dw, y, c),
                    ),
                    weights.linear,
                )
        }),
{
    let c = (a + b) as usize;
    lemma_side_by_side(attn, branch, n, a, b);
    let merged = Contents::joined(seq![attn, branch], 1)->Ok_0;
    let rows = Seq::new(n as nat, |y: int| matrix_row(attn, y) + matrix_row(branch, y));
    assert(all_rows(merged) =~= rows);
    lemma_smoothed(merged, weights.dw, n, c);
    let smooth = smoothed_result(merged, weights.dw)->Ok_0;
    lemma_layer_of_matrix(smooth, weights.linear, n, c, o);
    let r = smooth.linear_image(weights.linear.weight, Some(weights.linear.bias))->Ok_0;
    assert forall|y: int| 0 <= y < n implies #[trigger] matrix_row(r, y) == layer_row(
        Seq::new((a + b) as nat, |c: int| smoothed_feature(rows, weights.dw, y, c)),
        weights.linear,
    ) by {
        assert(matrix_row(smooth, y) =~= Seq::new(
            (a + b) as nat,
            |c: int| smoothed_feature(rows, weights.dw, y, c),
        ));
    }
}

// ---------------------------------------------------------------------------
// Whole blocks
// ---------------------------------------------------------------------------
/// Attention beside a branch: both take the stream, normed with weights of their own, and
/// are merged, attention first.
pub proof fn law_attention_stands_beside_its_branch<E: Algebra, L: LayerModel<Contents<E>>>(
    x: Contents<E>,
    weights: PacWeights<Contents<E>, L>,
    positions: Seq<i32>,
    num_heads: usize,
    head_dim: usize,
    theta: u32,
    most: usize,
    a: Contents<E>,
    c: Contents<E>,
    n: usize,
    d: usize,
)
    requires
        is_matrix(x, n, d),
        weights.a_norm.shape == seq![d],
        weights.c_norm.shape == seq![d],
        attention_result(
            normed_matrix(x, weights.a_norm.values),
            weights.attn,
            positions,
            num_heads,
            head_dim,
            theta,
            most,
        ) == Ok::<Contents<E>, Seq<char>>(a),
        weights.cgmlp.image(normed_matrix(x, weights.c_norm.values)) == Ok::<
            Contents<E>,
            Seq<char>,
        >(c),
    ensures
        pac_result(x, weights, positions, num_heads, head_dim, theta, most) == merge_stream_result(
            a,
            c,
            weights.merge,
        ),
{
    lemma_normed_is(x, weights.a_norm, n, d);
    lemma_normed_is(x, weights.c_norm, n, d);
}

/// Joint attention beside branches: it takes both streams as they are; the branch of a
/// stream takes that stream, normed, and is merged with what comes of the same stream.
pub proof fn law_joint_attention_stands_beside_its_branches<
    E: Algebra,
    L: LayerModel<Contents<E>>,
>(
    pool: Contents<E>,
    x: Contents<E>,
    weights: PjacWeights<Contents<E>, L>,
    positions: Seq<i32>,
    region_ids: Seq<i32>,
    mask: Contents<E>,
    num_heads: usize,
    head_dim: usize,
    theta: u32,
    most: usize,
    attn: JointAttentionOutput<Contents<E>>,
    c_pool: Contents<E>,
    c_x: Contents<E>,
    p: usize,
    n: usize,
    d: usize,
)
    requires
        is_matrix(pool, p, d),
        is_matrix(x, n, d),
        weights.c_norm_pool.shape == seq![d],
        weights.c_norm_x.shape == seq![d],
        joint_attention_result(
            pool,
            x,
            weights.jattn,
            positions,
            region_ids,
            mask,
            num_heads,
            head_dim,
            theta,
            most,
        ) == Ok::<JointAttentionOutput<Contents<E>>, Seq<char>>(attn),
        weights.cgmlp_pool.image(normed_matrix(pool, weights.c_norm_pool.values)) == Ok::<
            Contents<E>,
            Seq<char>,
        >(c_pool),
        weights.cgmlp_x.image(normed_matrix(x, weights.c_norm_x.values)) == Ok::<
            Contents<E>,
            Seq<char>,
        >(c_x),
        merge_stream_result(attn.pool, c_pool, weights.merge_pool) is Ok,
        merge_stream_result(attn.x, c_x, weights.merge_x) is Ok,
    ensures
        pjac_result(
            pool,
            x,
            weights,
            positions,
            region_ids,
            mask,
            num_heads,
            head_dim,
            theta,
            most,
        ) matches Ok(o) && Ok::<Contents<E>, Seq<char>>(o.pool) == merge_stream_result(
            attn.pool,
            c_pool,
            weights.merge_pool,
        ) && Ok::<Contents<E>, Seq<char>>(o.x) == merge_stream_result(
            attn.x,
            c_x,
            weights.merge_x,
        ),
{
    lemma_normed_is(pool, weights.c_norm_pool, p, d);
    lemma_normed_is(x, weights.c_norm_x, n, d);
}

/// `t` is the stream after its gated branch, where there is one.
pub open spec fn is_after_branch<E: Algebra, F: LayerModel<Contents<E>>>(
    x: Contents<E>,
    branch: Option<ResidualGluWeights<Contents<E>, F>>,
    factor: u32,
    t: Contents<E>,
) -> bool {
    match branch {
        Some(w) => apply_residual_glu_result(x, w, factor) == Ok::<Contents<E>, Seq<char>>(t),
        None => t == x,
    }
}

/// `t` is the stream with what attention gives added, times the weight of the column where
/// there are such weights.
pub open spec fn is_added<E: Algebra>(
    x: Contents<E>,
    a: Contents<E>,
    scale: Option<Contents<E>>,
    t: Contents<E>,
) -> bool {
    &&& is_matrix(t, x.shape[0], x.shape[1])
    &&& forall|y: int, z: int|
        0 <= y < x.shape[0] && 0 <= z < x.shape[1] ==> #[trigger] at2(t, y, z) == at2(
            x,
            y,
            z,
        ).plus(
            match scale {
                Some(w) => at2(a, y, z).times(w.values[z]),
                None => at2(a, y, z),
            },
        )
}

proof fn lemma_added<E: Algebra>(
    x: Contents<E>,
    a: Contents<E>,
    scale: Option<Contents<E>>,
    t: Contents<E>,
    n: usize,
    d: usize,
)
    requires
        n > 0,
        is_matrix(x, n, d),
        is_matrix(a, n, d),
        fits(seq![n, d]),
        scale is Some ==> scale->0.well_formed() && scale->0.shape == seq![d],
        is_added(x, a, scale, t),
    ensures
        ({
            let own: Result<Contents<E>, Seq<char>> = match scale {
                Some(w) => a.product(w),
                None => Ok(a),
            };
            own is Ok && x.sum(own->Ok_0) == Ok::<Contents<E>, Seq<char>>(t)
        }),
{
    if scale is Some {
        lemma_weighted_columns(a, scale->0, n, d);
    }
    let own = match scale {
        Some(w) => a.product(w)->Ok_0,
        None => a,
    };
    lemma_sum(x, own, n, d);
    let r = x.sum(own)->Ok_0;
    lemma_size_two(n, d);
    lemma_size_nonnegative(seq![n, d]);
    assert forall|k: int| 0 <= k < r.values.len() implies r.values[k] == t.values[k] by {
        let y = k / d as int;
        let z = k % d as int;
        assert(d > 0) by (nonlinear_arith)
            requires
                0 <= k < n * d,
                d >= 0,
        ;
        vstd::arithmetic::div_mod::lemma_fundamental_div_mod(k, d as int);
        assert(0 <= z < d && 0 <= y < n && k == y * d + z) by (nonlinear_arith)
            requires
                0 <= k < n * d,
                k == d * y + z,
                z == k % d as int,
                y == k / d as int,
                d > 0,
        ;
        assert(at2(r, y, z) == at2(x, y, z).plus(at2(own, y, z)));
        assert(at2(t, y, z) == r.values[k]) by {
            if scale is Some {
                assert(at2(own, y, z) == at2(a, y, z).times(scale->0.values[z]));
            }
        }
    }
    assert(r.values =~= t.values);
    assert(r =~= t);
}

/// A block: a gated branch at half weight, attention beside its branch added, and another
/// gated branch at half weight.
pub proof fn law_block_adds_attention<
    E: Algebra,
    L: LayerModel<Contents<E>>,
    F: LayerModel<Contents<E>>,
>(
    x: Contents<E>,
    weights: EbfBlockWeights<Contents<E>, L, F>,
    positions: Seq<i32>,
    num_heads: usize,
    head_dim: usize,
    theta: u32,
    most: usize,
    x1: Contents<E>,
    a: Contents<E>,
    x2: Contents<E>,
    x3: Contents<E>,
    n: usize,
    d: usize,
)
    requires
        n > 0,
        fits(seq![n, d]),
        is_after_branch(x, weights.ffn1, 0x3f00_0000, x1),
        is_matrix(x1, n, d),
        pac_result(x1, weights.pac, positions, num_heads, head_dim, theta, most) == Ok::<
            Contents<E>,
            Seq<char>,
        >(a),
        is_matrix(a, n, d),
        weights.pac_layer_scale is Some ==> weights.pac_layer_scale->0.well_formed()
            && weights.pac_layer_scale->0.shape == seq![d],
        is_added(x1, a, weights.pac_layer_scale, x2),
        is_after_branch(x2, weights.ffn2, 0x3f00_0000, x3),
    ensures
        ebf_block_result(x, weights, positions, num_heads, head_dim, theta, most) == Ok::<
            Contents<E>,
            Seq<char>,
        >(x3),
{
    lemma_added(x1, a, weights.pac_layer_scale, x2, n, d);
}

/// A block of two streams: a gated branch of each, joint attention beside its branches
/// added to each, and another gated branch of each.
pub proof fn law_joint_block_adds_attention<
    E: Algebra,
    L: LayerModel<Contents<E>>,
    F: LayerModel<Contents<E>>,
>(
    pool: Contents<E>,
    x: Contents<E>,
    weights: JebfBlockWeights<Contents<E>, L, F>,
    positions: Seq<i32>,
    region_ids: Seq<i32>,
    mask: Contents<E>,
    num_heads: usize,
    head_dim: usize,
    theta: u32,
    most: usize,
    pool1: Contents<E>,
    x1: Contents<E>,
    attn: JointAttentionOutput<Contents<E>>,
    pool2: Contents<E>,
    x2: Contents<E>,
    o: JointAttentionOutput<Contents<E>>,
    p: usize,
    n: usize,
    d: usize,
)
    requires
        p > 0,
        n > 0,
        fits(seq![p, d]),
        fits(seq![n, d]),
        is_after_branch(pool, weights.ffn1_pool, 0x3f80_0000, pool1),
        is_after_branch(x, weights.ffn1_x, 0x3f80_0000, x1),
        is_matrix(pool1, p, d),
        is_matrix(x1, n, d),
        pjac_result(
            pool1,
            x1,
            weights.pjac,
            positions,
            region_ids,
            mask,
            num_heads,
            head_dim,
            theta,
            most,
        ) == Ok::<JointAttentionOutput<Contents<E>>, Seq<char>>(attn),
        is_matrix(attn.pool, p, d),
        is_matrix(attn.x, n, d),
        weights.pjac_layer_scale_pool is Some ==> weights.pjac_layer_scale_pool->0.well_formed()
            && weights.pjac_layer_scale_pool->0.shape == seq![d],
        weights.pjac_layer_scale_x is Some ==> weights.pjac_layer_scale_x->0.well_formed()
            && weights.pjac_layer_scale_x->0.shape == seq![d],
        is_added(pool1, attn.pool, weights.pjac_layer_scale_pool, pool2),
        is_added(x1, attn.x, weights.pjac_layer_scale_x, x2),
        is_after_branch(pool2, weights.ffn2_pool, 0x3f80_0000, o.pool),
        is_after_branch(x2, weights.ffn2_x, 0x3f80_0000, o.x),
    ensures
        jebf_block_result(
            pool,
            x,
            weights,
            positions,
            region_ids,
            mask,
            num_heads,
            head_dim,
            theta,
            most,
        ) == Ok::<JointAttentionOutput<Contents<E>>, Seq<char>>(o),
{
    lemma_added(pool1, attn.pool, weights.pjac_layer_scale_pool, pool2, p, d);
    lemma_added(x1, attn.x, weights.pjac_layer_scale_x, x2, n, d);
}

} // verus!
