//! The blocks of the networks, written over any tensors: which operations are
//! applied to what, and what is said where one of them fails.
use vstd::prelude::*;
use vstd::string::*;

use crate::error::Error;
use crate::tensor::ops::{modelled, models, optional_model, Layer, LayerModel, Tensor, TensorModel};
use crate::tensor::shape::{capped, saturating_product};
use crate::text::{
    decimal, list_text, push_decimal, push_list, push_signed, push_wide_decimal, signed_decimal,
};

verus! {

/// The bit pattern of one millionth.
pub const RMS_NORM_EPS: u32 = 0x3586_37bd;

/// The bit pattern of one half.
pub const HALF: u32 = 0x3f00_0000;

/// The bit pattern of one.
pub const ONE: u32 = 0x3f80_0000;

/// How many attention scores are held at once, unless something else is asked for.
pub const MAX_ATTENTION_SCORE_ELEMENTS: usize = 32_000_000;

// ---------------------------------------------------------------------------
// Weights
// ---------------------------------------------------------------------------
pub struct LinearWeights<T> {
    pub weight: T,
    pub bias: T,
}

pub struct AttentionWeights<T> {
    pub q: LinearWeights<T>,
    pub kv: LinearWeights<T>,
    pub out: LinearWeights<T>,
}

pub struct QkNormWeights<T> {
    pub q: T,
    pub k: T,
}

pub struct JointStreamWeights<T> {
    pub norm: T,
    pub qkv: LinearWeights<T>,
    pub qk_norm: Option<QkNormWeights<T>>,
    pub out: LinearWeights<T>,
}

pub struct JointAttentionWeights<T> {
    pub pool: JointStreamWeights<T>,
    pub x: JointStreamWeights<T>,
}

pub struct DepthwiseWeights<T> {
    pub weight: T,
    pub bias: Option<T>,
    pub kernel_size: usize,
}

pub struct MergeWeights<T> {
    pub dw: Option<DepthwiseWeights<T>>,
    pub linear: LinearWeights<T>,
}

pub struct PacWeights<T, L> {
    pub a_norm: T,
    pub attn: AttentionWeights<T>,
    pub c_norm: T,
    pub cgmlp: L,
    pub merge: MergeWeights<T>,
}

pub struct PjacWeights<T, L> {
    pub jattn: JointAttentionWeights<T>,
    pub c_norm_pool: T,
    pub c_norm_x: T,
    pub cgmlp_pool: L,
    pub cgmlp_x: L,
    pub merge_pool: MergeWeights<T>,
    pub merge_x: MergeWeights<T>,
}

pub struct ResidualGluWeights<T, F> {
    pub norm: T,
    pub ffn: F,
    pub layer_scale: Option<T>,
}

pub struct EbfBlockWeights<T, L, F> {
    pub ffn1: Option<ResidualGluWeights<T, F>>,
    pub pac: PacWeights<T, L>,
    pub pac_layer_scale: Option<T>,
    pub ffn2: Option<ResidualGluWeights<T, F>>,
}

pub struct JebfBlockWeights<T, L, F> {
    pub ffn1_x: Option<ResidualGluWeights<T, F>>,
    pub ffn1_pool: Option<ResidualGluWeights<T, F>>,
    pub pjac: PjacWeights<T, L>,
    pub pjac_layer_scale_x: Option<T>,
    pub pjac_layer_scale_pool: Option<T>,
    pub ffn2_x: Option<ResidualGluWeights<T, F>>,
    pub ffn2_pool: Option<ResidualGluWeights<T, F>>,
}

/// What joint attention makes of the pool and of the sequence.
#[derive(Clone, Debug)]
pub struct JointAttentionOutput<T> {
    pub pool: T,
    pub x: T,
}

// ---------------------------------------------------------------------------
// What weights hold
// ---------------------------------------------------------------------------
/// What the tensor holds, where there is one.
pub open spec fn held<T: Tensor>(t: Option<T>) -> Option<T::Model> {
    match t {
        Some(t) => Some(t.model()),
        None => None,
    }
}

impl<T: Tensor> LinearWeights<T> {
    pub open spec fn model(&self) -> LinearWeights<T::Model> {
        LinearWeights { weight: self.weight.model(), bias: self.bias.model() }
    }
}

impl<T: Tensor> LayerModel<T::Model> for LinearWeights<T> {
    open spec fn image(&self, x: T::Model) -> Result<T::Model, Seq<char>> {
        x.linear_image(self.weight.model(), Some(self.bias.model()))
    }
}

/// A linear layer can stand where any layer does.
impl<T: Tensor> Layer<T> for LinearWeights<T> {
    fn apply(&self, x: &T) -> Result<T, Error> {
        x.linear(&self.weight, Some(&self.bias))
    }
}

impl<T: Tensor> AttentionWeights<T> {
    pub open spec fn model(&self) -> AttentionWeights<T::Model> {
        AttentionWeights { q: self.q.model(), kv: self.kv.model(), out: self.out.model() }
    }
}

impl<T: Tensor> JointStreamWeights<T> {
    pub open spec fn model(&self) -> JointStreamWeights<T::Model> {
        JointStreamWeights {
            norm: self.norm.model(),
            qkv: self.qkv.model(),
            qk_norm: qk_norms(self.qk_norm),
            out: self.out.model(),
        }
    }
}

pub open spec fn qk_norms<T: Tensor>(w: Option<QkNormWeights<T>>) -> Option<
    QkNormWeights<T::Model>,
> {
    match w {
        Some(n) => Some(QkNormWeights { q: n.q.model(), k: n.k.model() }),
        None => None,
    }
}

impl<T: Tensor> JointAttentionWeights<T> {
    pub open spec fn model(&self) -> JointAttentionWeights<T::Model> {
        JointAttentionWeights { pool: self.pool.model(), x: self.x.model() }
    }
}

pub open spec fn depthwise<T: Tensor>(w: Option<DepthwiseWeights<T>>) -> Option<
    DepthwiseWeights<T::Model>,
> {
    match w {
        Some(w) => Some(
            DepthwiseWeights {
                weight: w.weight.model(),
                bias: held(w.bias),
                kernel_size: w.kernel_size,
            },
        ),
        None => None,
    }
}

impl<T: Tensor> MergeWeights<T> {
    pub open spec fn model(&self) -> MergeWeights<T::Model> {
        MergeWeights { dw: depthwise(self.dw), linear: self.linear.model() }
    }
}

impl<T: Tensor, L> PacWeights<T, L> {
    pub open spec fn model(&self) -> PacWeights<T::Model, L> {
        PacWeights {
            a_norm: self.a_norm.model(),
            attn: self.attn.model(),
            c_norm: self.c_norm.model(),
            cgmlp: self.cgmlp,
            merge: self.merge.model(),
        }
    }
}

impl<T: Tensor, L> PjacWeights<T, L> {
    pub open spec fn model(&self) -> PjacWeights<T::Model, L> {
        PjacWeights {
            jattn: self.jattn.model(),
            c_norm_pool: self.c_norm_pool.model(),
            c_norm_x: self.c_norm_x.model(),
            cgmlp_pool: self.cgmlp_pool,
            cgmlp_x: self.cgmlp_x,
            merge_pool: self.merge_pool.model(),
            merge_x: self.merge_x.model(),
        }
    }
}

impl<T: Tensor, F> ResidualGluWeights<T, F> {
    pub open spec fn model(&self) -> ResidualGluWeights<T::Model, F> {
        ResidualGluWeights {
            norm: self.norm.model(),
            ffn: self.ffn,
            layer_scale: held(self.layer_scale),
        }
    }
}

pub open spec fn residual_glu<T: Tensor, F>(w: Option<ResidualGluWeights<T, F>>) -> Option<
    ResidualGluWeights<T::Model, F>,
> {
    match w {
        Some(w) => Some(w.model()),
        None => None,
    }
}

impl<T: Tensor, L, F> EbfBlockWeights<T, L, F> {
    pub open spec fn model(&self) -> EbfBlockWeights<T::Model, L, F> {
        EbfBlockWeights {
            ffn1: residual_glu(self.ffn1),
            pac: self.pac.model(),
            pac_layer_scale: held(self.pac_layer_scale),
            ffn2: residual_glu(self.ffn2),
        }
    }
}

impl<T: Tensor, L, F> JebfBlockWeights<T, L, F> {
    pub open spec fn model(&self) -> JebfBlockWeights<T::Model, L, F> {
        JebfBlockWeights {
            ffn1_x: residual_glu(self.ffn1_x),
            ffn1_pool: residual_glu(self.ffn1_pool),
            pjac: self.pjac.model(),
            pjac_layer_scale_x: held(self.pjac_layer_scale_x),
            pjac_layer_scale_pool: held(self.pjac_layer_scale_pool),
            ffn2_x: residual_glu(self.ffn2_x),
            ffn2_pool: residual_glu(self.ffn2_pool),
        }
    }
}

impl<T: Tensor> JointAttentionOutput<T> {
    pub open spec fn model(&self) -> JointAttentionOutput<T::Model> {
        JointAttentionOutput { pool: self.pool.model(), x: self.x.model() }
    }
}

/// A result with what the streams hold, and the error as its text.
pub open spec fn modelled_output<T: Tensor>(r: Result<JointAttentionOutput<T>, Error>) -> Result<
    JointAttentionOutput<T::Model>,
    Seq<char>,
> {
    match r {
        Ok(t) => Ok(t.model()),
        Err(e) => Err(e@),
    }
}

// ---------------------------------------------------------------------------
// Checks
// ---------------------------------------------------------------------------
fn fail(what: &str, e: Error) -> (r: Error)
    ensures
        r@ == what@ + e@,
{
    let mut text = String::from_str(what);
    text.append(&e.text);
    Error::from_text(text)
}

/// What is wrong with the heads.
pub open spec fn head_error(num_heads: int, head_dim: int) -> Option<Seq<char>> {
    if num_heads == 0 {
        Some("attention requires num_heads > 0"@)
    } else if head_dim == 0 {
        Some("attention requires head_dim > 0"@)
    } else {
        None
    }
}

/// Checks the heads.
pub fn validate_head_config(num_heads: usize, head_dim: usize) -> (r: Result<(), Error>)
    ensures
        match r {
            Ok(_) => head_error(num_heads as int, head_dim as int) is None,
            Err(e) => head_error(num_heads as int, head_dim as int) == Some(e@),
        },
{
    if num_heads == 0 {
        return Err(Error::message("attention requires num_heads > 0"));
    }
    if head_dim == 0 {
        return Err(Error::message("attention requires head_dim > 0"));
    }
    Ok(())
}

/// What is said of a tensor that is no sequence.
pub open spec fn sequence_text(label: Seq<char>, shape: Seq<usize>) -> Seq<char> {
    label + " expects a rank-2 tensor shaped [seq_len, dim], got "@ + list_text(shape)
}

/// Checks that a tensor is a sequence.
pub fn validate_sequence_2d(label: &str, shape: &[usize]) -> (r: Result<(), Error>)
    ensures
        match r {
            Ok(_) => shape.len() == 2,
            Err(e) => shape.len() != 2 && e@ == sequence_text(label@, shape@),
        },
{
    if shape.len() != 2 {
        let mut text = String::from_str(label);
        text.append(" expects a rank-2 tensor shaped [seq_len, dim], got ");
        push_list(&mut text, shape);
        return Err(Error::from_text(text));
    }
    Ok(())
}

// ---------------------------------------------------------------------------
// Heads
// ---------------------------------------------------------------------------
pub open spec fn head_dim_text(expected: nat, shape: Seq<usize>) -> Seq<char> {
    "reshape_for_heads expected last dim "@ + decimal(expected) + ", got shape "@ + list_text(shape)
}

/// A sequence with its features split among heads, the heads first.
pub open spec fn reshape_for_heads_result<T: TensorModel>(
    t: T,
    num_heads: usize,
    head_dim: usize,
) -> Result<T, Seq<char>> {
    let shape = t.dims();
    if shape.len() != 2 {
        Err(sequence_text("reshape_for_heads"@, shape))
    } else if num_heads * head_dim > usize::MAX {
        Err("attention projection dimension overflow"@)
    } else if shape[1] != num_heads * head_dim {
        Err(head_dim_text((num_heads * head_dim) as nat, shape))
    } else {
        match t.reshaped(seq![shape[0], num_heads, head_dim]) {
            Err(e) => Err("reshape_for_heads failed: "@ + e),
            Ok(split) => match split.transposed(0, 1) {
                Err(e) => Err("reshape_for_heads failed: "@ + e),
                Ok(heads) => Ok(heads),
            },
        }
    }
}

/// Splits the features of a sequence among heads.
pub fn reshape_for_heads<T: Tensor>(t: &T, num_heads: usize, head_dim: usize) -> (r: Result<
    T,
    Error,
>)
    ensures
        modelled(r) == reshape_for_heads_result(t.model(), num_heads, head_dim),
{
    let shape = t.shape();
    if let Err(e) = validate_sequence_2d("reshape_for_heads", &shape) {
        return Err(e);
    }
    let expected: usize = match num_heads.checked_mul(head_dim) {
        Some(n) => n,
        None => {
            return Err(Error::message("attention projection dimension overflow"));
        },
    };
    if shape[1] != expected {
        let mut text = String::from_str("reshape_for_heads expected last dim ");
        push_decimal(&mut text, expected as u64);
        text.append(", got shape ");
        push_list(&mut text, &shape);
        return Err(Error::from_text(text));
    }
    let mut split_shape: Vec<usize> = Vec::new();
    split_shape.push(shape[0]);
    split_shape.push(num_heads);
    split_shape.push(head_dim);
    assert(split_shape@ =~= seq![shape@[0], num_heads, head_dim]);
    let split = match t.reshape(&split_shape) {
        Ok(t) => t,
        Err(e) => {
            return Err(fail("reshape_for_heads failed: ", e));
        },
    };
    match split.transpose(0, 1) {
        Ok(t) => Ok(t),
        Err(e) => Err(fail("reshape_for_heads failed: ", e)),
    }
}

/// The heads put side by side again.
pub open spec fn merge_heads_result<T: TensorModel>(t: T) -> Result<T, Seq<char>> {
    let shape = t.dims();
    if shape.len() != 3 {
        Err("merge_heads expects [num_heads, seq_len, head_dim], got "@ + list_text(shape))
    } else if shape[0] * shape[2] > usize::MAX {
        Err("merge_heads dimension overflow"@)
    } else {
        match t.transposed(0, 1) {
            Err(e) => Err("merge_heads failed: "@ + e),
            Ok(rows) => match rows.reshaped(seq![shape[1], (shape[0] * shape[2]) as usize]) {
                Err(e) => Err("merge_heads failed: "@ + e),
                Ok(merged) => Ok(merged),
            },
        }
    }
}

/// Puts the heads side by side again.
pub fn merge_heads<T: Tensor>(t: &T) -> (r: Result<T, Error>)
    ensures
        modelled(r) == merge_heads_result(t.model()),
{
    let shape = t.shape();
    if shape.len() != 3 {
        let mut text = String::from_str(
            "merge_heads expects [num_heads, seq_len, head_dim], got ",
        );
        push_list(&mut text, &shape);
        return Err(Error::from_text(text));
    }
    let merged_dim: usize = match shape[0].checked_mul(shape[2]) {
        Some(n) => n,
        None => {
            return Err(Error::message("merge_heads dimension overflow"));
        },
    };
    let rows = match t.transpose(0, 1) {
        Ok(t) => t,
        Err(e) => {
            return Err(fail("merge_heads failed: ", e));
        },
    };
    let mut merged_shape: Vec<usize> = Vec::new();
    merged_shape.push(shape[1]);
    merged_shape.push(merged_dim);
    assert(merged_shape@ =~= seq![shape@[1], (shape@[0] * shape@[2]) as usize]);
    match rows.reshape(&merged_shape) {
        Ok(t) => Ok(t),
        Err(e) => Err(fail("merge_heads failed: ", e)),
    }
}

/// The tensor, normed where there are weights for it.
pub open spec fn optional_norm_result<T: TensorModel>(
    t: T,
    norm: Option<T>,
    label: Seq<char>,
) -> Result<T, Seq<char>> {
    match norm {
        Some(w) => match t.rms_normed(w, RMS_NORM_EPS) {
            Err(e) => Err(label + " failed: "@ + e),
            Ok(n) => Ok(n),
        },
        None => Ok(t),
    }
}

fn apply_optional_qk_norm<T: Tensor>(t: T, norm: Option<&T>, label: &str) -> (r: Result<T, Error>)
    ensures
        modelled(r) == optional_norm_result(t.model(), optional_model(norm), label@),
{
    match norm {
        Some(w) => match t.rms_norm(w, RMS_NORM_EPS) {
            Ok(n) => Ok(n),
            Err(e) => {
                let mut text = String::from_str(label);
                text.append(" failed: ");
                text.append(&e.text);
                Err(Error::from_text(text))
            },
        },
        None => Ok(t),
    }
}

pub open spec fn q_norm_of<T>(w: Option<QkNormWeights<T>>) -> Option<T> {
    match w {
        Some(n) => Some(n.q),
        None => None,
    }
}

pub open spec fn k_norm_of<T>(w: Option<QkNormWeights<T>>) -> Option<T> {
    match w {
        Some(n) => Some(n.k),
        None => None,
    }
}

fn q_norm<T: Tensor>(w: &Option<QkNormWeights<T>>) -> (r: Option<&T>)
    ensures
        optional_model(r) == q_norm_of(qk_norms(*w)),
{
    match w {
        Some(n) => Some(&n.q),
        None => None,
    }
}

fn k_norm<T: Tensor>(w: &Option<QkNormWeights<T>>) -> (r: Option<&T>)
    ensures
        optional_model(r) == k_norm_of(qk_norms(*w)),
{
    match w {
        Some(n) => Some(&n.k),
        None => None,
    }
}

// ---------------------------------------------------------------------------
// Attention over heads
// ---------------------------------------------------------------------------
/// The number of query rows that are worked on at once, so that no more than `most`
/// scores are held, but always one row at least.
pub open spec fn query_rows(heads: int, queries: int, keys: int, most: int) -> int {
    if heads == 0 || queries == 0 || keys == 0 || capped(capped(heads * queries) * keys) <= most {
        queries
    } else {
        let rows = most / capped(heads * keys);
        if rows < 1 {
            1
        } else if rows < queries {
            rows
        } else {
            queries
        }
    }
}

/// Chooses the number of query rows that are worked on at once.
pub fn choose_attention_query_chunk_len(
    num_heads: usize,
    query_len: usize,
    key_len: usize,
    most: usize,
) -> (rows: usize)
    ensures
        rows == query_rows(num_heads as int, query_len as int, key_len as int, most as int),
        rows <= query_len,
        query_len > 0 ==> rows > 0,
{
    if num_heads == 0 || query_len == 0 || key_len == 0 {
        return query_len;
    }
    let scores: usize = saturating_product(saturating_product(num_heads, query_len), key_len);
    if scores <= most {
        return query_len;
    }
    let row: usize = saturating_product(num_heads, key_len);
    assert(num_heads * key_len >= 1) by (nonlinear_arith)
        requires
            num_heads >= 1,
            key_len >= 1,
    ;
    let rows: usize = most / row;
    if rows < 1 {
        1
    } else if rows < query_len {
        rows
    } else {
        query_len
    }
}

/// No more scores are held at once than is asked for, but where a single row of
/// queries has more of them.
pub proof fn law_scores_are_bounded(heads: int, queries: int, keys: int, most: int)
    requires
        0 < heads <= usize::MAX,
        0 < queries <= usize::MAX,
        0 < keys <= usize::MAX,
        0 <= most < usize::MAX,
    ensures
        1 <= query_rows(heads, queries, keys, most) <= queries,
        heads * query_rows(heads, queries, keys, most) * keys <= most || query_rows(
            heads,
            queries,
            keys,
            most,
        ) == 1,
{
    let all = heads * queries;
    assert(all >= 1) by (nonlinear_arith)
        requires
            heads >= 1,
            queries >= 1,
            all == heads * queries,
    ;
    if capped(capped(all) * keys) <= most {
        assert(capped(all) >= 1);
        if all > usize::MAX {
            assert(capped(all) * keys >= usize::MAX) by (nonlinear_arith)
                requires
                    capped(all) == usize::MAX,
                    keys >= 1,
            ;
        }
        assert(heads * queries * keys <= most);
    } else {
        let row = heads * keys;
        assert(row >= 1) by (nonlinear_arith)
            requires
                heads >= 1,
                keys >= 1,
                row == heads * keys,
        ;
        let rows = most / capped(row);
        if rows >= 1 {
            assert(rows * capped(row) <= most) by (nonlinear_arith)
                requires
                    rows == most / capped(row),
                    capped(row) >= 1,
                    most >= 0,
            ;
            if row > usize::MAX {
                assert(rows * capped(row) >= usize::MAX) by (nonlinear_arith)
                    requires
                        rows >= 1,
                        capped(row) == usize::MAX,
                ;
            }
            let n = query_rows(heads, queries, keys, most);
            assert(heads * n * keys <= rows * row) by (nonlinear_arith)
                requires
                    0 <= n <= rows,
                    row == heads * keys,
                    row >= 1,
            ;
        }
    }
}

/// What a block of queries attends to.
pub open spec fn attend_result<T: TensorModel>(
    q: T,
    k_t: T,
    v: T,
    mask: Option<T>,
    head_dim: int,
) -> Result<T, Seq<char>> {
    match q.matrix_product(k_t) {
        Err(e) => Err("attention score matmul failed: "@ + e),
        Ok(raw) => match raw.scaled(T::score_factor(head_dim)) {
            Err(e) => Err("attention score matmul failed: "@ + e),
            Ok(scores) => match masked_result(scores, mask) {
                Err(e) => Err(e),
                Ok(masked) => match masked.softmaxed(-1) {
                    Err(e) => Err("attention value matmul failed: "@ + e),
                    Ok(probs) => match probs.matrix_product(v) {
                        Err(e) => Err("attention value matmul failed: "@ + e),
                        Ok(out) => Ok(out),
                    },
                },
            },
        },
    }
}

pub open spec fn masked_result<T: TensorModel>(scores: T, mask: Option<T>) -> Result<T, Seq<char>> {
    match mask {
        Some(m) => match scores.sum(m) {
            Err(e) => Err("attention mask add failed: "@ + e),
            Ok(t) => Ok(t),
        },
        None => Ok(scores),
    }
}

fn attend<T: Tensor>(q: &T, k_t: &T, v: &T, mask: Option<&T>, head_dim: usize) -> (r: Result<
    T,
    Error,
>)
    ensures
        modelled(r) == attend_result(
            q.model(),
            k_t.model(),
            v.model(),
            optional_model(mask),
            head_dim as int,
        ),
{
    let raw = match q.matmul(k_t) {
        Ok(t) => t,
        Err(e) => {
            return Err(fail("attention score matmul failed: ", e));
        },
    };
    let mut scores = match raw.scale(T::attention_scale(head_dim)) {
        Ok(t) => t,
        Err(e) => {
            return Err(fail("attention score matmul failed: ", e));
        },
    };
    if let Some(m) = mask {
        scores = match scores.add(m) {
            Ok(t) => t,
            Err(e) => {
                return Err(fail("attention mask add failed: ", e));
            },
        };
    }
    let probs = match scores.softmax(-1) {
        Ok(t) => t,
        Err(e) => {
            return Err(fail("attention value matmul failed: ", e));
        },
    };
    match probs.matmul(v) {
        Ok(t) => Ok(t),
        Err(e) => Err(fail("attention value matmul failed: ", e)),
    }
}

/// The end of the block of rows that begins at `start`.
pub open spec fn block_end(start: int, rows: int, queries: int) -> int {
    if start + rows < queries {
        start + rows
    } else {
        queries
    }
}

/// What the queries from `start` up to `end` attend to.
pub open spec fn block_result<T: TensorModel>(
    q: T,
    k_t: T,
    v: T,
    mask: Option<T>,
    head_dim: int,
    start: int,
    end: int,
) -> Result<T, Seq<char>> {
    match q.sliced(1, start, end) {
        Err(e) => Err("attention query chunk slice failed: "@ + e),
        Ok(part) => match mask {
            Some(m) => match m.sliced(0, start, end) {
                Err(e) => Err("attention mask chunk slice failed: "@ + e),
                Ok(mask_part) => attend_result(part, k_t, v, Some(mask_part), head_dim),
            },
            None => attend_result(part, k_t, v, None, head_dim),
        },
    }
}

/// What the blocks of queries from `start` on attend to, one after the other.
pub open spec fn blocks_result<T: TensorModel>(
    q: T,
    k_t: T,
    v: T,
    mask: Option<T>,
    head_dim: int,
    rows: int,
    queries: int,
    start: int,
) -> Result<Seq<T>, Seq<char>>
    decreases queries - start,
{
    if start >= queries || rows <= 0 {
        Ok(Seq::empty())
    } else {
        let end = block_end(start, rows, queries);
        match block_result(q, k_t, v, mask, head_dim, start, end) {
            Err(e) => Err(e),
            Ok(out) => match blocks_result(q, k_t, v, mask, head_dim, rows, queries, end) {
                Err(e) => Err(e),
                Ok(rest) => Ok(seq![out] + rest),
            },
        }
    }
}

/// What the queries attend to, at most `rows` of them at a time.
pub open spec fn scaled_dot_product_attention_chunked_result<T: TensorModel>(
    q: T,
    k: T,
    v: T,
    mask: Option<T>,
    head_dim: int,
    rows: int,
) -> Result<T, Seq<char>> {
    match k.transposed(1, 2) {
        Err(e) => Err("attention key transpose failed: "@ + e),
        Ok(k_t) => if rows >= q.dims()[1] {
            attend_result(q, k_t, v, mask, head_dim)
        } else {
            match blocks_result(q, k_t, v, mask, head_dim, rows, q.dims()[1] as int, 0) {
                Err(e) => Err(e),
                Ok(outputs) => match T::joined(outputs, 1) {
                    Err(e) => Err("attention output concat failed: "@ + e),
                    Ok(out) => Ok(out),
                },
            }
        },
    }
}

/// Attends with at most `query_chunk_len` queries at a time.
pub fn scaled_dot_product_attention_chunked<T: Tensor>(
    q: &T,
    k: &T,
    v: &T,
    mask: Option<&T>,
    head_dim: usize,
    query_chunk_len: usize,
) -> (r: Result<T, Error>)
    requires
        q.model().dims().len() == 3,
        query_chunk_len > 0 || q.model().dims()[1] == 0,
    ensures
        modelled(r) == scaled_dot_product_attention_chunked_result(
            q.model(),
            k.model(),
            v.model(),
            optional_model(mask),
            head_dim as int,
            query_chunk_len as int,
        ),
{
    let query_len: usize = q.shape()[1];
    let k_t = match k.transpose(1, 2) {
        Ok(t) => t,
        Err(e) => {
            return Err(fail("attention key transpose failed: ", e));
        },
    };
    if query_chunk_len >= query_len {
        return attend(q, &k_t, v, mask, head_dim);
    }
    let mut outputs: Vec<T> = Vec::new();
    let mut start: usize = 0;
    let ghost whole = blocks_result(
        q.model(),
        k_t.model(),
        v.model(),
        optional_model(mask),
        head_dim as int,
        query_chunk_len as int,
        query_len as int,
        0,
    );
    proof {
        if whole is Ok {
            assert(models(outputs@) + whole->Ok_0 =~= whole->Ok_0);
        }
    }
    while start < query_len
        invariant
            start <= query_len,
            0 < query_chunk_len < query_len,
            query_len == q.model().dims()[1],
            k.model().transposed(1, 2) == Ok::<T::Model, Seq<char>>(k_t.model()),
            whole == blocks_result(
                q.model(),
                k_t.model(),
                v.model(),
                optional_model(mask),
                head_dim as int,
                query_chunk_len as int,
                query_len as int,
                0,
            ),
            whole == match blocks_result(
                q.model(),
                k_t.model(),
                v.model(),
                optional_model(mask),
                head_dim as int,
                query_chunk_len as int,
                query_len as int,
                start as int,
            ) {
                Err(e) => Err::<Seq<T::Model>, Seq<char>>(e),
                Ok(rest) => Ok(models(outputs@) + rest),
            },
        decreases query_len - start,
    {
        let end: usize = if query_len - start > query_chunk_len {
            start + query_chunk_len
        } else {
            query_len
        };
        assert(end == block_end(start as int, query_chunk_len as int, query_len as int));
        let part = match q.slice(1, start, end) {
            Ok(t) => t,
            Err(e) => {
                return Err(fail("attention query chunk slice failed: ", e));
            },
        };
        let out = match mask {
            Some(m) => {
                let mask_part = match m.slice(0, start, end) {
                    Ok(t) => t,
                    Err(e) => {
                        return Err(fail("attention mask chunk slice failed: ", e));
                    },
                };
                attend(&part, &k_t, v, Some(&mask_part), head_dim)
            },
            None => attend(&part, &k_t, v, None, head_dim),
        };
        let out = match out {
            Ok(t) => t,
            Err(e) => {
                return Err(e);
            },
        };
        let ghost before = models(outputs@);
        outputs.push(out);
        proof {
            let rest = blocks_result(
                q.model(),
                k_t.model(),
                v.model(),
                optional_model(mask),
                head_dim as int,
                query_chunk_len as int,
                query_len as int,
                end as int,
            );
            if rest is Ok {
                assert(models(outputs@) =~= before.push(out.model()));
                assert(before + (seq![out.model()] + rest->Ok_0) =~= models(outputs@) + rest->Ok_0);
            }
        }
        start = end;
    }
    assert(models(outputs@) + Seq::<T::Model>::empty() =~= models(outputs@));
    match T::concat(&outputs, 1) {
        Ok(t) => Ok(t),
        Err(e) => Err(fail("attention output concat failed: ", e)),
    }
}

pub open spec fn three_shapes_text(what: Seq<char>, q: Seq<usize>, k: Seq<usize>, v: Seq<usize>) -> Seq<
    char,
> {
    what + "q="@ + list_text(q) + ", k="@ + list_text(k) + ", v="@ + list_text(v)
}

fn three_shapes(what: &str, q: &Vec<usize>, k: &Vec<usize>, v: &Vec<usize>) -> (e: Error)
    ensures
        e@ == three_shapes_text(what@, q@, k@, v@),
{
    let mut text = String::from_str(what);
    text.append("q=");
    push_list(&mut text, q);
    text.append(", k=");
    push_list(&mut text, k);
    text.append(", v=");
    push_list(&mut text, v);
    Error::from_text(text)
}

/// What is wrong with queries, keys and values.
pub open spec fn attention_shape_error(q: Seq<usize>, k: Seq<usize>, v: Seq<usize>) -> Option<
    Seq<char>,
> {
    if q.len() != 3 || k.len() != 3 || v.len() != 3 {
        Some(
            three_shapes_text(
                "scaled_dot_product_attention expects rank-3 tensors, got "@,
                q,
                k,
                v,
            ),
        )
    } else if q[0] != k[0] || q[0] != v[0] {
        Some(three_shapes_text("scaled_dot_product_attention head count mismatch: "@, q, k, v))
    } else if q[2] != k[2] || q[2] != v[2] {
        Some(three_shapes_text("scaled_dot_product_attention head dimension mismatch: "@, q, k, v))
    } else if k[1] != v[1] {
        Some(
            "scaled_dot_product_attention key/value sequence mismatch: k="@ + list_text(k) + ", v="@
                + list_text(v),
        )
    } else {
        None
    }
}

/// What the queries attend to, with no more than `most` scores at a time.
pub open spec fn scaled_dot_product_attention_result<T: TensorModel>(
    q: T,
    k: T,
    v: T,
    mask: Option<T>,
    head_dim: int,
    most: int,
) -> Result<T, Seq<char>> {
    match attention_shape_error(q.dims(), k.dims(), v.dims()) {
        Some(e) => Err(e),
        None => scaled_dot_product_attention_chunked_result(
            q,
            k,
            v,
            mask,
            head_dim,
            query_rows(q.dims()[0] as int, q.dims()[1] as int, k.dims()[1] as int, most),
        ),
    }
}

/// Attends with no more than `most` scores at a time.
pub fn scaled_dot_product_attention<T: Tensor>(
    q: &T,
    k: &T,
    v: &T,
    mask: Option<&T>,
    head_dim: usize,
    most: usize,
) -> (r: Result<T, Error>)
    ensures
        modelled(r) == scaled_dot_product_attention_result(
            q.model(),
            k.model(),
            v.model(),
            optional_model(mask),
            head_dim as int,
            most as int,
        ),
{
    let (qs, ks, vs) = (q.shape(), k.shape(), v.shape());
    if qs.len() != 3 || ks.len() != 3 || vs.len() != 3 {
        return Err(
            three_shapes(
                "scaled_dot_product_attention expects rank-3 tensors, got ",
                &qs,
                &ks,
                &vs,
            ),
        );
    }
    if qs[0] != ks[0] || qs[0] != vs[0] {
        return Err(
            three_shapes("scaled_dot_product_attention head count mismatch: ", &qs, &ks, &vs),
        );
    }
    if qs[2] != ks[2] || qs[2] != vs[2] {
        return Err(
            three_shapes("scaled_dot_product_attention head dimension mismatch: ", &qs, &ks, &vs),
        );
    }
    if ks[1] != vs[1] {
        let mut text = String::from_str(
            "scaled_dot_product_attention key/value sequence mismatch: k=",
        );
        push_list(&mut text, &ks);
        text.append(", v=");
        push_list(&mut text, &vs);
        return Err(Error::from_text(text));
    }
    let rows: usize = choose_attention_query_chunk_len(qs[0], qs[1], ks[1], most);
    scaled_dot_product_attention_chunked(q, k, v, mask, head_dim, rows)
}

// ---------------------------------------------------------------------------
// Blocks
// ---------------------------------------------------------------------------
/// What every position of a sequence attends to.
pub open spec fn attention_result<T: TensorModel>(
    x: T,
    weights: AttentionWeights<T>,
    positions: Seq<i32>,
    num_heads: usize,
    head_dim: usize,
    theta: u32,
    most: usize,
) -> Result<T, Seq<char>> {
    if head_error(num_heads as int, head_dim as int) is Some {
        Err(head_error(num_heads as int, head_dim as int)->0)
    } else {
        match x.linear_image(weights.q.weight, Some(weights.q.bias)) {
            Err(e) => Err("attention q projection failed: "@ + e),
            Ok(q0) => match x.linear_image(weights.kv.weight, Some(weights.kv.bias)) {
                Err(e) => Err("attention kv projection failed: "@ + e),
                Ok(kv) => match kv.halves() {
                    Err(e) => Err(e),
                    Ok(parts) => match reshape_for_heads_result(q0, num_heads, head_dim) {
                        Err(e) => Err(e),
                        Ok(q1) => match q1.rotated(
                            positions,
                            head_dim as int,
                            num_heads as int,
                            theta,
                        ) {
                            Err(e) => Err("attention q rope failed: "@ + e),
                            Ok(q) => match reshape_for_heads_result(parts.0, num_heads, head_dim) {
                                Err(e) => Err(e),
                                Ok(k1) => match k1.rotated(
                                    positions,
                                    head_dim as int,
                                    num_heads as int,
                                    theta,
                                ) {
                                    Err(e) => Err("attention k rope failed: "@ + e),
                                    Ok(k) => match reshape_for_heads_result(
                                        parts.1,
                                        num_heads,
                                        head_dim,
                                    ) {
                                        Err(e) => Err(e),
                                        Ok(v) => match scaled_dot_product_attention_result(
                                            q,
                                            k,
                                            v,
                                            None,
                                            head_dim as int,
                                            most as int,
                                        ) {
                                            Err(e) => Err(e),
                                            Ok(attended) => match merge_heads_result(attended) {
                                                Err(e) => Err(e),
                                                Ok(merged) => match merged.linear_image(
                                                    weights.out.weight,
                                                    Some(weights.out.bias),
                                                ) {
                                                    Err(e) => Err("attention output projection failed: "@ + e),
                                                    Ok(out) => Ok(out),
                                                },
                                            },
                                        },
                                    },
                                },
                            },
                        },
                    },
                },
            },
        }
    }
}

/// Lets every position of a sequence attend to all others.
pub fn attention<T: Tensor>(
    x: &T,
    weights: &AttentionWeights<T>,
    positions: &Vec<i32>,
    num_heads: usize,
    head_dim: usize,
    theta: u32,
    most: usize,
) -> (r: Result<T, Error>)
    ensures
        modelled(r) == attention_result(
            x.model(),
            weights.model(),
            positions@,
            num_heads,
            head_dim,
            theta,
            most,
        ),
{
    if let Err(e) = validate_head_config(num_heads, head_dim) {
        return Err(e);
    }
    let q0 = match x.linear(&weights.q.weight, Some(&weights.q.bias)) {
        Ok(t) => t,
        Err(e) => {
            return Err(fail("attention q projection failed: ", e));
        },
    };
    let kv = match x.linear(&weights.kv.weight, Some(&weights.kv.bias)) {
        Ok(t) => t,
        Err(e) => {
            return Err(fail("attention kv projection failed: ", e));
        },
    };
    let parts = match kv.split_last_dim_two() {
        Ok(t) => t,
        Err(e) => {
            return Err(e);
        },
    };
    let q1 = match reshape_for_heads(&q0, num_heads, head_dim) {
        Ok(t) => t,
        Err(e) => {
            return Err(e);
        },
    };
    let q = match q1.rope(positions, head_dim, num_heads, theta) {
        Ok(t) => t,
        Err(e) => {
            return Err(fail("attention q rope failed: ", e));
        },
    };
    let k1 = match reshape_for_heads(&parts.0, num_heads, head_dim) {
        Ok(t) => t,
        Err(e) => {
            return Err(e);
        },
    };
    let k = match k1.rope(positions, head_dim, num_heads, theta) {
        Ok(t) => t,
        Err(e) => {
            return Err(fail("attention k rope failed: ", e));
        },
    };
    let v = match reshape_for_heads(&parts.1, num_heads, head_dim) {
        Ok(t) => t,
        Err(e) => {
            return Err(e);
        },
    };
    let attended = match scaled_dot_product_attention(&q, &k, &v, None, head_dim, most) {
        Ok(t) => t,
        Err(e) => {
            return Err(e);
        },
    };
    let merged = match merge_heads(&attended) {
        Ok(t) => t,
        Err(e) => {
            return Err(e);
        },
    };
    let out = match merged.linear(&weights.out.weight, Some(&weights.out.bias)) {
        Ok(t) => t,
        Err(e) => {
            return Err(fail("attention output projection failed: ", e));
        },
    };
    Ok(out)
}

/// What is wrong with the arguments of joint attention.
pub open spec fn joint_error<T: TensorModel>(
    pool: T,
    x: T,
    positions: int,
    region_ids: int,
    num_heads: int,
    head_dim: int,
) -> Option<Seq<char>> {
    if head_error(num_heads, head_dim) is Some {
        head_error(num_heads, head_dim)
    } else if pool.dims().len() != 2 {
        Some(sequence_text("joint_attention pool"@, pool.dims()))
    } else if x.dims().len() != 2 {
        Some(sequence_text("joint_attention x"@, x.dims()))
    } else if positions != pool.dims()[0] + x.dims()[0] {
        Some(
            "joint_attention expected "@ + decimal((pool.dims()[0] + x.dims()[0]) as nat)
                + " global positions, got "@ + decimal(positions as nat),
        )
    } else if region_ids != pool.dims()[0] + x.dims()[0] {
        Some(
            "joint_attention expected "@ + decimal((pool.dims()[0] + x.dims()[0]) as nat)
                + " region ids, got "@ + decimal(region_ids as nat),
        )
    } else {
        None
    }
}

fn check_joint<T: Tensor>(
    pool: &T,
    x: &T,
    positions: usize,
    region_ids: usize,
    num_heads: usize,
    head_dim: usize,
) -> (r: Result<(), Error>)
    ensures
        match r {
            Ok(_) => joint_error(
                pool.model(),
                x.model(),
                positions as int,
                region_ids as int,
                num_heads as int,
                head_dim as int,
            ) is None,
            Err(e) => joint_error(
                pool.model(),
                x.model(),
                positions as int,
                region_ids as int,
                num_heads as int,
                head_dim as int,
            ) == Some(e@),
        },
{
    if let Err(e) = validate_head_config(num_heads, head_dim) {
        return Err(e);
    }
    let pool_shape = pool.shape();
    let x_shape = x.shape();
    if let Err(e) = validate_sequence_2d("joint_attention pool", &pool_shape) {
        return Err(e);
    }
    if let Err(e) = validate_sequence_2d("joint_attention x", &x_shape) {
        return Err(e);
    }
    let total: u128 = pool_shape[0] as u128 + x_shape[0] as u128;
    if positions as u128 != total {
        let mut text = String::from_str("joint_attention expected ");
        push_wide_decimal(&mut text, total);
        text.append(" global positions, got ");
        push_decimal(&mut text, positions as u64);
        return Err(Error::from_text(text));
    }
    if region_ids as u128 != total {
        let mut text = String::from_str("joint_attention expected ");
        push_wide_decimal(&mut text, total);
        text.append(" region ids, got ");
        push_decimal(&mut text, region_ids as u64);
        return Err(Error::from_text(text));
    }
    Ok(())
}

/// The queries, keys and values of one stream, by heads.
pub struct StreamHeads<T> {
    pub q: T,
    pub k: T,
    pub v: T,
}

impl<T: Tensor> StreamHeads<T> {
    pub open spec fn model(&self) -> StreamHeads<T::Model> {
        StreamHeads { q: self.q.model(), k: self.k.model(), v: self.v.model() }
    }
}

pub open spec fn modelled_heads<T: Tensor>(r: Result<StreamHeads<T>, Error>) -> Result<
    StreamHeads<T::Model>,
    Seq<char>,
> {
    match r {
        Ok(t) => Ok(t.model()),
        Err(e) => Err(e@),
    }
}

pub open spec fn modelled_streams<T: Tensor>(
    r: Result<(StreamHeads<T>, StreamHeads<T>), Error>,
) -> Result<(StreamHeads<T::Model>, StreamHeads<T::Model>), Seq<char>> {
    match r {
        Ok(t) => Ok((t.0.model(), t.1.model())),
        Err(e) => Err(e@),
    }
}

/// The queries, keys and values of one stream.
pub open spec fn stream_heads_result<T: TensorModel>(
    parts: (T, T, T),
    weights: JointStreamWeights<T>,
    num_heads: usize,
    head_dim: usize,
    q_label: Seq<char>,
    k_label: Seq<char>,
) -> Result<StreamHeads<T>, Seq<char>> {
    match reshape_for_heads_result(parts.0, num_heads, head_dim) {
        Err(e) => Err(e),
        Ok(qh) => match optional_norm_result(qh, q_norm_of(weights.qk_norm), q_label) {
            Err(e) => Err(e),
            Ok(q) => match reshape_for_heads_result(parts.1, num_heads, head_dim) {
                Err(e) => Err(e),
                Ok(kh) => match optional_norm_result(kh, k_norm_of(weights.qk_norm), k_label) {
                    Err(e) => Err(e),
                    Ok(k) => match reshape_for_heads_result(parts.2, num_heads, head_dim) {
                        Err(e) => Err(e),
                        Ok(v) => Ok(StreamHeads { q, k, v }),
                    },
                },
            },
        },
    }
}

/// Splits a stream among heads.
fn stream_heads<T: Tensor>(
    parts: &(T, T, T),
    weights: &JointStreamWeights<T>,
    num_heads: usize,
    head_dim: usize,
    q_label: &str,
    k_label: &str,
) -> (r: Result<StreamHeads<T>, Error>)
    ensures
        modelled_heads(r) == stream_heads_result(
            (parts.0.model(), parts.1.model(), parts.2.model()),
            weights.model(),
            num_heads,
            head_dim,
            q_label@,
            k_label@,
        ),
{
    let qh = match reshape_for_heads(&parts.0, num_heads, head_dim) {
        Ok(t) => t,
        Err(e) => {
            return Err(e);
        },
    };
    let q = match apply_optional_qk_norm(qh, q_norm(&weights.qk_norm), q_label) {
        Ok(t) => t,
        Err(e) => {
            return Err(e);
        },
    };
    let kh = match reshape_for_heads(&parts.1, num_heads, head_dim) {
        Ok(t) => t,
        Err(e) => {
            return Err(e);
        },
    };
    let k = match apply_optional_qk_norm(kh, k_norm(&weights.qk_norm), k_label) {
        Ok(t) => t,
        Err(e) => {
            return Err(e);
        },
    };
    let v = match reshape_for_heads(&parts.2, num_heads, head_dim) {
        Ok(t) => t,
        Err(e) => {
            return Err(e);
        },
    };
    Ok(StreamHeads { q, k, v })
}

fn concat_pair<T: Tensor>(a: T, b: T, axis: usize) -> (r: Result<T, Error>)
    ensures
        modelled(r) == T::Model::joined(seq![a.model(), b.model()], axis as int),
{
    let mut parts: Vec<T> = Vec::new();
    parts.push(a);
    parts.push(b);
    assert(models(parts@) =~= seq![a.model(), b.model()]);
    T::concat(&parts, axis)
}

/// The queries, keys and values of the pool and of the sequence.
pub open spec fn joint_heads_result<T: TensorModel>(
    pool: T,
    x: T,
    weights: JointAttentionWeights<T>,
    num_heads: usize,
    head_dim: usize,
) -> Result<(StreamHeads<T>, StreamHeads<T>), Seq<char>> {
    match pool.rms_normed(weights.pool.norm, RMS_NORM_EPS) {
        Err(e) => Err("joint_attention pool norm failed: "@ + e),
        Ok(pool_norm) => match x.rms_normed(weights.x.norm, RMS_NORM_EPS) {
            Err(e) => Err("joint_attention x norm failed: "@ + e),
            Ok(x_norm) => match pool_norm.linear_image(
                weights.pool.qkv.weight,
                Some(weights.pool.qkv.bias),
            ) {
                Err(e) => Err("joint_attention pool qkv failed: "@ + e),
                Ok(pool_qkv) => match x_norm.linear_image(
                    weights.x.qkv.weight,
                    Some(weights.x.qkv.bias),
                ) {
                    Err(e) => Err("joint_attention x qkv failed: "@ + e),
                    Ok(x_qkv) => match pool_qkv.thirds() {
                        Err(e) => Err(e),
                        Ok(pool_parts) => match x_qkv.thirds() {
                            Err(e) => Err(e),
                            Ok(x_parts) => match stream_heads_result(
                                pool_parts,
                                weights.pool,
                                num_heads,
                                head_dim,
                                "joint_attention pool q_norm"@,
                                "joint_attention pool k_norm"@,
                            ) {
                                Err(e) => Err(e),
                                Ok(p) => match stream_heads_result(
                                    x_parts,
                                    weights.x,
                                    num_heads,
                                    head_dim,
                                    "joint_attention x q_norm"@,
                                    "joint_attention x k_norm"@,
                                ) {
                                    Err(e) => Err(e),
                                    Ok(s) => Ok((p, s)),
                                },
                            },
                        },
                    },
                },
            },
        },
    }
}

/// Norms and projects the pool and the sequence.
fn joint_heads<T: Tensor>(
    pool: &T,
    x: &T,
    weights: &JointAttentionWeights<T>,
    num_heads: usize,
    head_dim: usize,
) -> (r: Result<(StreamHeads<T>, StreamHeads<T>), Error>)
    ensures
        modelled_streams(r) == joint_heads_result(
            pool.model(),
            x.model(),
            weights.model(),
            num_heads,
            head_dim,
        ),
{
    let pool_norm = match pool.rms_norm(&weights.pool.norm, RMS_NORM_EPS) {
        Ok(t) => t,
        Err(e) => {
            return Err(fail("joint_attention pool norm failed: ", e));
        },
    };
    let x_norm = match x.rms_norm(&weights.x.norm, RMS_NORM_EPS) {
        Ok(t) => t,
        Err(e) => {
            return Err(fail("joint_attention x norm failed: ", e));
        },
    };
    let pool_qkv = match pool_norm.linear(&weights.pool.qkv.weight, Some(&weights.pool.qkv.bias)) {
        Ok(t) => t,
        Err(e) => {
            return Err(fail("joint_attention pool qkv failed: ", e));
        },
    };
    let x_qkv = match x_norm.linear(&weights.x.qkv.weight, Some(&weights.x.qkv.bias)) {
        Ok(t) => t,
        Err(e) => {
            return Err(fail("joint_attention x qkv failed: ", e));
        },
    };
    let pool_parts = match pool_qkv.split_last_dim_three() {
        Ok(t) => t,
        Err(e) => {
            return Err(e);
        },
    };
    let x_parts = match x_qkv.split_last_dim_three() {
        Ok(t) => t,
        Err(e) => {
            return Err(e);
        },
    };
    let p = match stream_heads(
        &pool_parts,
        &weights.pool,
        num_heads,
        head_dim,
        "joint_attention pool q_norm",
        "joint_attention pool k_norm",
    ) {
        Ok(t) => t,
        Err(e) => {
            return Err(e);
        },
    };
    let s = match stream_heads(
        &x_parts,
        &weights.x,
        num_heads,
        head_dim,
        "joint_attention x q_norm",
        "joint_attention x k_norm",
    ) {
        Ok(t) => t,
        Err(e) => {
            return Err(e);
        },
    };
    Ok((p, s))
}

/// The pool in front of the sequence, with queries and keys rotated.
pub open spec fn joined_heads_result<T: TensorModel>(
    p: StreamHeads<T>,
    s: StreamHeads<T>,
    positions: Seq<i32>,
    region_ids: Seq<i32>,
    num_heads: usize,
    head_dim: usize,
    theta: u32,
) -> Result<StreamHeads<T>, Seq<char>> {
    match T::joined(seq![p.q, s.q], 1) {
        Err(e) => Err("joint_attention q concat failed: "@ + e),
        Ok(q1) => match q1.region_rotated(
            positions,
            region_ids,
            head_dim as int,
            num_heads as int,
            theta,
        ) {
            Err(e) => Err("joint_attention q mixed rope failed: "@ + e),
            Ok(q) => match T::joined(seq![p.k, s.k], 1) {
                Err(e) => Err("joint_attention k concat failed: "@ + e),
                Ok(k1) => match k1.region_rotated(
                    positions,
                    region_ids,
                    head_dim as int,
                    num_heads as int,
                    theta,
                ) {
                    Err(e) => Err("joint_attention k mixed rope failed: "@ + e),
                    Ok(k) => match T::joined(seq![p.v, s.v], 1) {
                        Err(e) => Err("joint_attention v concat failed: "@ + e),
                        Ok(v) => Ok(StreamHeads { q, k, v }),
                    },
                },
            },
        },
    }
}

/// Puts the pool in front of the sequence and rotates queries and keys.
fn joined_heads<T: Tensor>(
    p: StreamHeads<T>,
    s: StreamHeads<T>,
    positions: &Vec<i32>,
    region_ids: &Vec<i32>,
    num_heads: usize,
    head_dim: usize,
    theta: u32,
) -> (r: Result<StreamHeads<T>, Error>)
    ensures
        modelled_heads(r) == joined_heads_result(
            p.model(),
            s.model(),
            positions@,
            region_ids@,
            num_heads,
            head_dim,
            theta,
        ),
{
    let q1 = match concat_pair(p.q, s.q, 1) {
        Ok(t) => t,
        Err(e) => {
            return Err(fail("joint_attention q concat failed: ", e));
        },
    };
    let q = match q1.region_rope(positions, region_ids, head_dim, num_heads, theta) {
        Ok(t) => t,
        Err(e) => {
            return Err(fail("joint_attention q mixed rope failed: ", e));
        },
    };
    let k1 = match concat_pair(p.k, s.k, 1) {
        Ok(t) => t,
        Err(e) => {
            return Err(fail("joint_attention k concat failed: ", e));
        },
    };
    let k = match k1.region_rope(positions, region_ids, head_dim, num_heads, theta) {
        Ok(t) => t,
        Err(e) => {
            return Err(fail("joint_attention k mixed rope failed: ", e));
        },
    };
    let v = match concat_pair(p.v, s.v, 1) {
        Ok(t) => t,
        Err(e) => {
            return Err(fail("joint_attention v concat failed: ", e));
        },
    };
    Ok(StreamHeads { q, k, v })
}

/// What the pool and the sequence attend to together.
pub open spec fn joint_attention_result<T: TensorModel>(
    pool: T,
    x: T,
    weights: JointAttentionWeights<T>,
    positions: Seq<i32>,
    region_ids: Seq<i32>,
    mask: T,
    num_heads: usize,
    head_dim: usize,
    theta: u32,
    most: usize,
) -> Result<JointAttentionOutput<T>, Seq<char>> {
    let error = joint_error(
        pool,
        x,
        positions.len() as int,
        region_ids.len() as int,
        num_heads as int,
        head_dim as int,
    );
    if error is Some {
        Err(error->0)
    } else {
        match joint_heads_result(pool, x, weights, num_heads, head_dim) {
            Err(e) => Err(e),
            Ok(heads) => match joined_heads_result(
                heads.0,
                heads.1,
                positions,
                region_ids,
                num_heads,
                head_dim,
                theta,
            ) {
                Err(e) => Err(e),
                Ok(all) => match scaled_dot_product_attention_result(
                    all.q,
                    all.k,
                    all.v,
                    Some(mask),
                    head_dim as int,
                    most as int,
                ) {
                    Err(e) => Err(e),
                    Ok(attended) => match merge_heads_result(attended) {
                        Err(e) => Err(e),
                        Ok(merged) => match merged.sliced(0, 0, pool.dims()[0] as int) {
                            Err(e) => Err("joint_attention pool slice failed: "@ + e),
                            Ok(pool_part) => match pool_part.linear_image(
                                weights.pool.out.weight,
                                Some(weights.pool.out.bias),
                            ) {
                                Err(e) => Err("joint_attention pool out failed: "@ + e),
                                Ok(pool_out) => match merged.sliced(
                                    0,
                                    pool.dims()[0] as int,
                                    pool.dims()[0] + x.dims()[0],
                                ) {
                                    Err(e) => Err("joint_attention x slice failed: "@ + e),
                                    Ok(x_part) => match x_part.linear_image(
                                        weights.x.out.weight,
                                        Some(weights.x.out.bias),
                                    ) {
                                        Err(e) => Err("joint_attention x out failed: "@ + e),
                                        Ok(x_out) => Ok(JointAttentionOutput { pool: pool_out, x: x_out }),
                                    },
                                },
                            },
                        },
                    },
                },
            },
        }
    }
}

/// Lets the pool and the sequence attend to each other, as the mask allows.
pub fn joint_attention<T: Tensor>(
    pool: &T,
    x: &T,
    weights: &JointAttentionWeights<T>,
    positions: &Vec<i32>,
    region_ids: &Vec<i32>,
    mask: &T,
    num_heads: usize,
    head_dim: usize,
    theta: u32,
    most: usize,
) -> (r: Result<JointAttentionOutput<T>, Error>)
    ensures
        modelled_output(r) == joint_attention_result(
            pool.model(),
            x.model(),
            weights.model(),
            positions@,
            region_ids@,
            mask.model(),
            num_heads,
            head_dim,
            theta,
            most,
        ),
{
    if let Err(e) = check_joint(pool, x, positions.len(), region_ids.len(), num_heads, head_dim) {
        return Err(e);
    }
    let pool_len: usize = pool.shape()[0];
    let total_len: usize = pool_len + x.shape()[0];
    let heads = match joint_heads(pool, x, weights, num_heads, head_dim) {
        Ok(t) => t,
        Err(e) => {
            return Err(e);
        },
    };
    let all = match joined_heads(
        heads.0,
        heads.1,
        positions,
        region_ids,
        num_heads,
        head_dim,
        theta,
    ) {
        Ok(t) => t,
        Err(e) => {
            return Err(e);
        },
    };
    let attended = match scaled_dot_product_attention(
        &all.q,
        &all.k,
        &all.v,
        Some(mask),
        head_dim,
        most,
    ) {
        Ok(t) => t,
        Err(e) => {
            return Err(e);
        },
    };
    let merged = match merge_heads(&attended) {
        Ok(t) => t,
        Err(e) => {
            return Err(e);
        },
    };
    let pool_part = match merged.slice(0, 0, pool_len) {
        Ok(t) => t,
        Err(e) => {
            return Err(fail("joint_attention pool slice failed: ", e));
        },
    };
    let pool_out = match pool_part.linear(&weights.pool.out.weight, Some(&weights.pool.out.bias)) {
        Ok(t) => t,
        Err(e) => {
            return Err(fail("joint_attention pool out failed: ", e));
        },
    };
    let x_part = match merged.slice(0, pool_len, total_len) {
        Ok(t) => t,
        Err(e) => {
            return Err(fail("joint_attention x slice failed: ", e));
        },
    };
    let x_out = match x_part.linear(&weights.x.out.weight, Some(&weights.x.out.bias)) {
        Ok(t) => t,
        Err(e) => {
            return Err(fail("joint_attention x out failed: ", e));
        },
    };
    Ok(JointAttentionOutput { pool: pool_out, x: x_out })
}

/// The sequence, with its depthwise convolution added where there is one.
pub open spec fn smoothed_result<T: TensorModel>(
    merged: T,
    dw: Option<DepthwiseWeights<T>>,
) -> Result<T, Seq<char>> {
    match dw {
        Some(w) => match merged.convolved(
            w.weight,
            w.bias,
            1,
            (if w.kernel_size > 0 {
                w.kernel_size - 1
            } else {
                0
            }) / 2,
        ) {
            Err(e) => Err("merge_stream depthwise conv failed: "@ + e),
            Ok(convolved) => match convolved.sum(merged) {
                Err(e) => Err("merge_stream residual conv add failed: "@ + e),
                Ok(t) => Ok(t),
            },
        },
        None => Ok(merged),
    }
}

fn smooth<T: Tensor>(merged: T, dw: &Option<DepthwiseWeights<T>>) -> (r: Result<T, Error>)
    ensures
        modelled(r) == smoothed_result(merged.model(), depthwise(*dw)),
{
    match dw {
        Some(w) => {
            let bias: Option<&T> = match &w.bias {
                Some(b) => Some(b),
                None => None,
            };
            let padding: usize = w.kernel_size.saturating_sub(1) / 2;
            let convolved = match merged.conv1d_dw(&w.weight, bias, 1, padding) {
                Ok(t) => t,
                Err(e) => {
                    return Err(fail("merge_stream depthwise conv failed: ", e));
                },
            };
            match convolved.add(&merged) {
                Ok(t) => Ok(t),
                Err(e) => Err(fail("merge_stream residual conv add failed: ", e)),
            }
        },
        None => Ok(merged),
    }
}

/// Attention and the branch beside it, side by side and then mapped.
pub open spec fn merge_stream_result<T: TensorModel>(
    attn: T,
    branch: T,
    weights: MergeWeights<T>,
) -> Result<T, Seq<char>> {
    if attn.dims().len() != 2 {
        Err(sequence_text("merge_stream attention"@, attn.dims()))
    } else {
        match T::joined(seq![attn, branch], 1) {
            Err(e) => Err("merge_stream concat failed: "@ + e),
            Ok(merged) => match smoothed_result(merged, weights.dw) {
                Err(e) => Err(e),
                Ok(smooth) => match smooth.linear_image(
                    weights.linear.weight,
                    Some(weights.linear.bias),
                ) {
                    Err(e) => Err("merge_stream linear failed: "@ + e),
                    Ok(out) => Ok(out),
                },
            },
        }
    }
}

/// Merges attention with the branch beside it.
pub fn merge_stream<T: Tensor>(
    attn: T,
    branch: T,
    weights: &MergeWeights<T>,
) -> (r: Result<T, Error>)
    ensures
        modelled(r) == merge_stream_result(attn.model(), branch.model(), weights.model()),
{
    if let Err(e) = validate_sequence_2d("merge_stream attention", &attn.shape()) {
        return Err(e);
    }
    let merged = match concat_pair(attn, branch, 1) {
        Ok(t) => t,
        Err(e) => {
            return Err(fail("merge_stream concat failed: ", e));
        },
    };
    let smooth = match smooth(merged, &weights.dw) {
        Ok(t) => t,
        Err(e) => {
            return Err(e);
        },
    };
    let out = match smooth.linear(&weights.linear.weight, Some(&weights.linear.bias)) {
        Ok(t) => t,
        Err(e) => {
            return Err(fail("merge_stream linear failed: ", e));
        },
    };
    Ok(out)
}

/// Attention and a convolutional branch, merged.
pub open spec fn pac_result<T: TensorModel, L: LayerModel<T>>(
    x: T,
    weights: PacWeights<T, L>,
    positions: Seq<i32>,
    num_heads: usize,
    head_dim: usize,
    theta: u32,
    most: usize,
) -> Result<T, Seq<char>> {
    match x.rms_normed(weights.a_norm, RMS_NORM_EPS) {
        Err(e) => Err("pac attention norm failed: "@ + e),
        Ok(ax) => match attention_result(
            ax,
            weights.attn,
            positions,
            num_heads,
            head_dim,
            theta,
            most,
        ) {
            Err(e) => Err(e),
            Ok(a) => match x.rms_normed(weights.c_norm, RMS_NORM_EPS) {
                Err(e) => Err("pac cgmlp norm failed: "@ + e),
                Ok(cx) => match weights.cgmlp.image(cx) {
                    Err(e) => Err(e),
                    Ok(c) => match merge_stream_result(a, c, weights.merge) {
                        Err(e) => Err(e),
                        Ok(out) => Ok(out),
                    },
                },
            },
        },
    }
}

/// Attention beside a convolutional branch.
pub fn pac<T: Tensor, L: Layer<T>>(
    x: &T,
    weights: &PacWeights<T, L>,
    positions: &Vec<i32>,
    num_heads: usize,
    head_dim: usize,
    theta: u32,
    most: usize,
) -> (r: Result<T, Error>)
    ensures
        modelled(r) == pac_result(
            x.model(),
            weights.model(),
            positions@,
            num_heads,
            head_dim,
            theta,
            most,
        ),
{
    let ax = match x.rms_norm(&weights.a_norm, RMS_NORM_EPS) {
        Ok(t) => t,
        Err(e) => {
            return Err(fail("pac attention norm failed: ", e));
        },
    };
    let a = match attention(&ax, &weights.attn, positions, num_heads, head_dim, theta, most) {
        Ok(t) => t,
        Err(e) => {
            return Err(e);
        },
    };
    let cx = match x.rms_norm(&weights.c_norm, RMS_NORM_EPS) {
        Ok(t) => t,
        Err(e) => {
            return Err(fail("pac cgmlp norm failed: ", e));
        },
    };
    let c = match weights.cgmlp.apply(&cx) {
        Ok(t) => t,
        Err(e) => {
            return Err(e);
        },
    };
    let out = match merge_stream(a, c, &weights.merge) {
        Ok(t) => t,
        Err(e) => {
            return Err(e);
        },
    };
    Ok(out)
}

/// Joint attention and a convolutional branch for each stream, merged.
pub open spec fn pjac_result<T: TensorModel, L: LayerModel<T>>(
    pool: T,
    x: T,
    weights: PjacWeights<T, L>,
    positions: Seq<i32>,
    region_ids: Seq<i32>,
    mask: T,
    num_heads: usize,
    head_dim: usize,
    theta: u32,
    most: usize,
) -> Result<JointAttentionOutput<T>, Seq<char>> {
    match joint_attention_result(
        pool,
        x,
        weights.jattn,
        positions,
        region_ids,
        mask,
        num_heads,
        head_dim,
        theta,
        most,
    ) {
        Err(e) => Err(e),
        Ok(attn) => match pool.rms_normed(weights.c_norm_pool, RMS_NORM_EPS) {
            Err(e) => Err("pjac pool cgmlp norm failed: "@ + e),
            Ok(pool_cn) => match x.rms_normed(weights.c_norm_x, RMS_NORM_EPS) {
                Err(e) => Err("pjac x cgmlp norm failed: "@ + e),
                Ok(x_cn) => match weights.cgmlp_pool.image(pool_cn) {
                    Err(e) => Err(e),
                    Ok(c_pool) => match weights.cgmlp_x.image(x_cn) {
                        Err(e) => Err(e),
                        Ok(c_x) => match merge_stream_result(
                            attn.pool,
                            c_pool,
                            weights.merge_pool,
                        ) {
                            Err(e) => Err(e),
                            Ok(pool_out) => match merge_stream_result(
                                attn.x,
                                c_x,
                                weights.merge_x,
                            ) {
                                Err(e) => Err(e),
                                Ok(x_out) => Ok(JointAttentionOutput { pool: pool_out, x: x_out }),
                            },
                        },
                    },
                },
            },
        },
    }
}

/// Joint attention beside a convolutional branch for each stream.
pub fn pjac<T: Tensor, L: Layer<T>>(
    pool: &T,
    x: &T,
    weights: &PjacWeights<T, L>,
    positions: &Vec<i32>,
    region_ids: &Vec<i32>,
    mask: &T,
    num_heads: usize,
    head_dim: usize,
    theta: u32,
    most: usize,
) -> (r: Result<JointAttentionOutput<T>, Error>)
    ensures
        modelled_output(r) == pjac_result(
            pool.model(),
            x.model(),
            weights.model(),
            positions@,
            region_ids@,
            mask.model(),
            num_heads,
            head_dim,
            theta,
            most,
        ),
{
    let attn = match joint_attention(
        pool,
        x,
        &weights.jattn,
        positions,
        region_ids,
        mask,
        num_heads,
        head_dim,
        theta,
        most,
    ) {
        Ok(t) => t,
        Err(e) => {
            return Err(e);
        },
    };
    let pool_cn = match pool.rms_norm(&weights.c_norm_pool, RMS_NORM_EPS) {
        Ok(t) => t,
        Err(e) => {
            return Err(fail("pjac pool cgmlp norm failed: ", e));
        },
    };
    let x_cn = match x.rms_norm(&weights.c_norm_x, RMS_NORM_EPS) {
        Ok(t) => t,
        Err(e) => {
            return Err(fail("pjac x cgmlp norm failed: ", e));
        },
    };
    let c_pool = match weights.cgmlp_pool.apply(&pool_cn) {
        Ok(t) => t,
        Err(e) => {
            return Err(e);
        },
    };
    let c_x = match weights.cgmlp_x.apply(&x_cn) {
        Ok(t) => t,
        Err(e) => {
            return Err(e);
        },
    };
    let pool_out = match merge_stream(attn.pool, c_pool, &weights.merge_pool) {
        Ok(t) => t,
        Err(e) => {
            return Err(e);
        },
    };
    let x_out = match merge_stream(attn.x, c_x, &weights.merge_x) {
        Ok(t) => t,
        Err(e) => {
            return Err(e);
        },
    };
    Ok(JointAttentionOutput { pool: pool_out, x: x_out })
}

/// The tensor times the weights, where there are any.
pub open spec fn optional_product_result<T: TensorModel>(
    t: T,
    weights: Option<T>,
    label: Seq<char>,
) -> Result<T, Seq<char>> {
    match weights {
        Some(w) => match t.product(w) {
            Err(e) => Err(label + e),
            Ok(p) => Ok(p),
        },
        None => Ok(t),
    }
}

fn optional_product<T: Tensor>(t: T, weights: &Option<T>, label: &str) -> (r: Result<T, Error>)
    ensures
        modelled(r) == optional_product_result(t.model(), held(*weights), label@),
{
    match weights {
        Some(w) => match t.mul(w) {
            Ok(p) => Ok(p),
            Err(e) => Err(fail(label, e)),
        },
        None => Ok(t),
    }
}

/// The tensor, scaled unless the factor is one.
pub open spec fn branch_scaled_result<T: TensorModel>(t: T, factor: u32) -> Result<T, Seq<char>> {
    if factor != ONE {
        match t.scaled(factor) {
            Err(e) => Err("residual glu scaling failed: "@ + e),
            Ok(s) => Ok(s),
        }
    } else {
        Ok(t)
    }
}

fn branch_scale<T: Tensor>(t: T, factor: u32) -> (r: Result<T, Error>)
    ensures
        modelled(r) == branch_scaled_result(t.model(), factor),
{
    if factor != ONE {
        match t.scale(factor) {
            Ok(s) => Ok(s),
            Err(e) => Err(fail("residual glu scaling failed: ", e)),
        }
    } else {
        Ok(t)
    }
}

/// The stream with its gated branch, scaled, added.
pub open spec fn apply_residual_glu_result<T: TensorModel, F: LayerModel<T>>(
    residual: T,
    weights: ResidualGluWeights<T, F>,
    factor: u32,
) -> Result<T, Seq<char>> {
    match residual.rms_normed(weights.norm, RMS_NORM_EPS) {
        Err(e) => Err("residual glu norm failed: "@ + e),
        Ok(normed) => match weights.ffn.image(normed) {
            Err(e) => Err(e),
            Ok(branch) => match optional_product_result(
                branch,
                weights.layer_scale,
                "residual glu layer scale failed: "@,
            ) {
                Err(e) => Err(e),
                Ok(weighted) => match branch_scaled_result(weighted, factor) {
                    Err(e) => Err(e),
                    Ok(scaled) => match residual.sum(scaled) {
                        Err(e) => Err("residual glu add failed: "@ + e),
                        Ok(out) => Ok(out),
                    },
                },
            },
        },
    }
}

/// Adds a gated branch to the stream that it comes from.
pub fn apply_residual_glu<T: Tensor, F: Layer<T>>(
    residual: &T,
    weights: &ResidualGluWeights<T, F>,
    factor: u32,
) -> (r: Result<T, Error>)
    ensures
        modelled(r) == apply_residual_glu_result(residual.model(), weights.model(), factor),
{
    let normed = match residual.rms_norm(&weights.norm, RMS_NORM_EPS) {
        Ok(t) => t,
        Err(e) => {
            return Err(fail("residual glu norm failed: ", e));
        },
    };
    let branch = match weights.ffn.apply(&normed) {
        Ok(t) => t,
        Err(e) => {
            return Err(e);
        },
    };
    let weighted = match optional_product(
        branch,
        &weights.layer_scale,
        "residual glu layer scale failed: ",
    ) {
        Ok(t) => t,
        Err(e) => {
            return Err(e);
        },
    };
    let scaled = match branch_scale(weighted, factor) {
        Ok(t) => t,
        Err(e) => {
            return Err(e);
        },
    };
    let out = match residual.add(&scaled) {
        Ok(t) => t,
        Err(e) => {
            return Err(fail("residual glu add failed: ", e));
        },
    };
    Ok(out)
}

/// The stream after a gated branch, where there is one.
pub open spec fn optional_glu_result<T: TensorModel, F: LayerModel<T>>(
    t: T,
    weights: Option<ResidualGluWeights<T, F>>,
    factor: u32,
) -> Result<T, Seq<char>> {
    match weights {
        Some(w) => apply_residual_glu_result(t, w, factor),
        None => Ok(t),
    }
}

fn optional_glu<T: Tensor, F: Layer<T>>(
    t: T,
    weights: &Option<ResidualGluWeights<T, F>>,
    factor: u32,
) -> (r: Result<T, Error>)
    ensures
        modelled(r) == optional_glu_result(t.model(), residual_glu(*weights), factor),
{
    match weights {
        Some(w) => apply_residual_glu(&t, w, factor),
        None => Ok(t),
    }
}

/// A block of the encoder or of the segmenter.
pub open spec fn ebf_block_result<T: TensorModel, L: LayerModel<T>, F: LayerModel<T>>(
    x: T,
    weights: EbfBlockWeights<T, L, F>,
    positions: Seq<i32>,
    num_heads: usize,
    head_dim: usize,
    theta: u32,
    most: usize,
) -> Result<T, Seq<char>> {
    match optional_glu_result(x, weights.ffn1, HALF) {
        Err(e) => Err(e),
        Ok(x1) => match pac_result(x1, weights.pac, positions, num_heads, head_dim, theta, most) {
            Err(e) => Err(e),
            Ok(a1) => match optional_product_result(
                a1,
                weights.pac_layer_scale,
                "ebf_block pac layer scale failed: "@,
            ) {
                Err(e) => Err(e),
                Ok(a2) => match x1.sum(a2) {
                    Err(e) => Err("ebf_block pac residual failed: "@ + e),
                    Ok(x2) => match optional_glu_result(x2, weights.ffn2, HALF) {
                        Err(e) => Err(e),
                        Ok(x3) => Ok(x3),
                    },
                },
            },
        },
    }
}

/// A block of the encoder or of the segmenter.
pub fn ebf_block<T: Tensor, L: Layer<T>, F: Layer<T>>(
    x: T,
    weights: &EbfBlockWeights<T, L, F>,
    positions: &Vec<i32>,
    num_heads: usize,
    head_dim: usize,
    theta: u32,
    most: usize,
) -> (r: Result<T, Error>)
    ensures
        modelled(r) == ebf_block_result(
            x.model(),
            weights.model(),
            positions@,
            num_heads,
            head_dim,
            theta,
            most,
        ),
{
    let x1 = match optional_glu(x, &weights.ffn1, HALF) {
        Ok(t) => t,
        Err(e) => {
            return Err(e);
        },
    };
    let a1 = match pac(&x1, &weights.pac, positions, num_heads, head_dim, theta, most) {
        Ok(t) => t,
        Err(e) => {
            return Err(e);
        },
    };
    let a2 = match optional_product(
        a1,
        &weights.pac_layer_scale,
        "ebf_block pac layer scale failed: ",
    ) {
        Ok(t) => t,
        Err(e) => {
            return Err(e);
        },
    };
    let x2 = match x1.add(&a2) {
        Ok(t) => t,
        Err(e) => {
            return Err(fail("ebf_block pac residual failed: ", e));
        },
    };
    let x3 = match optional_glu(x2, &weights.ffn2, HALF) {
        Ok(t) => t,
        Err(e) => {
            return Err(e);
        },
    };
    Ok(x3)
}

/// A block of the estimator.
pub open spec fn jebf_block_result<T: TensorModel, L: LayerModel<T>, F: LayerModel<T>>(
    pool: T,
    x: T,
    weights: JebfBlockWeights<T, L, F>,
    positions: Seq<i32>,
    region_ids: Seq<i32>,
    mask: T,
    num_heads: usize,
    head_dim: usize,
    theta: u32,
    most: usize,
) -> Result<JointAttentionOutput<T>, Seq<char>> {
    match optional_glu_result(x, weights.ffn1_x, ONE) {
        Err(e) => Err(e),
        Ok(x1) => match optional_glu_result(pool, weights.ffn1_pool, ONE) {
            Err(e) => Err(e),
            Ok(pool1) => match pjac_result(
                pool1,
                x1,
                weights.pjac,
                positions,
                region_ids,
                mask,
                num_heads,
                head_dim,
                theta,
                most,
            ) {
                Err(e) => Err(e),
                Ok(attn) => match optional_product_result(
                    attn.x,
                    weights.pjac_layer_scale_x,
                    "jebf_block x joint-attention layer scale failed: "@,
                ) {
                    Err(e) => Err(e),
                    Ok(ax) => match optional_product_result(
                        attn.pool,
                        weights.pjac_layer_scale_pool,
                        "jebf_block pool joint-attention layer scale failed: "@,
                    ) {
                        Err(e) => Err(e),
                        Ok(ap) => match x1.sum(ax) {
                            Err(e) => Err("jebf_block x joint residual failed: "@ + e),
                            Ok(x2) => match pool1.sum(ap) {
                                Err(e) => Err("jebf_block pool joint residual failed: "@ + e),
                                Ok(pool2) => match optional_glu_result(x2, weights.ffn2_x, ONE) {
                                    Err(e) => Err(e),
                                    Ok(x3) => match optional_glu_result(
                                        pool2,
                                        weights.ffn2_pool,
                                        ONE,
                                    ) {
                                        Err(e) => Err(e),
                                        Ok(pool3) => Ok(JointAttentionOutput { pool: pool3, x: x3 }),
                                    },
                                },
                            },
                        },
                    },
                },
            },
        },
    }
}

/// A block of the estimator.
pub fn jebf_block<T: Tensor, L: Layer<T>, F: Layer<T>>(
    pool: T,
    x: T,
    weights: &JebfBlockWeights<T, L, F>,
    positions: &Vec<i32>,
    region_ids: &Vec<i32>,
    mask: &T,
    num_heads: usize,
    head_dim: usize,
    theta: u32,
    most: usize,
) -> (r: Result<JointAttentionOutput<T>, Error>)
    ensures
        modelled_output(r) == jebf_block_result(
            pool.model(),
            x.model(),
            weights.model(),
            positions@,
            region_ids@,
            mask.model(),
            num_heads,
            head_dim,
            theta,
            most,
        ),
{
    let x1 = match optional_glu(x, &weights.ffn1_x, ONE) {
        Ok(t) => t,
        Err(e) => {
            return Err(e);
        },
    };
    let pool1 = match optional_glu(pool, &weights.ffn1_pool, ONE) {
        Ok(t) => t,
        Err(e) => {
            return Err(e);
        },
    };
    let attn = match pjac(
        &pool1,
        &x1,
        &weights.pjac,
        positions,
        region_ids,
        mask,
        num_heads,
        head_dim,
        theta,
        most,
    ) {
        Ok(t) => t,
        Err(e) => {
            return Err(e);
        },
    };
    let ax = match optional_product(
        attn.x,
        &weights.pjac_layer_scale_x,
        "jebf_block x joint-attention layer scale failed: ",
    ) {
        Ok(t) => t,
        Err(e) => {
            return Err(e);
        },
    };
    let ap = match optional_product(
        attn.pool,
        &weights.pjac_layer_scale_pool,
        "jebf_block pool joint-attention layer scale failed: ",
    ) {
        Ok(t) => t,
        Err(e) => {
            return Err(e);
        },
    };
    let x2 = match x1.add(&ax) {
        Ok(t) => t,
        Err(e) => {
            return Err(fail("jebf_block x joint residual failed: ", e));
        },
    };
    let pool2 = match pool1.add(&ap) {
        Ok(t) => t,
        Err(e) => {
            return Err(fail("jebf_block pool joint residual failed: ", e));
        },
    };
    let x3 = match optional_glu(x2, &weights.ffn2_x, ONE) {
        Ok(t) => t,
        Err(e) => {
            return Err(e);
        },
    };
    let pool3 = match optional_glu(pool2, &weights.ffn2_pool, ONE) {
        Ok(t) => t,
        Err(e) => {
            return Err(e);
        },
    };
    Ok(JointAttentionOutput { pool: pool3, x: x3 })
}

// ---------------------------------------------------------------------------
// Configuration
// ---------------------------------------------------------------------------
/// The value of a field that may not be negative.
pub open spec fn non_negative_result(field: Seq<char>, value: int) -> Result<int, Seq<char>> {
    if value < 0 {
        Err("configuration field `"@ + field + "` must be >= 0, got "@ + signed_decimal(value))
    } else {
        Ok(value)
    }
}

/// Reads a field that may not be negative.
pub fn non_negative_usize(field: &str, value: i32) -> (r: Result<usize, Error>)
    ensures
        match r {
            Ok(n) => non_negative_result(field@, value as int) == Ok::<int, Seq<char>>(n as int),
            Err(e) => non_negative_result(field@, value as int) == Err::<int, Seq<char>>(e@),
        },
{
    if value < 0 {
        let mut text = String::from_str("configuration field `");
        text.append(field);
        text.append("` must be >= 0, got ");
        push_signed(&mut text, value as i64);
        return Err(Error::from_text(text));
    }
    Ok(value as usize)
}

/// The value of a field that has to be above zero.
pub open spec fn positive_result(field: Seq<char>, value: int) -> Result<int, Seq<char>> {
    match non_negative_result(field, value) {
        Err(e) => Err(e),
        Ok(n) => if n == 0 {
            Err("configuration field `"@ + field + "` must be > 0"@)
        } else {
            Ok(n)
        },
    }
}

/// Reads a field that has to be above zero.
pub fn positive_usize(field: &str, value: i32) -> (r: Result<usize, Error>)
    ensures
        match r {
            Ok(n) => positive_result(field@, value as int) == Ok::<int, Seq<char>>(n as int),
            Err(e) => positive_result(field@, value as int) == Err::<int, Seq<char>>(e@),
        },
{
    let n: usize = match non_negative_usize(field, value) {
        Ok(n) => n,
        Err(e) => {
            return Err(e);
        },
    };
    if n == 0 {
        let mut text = String::from_str("configuration field `");
        text.append(field);
        text.append("` must be > 0");
        return Err(Error::from_text(text));
    }
    Ok(n)
}

pub open spec fn position_text(label: Seq<char>, value: nat) -> Seq<char> {
    label + " "@ + decimal(value)
        + " exceeds i32::MAX and cannot be represented in model positions"@
}

/// A size as a position.
pub fn usize_to_i32(label: &str, value: usize) -> (r: Result<i32, Error>)
    ensures
        match r {
            Ok(n) => value <= i32::MAX && n == value,
            Err(e) => value > i32::MAX && e@ == position_text(label@, value as nat),
        },
{
    if value > 0x7fff_ffff {
        let mut text = String::from_str(label);
        text.append(" ");
        push_decimal(&mut text, value as u64);
        text.append(" exceeds i32::MAX and cannot be represented in model positions");
        return Err(Error::from_text(text));
    }
    Ok(value as i32)
}

/// The positions of a sequence, counted from zero.
pub fn sequence_positions(len: usize) -> (r: Result<Vec<i32>, Error>)
    ensures
        match r {
            Ok(v) => len <= 0x8000_0000 && v.len() == len && forall|i: int|
                0 <= i < len ==> #[trigger] v@[i] == i,
            Err(e) => len > 0x8000_0000 && e@ == position_text(
                "sequence position"@,
                0x8000_0000,
            ),
        },
{
    let mut v: Vec<i32> = Vec::new();
    let mut i: usize = 0;
    while i < len
        invariant
            i <= len,
            i <= 0x8000_0000,
            v.len() == i,
            forall|j: int| 0 <= j < i ==> #[trigger] v@[j] == j,
        decreases len - i,
    {
        match usize_to_i32("sequence position", i) {
            Ok(n) => v.push(n),
            Err(e) => {
                return Err(e);
            },
        }
        i += 1;
    }
    Ok(v)
}

/// What the weights of layers hold stands where it stands in the weights: the tensors of a
/// layer, of attention and of a stream are not exchanged.
pub proof fn law_weights_of_layers_keep_their_places<T: Tensor>(
    layer: LinearWeights<T>,
    attn: AttentionWeights<T>,
    stream: JointStreamWeights<T>,
    joint: JointAttentionWeights<T>,
    merge: MergeWeights<T>,
    output: JointAttentionOutput<T>,
)
    ensures
        layer.model().weight == layer.weight.model(),
        layer.model().bias == layer.bias.model(),
        attn.model().q == attn.q.model(),
        attn.model().kv == attn.kv.model(),
        attn.model().out == attn.out.model(),
        stream.model().norm == stream.norm.model(),
        stream.model().qkv == stream.qkv.model(),
        stream.model().out == stream.out.model(),
        stream.model().qk_norm is Some <==> stream.qk_norm is Some,
        stream.qk_norm matches Some(n) ==> {
            &&& stream.model().qk_norm->0.q == n.q.model()
            &&& stream.model().qk_norm->0.k == n.k.model()
        },
        joint.model().pool == joint.pool.model(),
        joint.model().x == joint.x.model(),
        merge.model().linear == merge.linear.model(),
        merge.model().dw is Some <==> merge.dw is Some,
        merge.dw matches Some(dw) ==> {
            &&& merge.model().dw->0.weight == dw.weight.model()
            &&& merge.model().dw->0.kernel_size == dw.kernel_size
            &&& merge.model().dw->0.bias is Some <==> dw.bias is Some
            &&& dw.bias matches Some(b) ==> merge.model().dw->0.bias == Some(b.model())
        },
        output.model().pool == output.pool.model(),
        output.model().x == output.x.model(),
{
}

/// What the weights of blocks hold stands where it stands in the weights: branches, scales
/// and streams are not exchanged, and one that is missing is missing.
pub proof fn law_weights_of_blocks_keep_their_places<T: Tensor, L, F>(
    pac: PacWeights<T, L>,
    pjac: PjacWeights<T, L>,
    glu: ResidualGluWeights<T, F>,
    ebf: EbfBlockWeights<T, L, F>,
    jebf: JebfBlockWeights<T, L, F>,
    scale: T,
)
    ensures
        pac.model().a_norm == pac.a_norm.model(),
        pac.model().attn == pac.attn.model(),
        pac.model().c_norm == pac.c_norm.model(),
        pac.model().cgmlp == pac.cgmlp,
        pac.model().merge == pac.merge.model(),
        pjac.model().jattn == pjac.jattn.model(),
        pjac.model().c_norm_pool == pjac.c_norm_pool.model(),
        pjac.model().c_norm_x == pjac.c_norm_x.model(),
        pjac.model().cgmlp_pool == pjac.cgmlp_pool,
        pjac.model().cgmlp_x == pjac.cgmlp_x,
        pjac.model().merge_pool == pjac.merge_pool.model(),
        pjac.model().merge_x == pjac.merge_x.model(),
        glu.model().norm == glu.norm.model(),
        glu.model().ffn == glu.ffn,
        glu.layer_scale is None ==> glu.model().layer_scale is None,
        glu.layer_scale == Some(scale) ==> glu.model().layer_scale == Some(scale.model()),
        ebf.model().pac == ebf.pac.model(),
        ebf.pac_layer_scale is None ==> ebf.model().pac_layer_scale is None,
        ebf.pac_layer_scale == Some(scale) ==> ebf.model().pac_layer_scale == Some(scale.model()),
        ebf.ffn1 is None ==> ebf.model().ffn1 is None,
        ebf.ffn1 == Some(glu) ==> ebf.model().ffn1 == Some(glu.model()),
        ebf.ffn2 is None ==> ebf.model().ffn2 is None,
        ebf.ffn2 == Some(glu) ==> ebf.model().ffn2 == Some(glu.model()),
        jebf.model().pjac == jebf.pjac.model(),
        jebf.pjac_layer_scale_x is None ==> jebf.model().pjac_layer_scale_x is None,
        jebf.pjac_layer_scale_x == Some(scale) ==> jebf.model().pjac_layer_scale_x == Some(
            scale.model(),
        ),
        jebf.pjac_layer_scale_pool is None ==> jebf.model().pjac_layer_scale_pool is None,
        jebf.pjac_layer_scale_pool == Some(scale) ==> jebf.model().pjac_layer_scale_pool == Some(
            scale.model(),
        ),
        jebf.ffn1_x is None ==> jebf.model().ffn1_x is None,
        jebf.ffn1_x == Some(glu) ==> jebf.model().ffn1_x == Some(glu.model()),
        jebf.ffn1_pool is None ==> jebf.model().ffn1_pool is None,
        jebf.ffn1_pool == Some(glu) ==> jebf.model().ffn1_pool == Some(glu.model()),
        jebf.ffn2_x is None ==> jebf.model().ffn2_x is None,
        jebf.ffn2_x == Some(glu) ==> jebf.model().ffn2_x == Some(glu.model()),
        jebf.ffn2_pool is None ==> jebf.model().ffn2_pool is None,
        jebf.ffn2_pool == Some(glu) ==> jebf.model().ffn2_pool == Some(glu.model()),
{
}

/// Numbers of a configuration are taken as they are where they are not below zero, or above
/// it where they must be; there must be heads, and they must have channels.
pub proof fn law_numbers_of_a_configuration(
    field: Seq<char>,
    value: int,
    num_heads: int,
    head_dim: int,
)
    requires
        0 <= num_heads,
        0 <= head_dim,
    ensures
        non_negative_result(field, value) is Ok <==> value >= 0,
        value >= 0 ==> non_negative_result(field, value)->Ok_0 == value,
        positive_result(field, value) is Ok <==> value >= 1,
        value >= 1 ==> positive_result(field, value)->Ok_0 == value,
        head_error(num_heads, head_dim) is None <==> num_heads >= 1 && head_dim >= 1,
{
}

} // verus!
