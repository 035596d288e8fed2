use game_rs::model::blocks::{
    attention, choose_attention_query_chunk_len, ebf_block, jebf_block, joint_attention,
    merge_heads, merge_stream, reshape_for_heads, scaled_dot_product_attention,
    scaled_dot_product_attention_chunked, sequence_positions, validate_head_config,
    AttentionWeights, DepthwiseWeights, EbfBlockWeights, JebfBlockWeights, JointAttentionWeights,
    JointStreamWeights, LinearWeights, MergeWeights, PacWeights, PjacWeights, QkNormWeights,
    ResidualGluWeights,
};
use game_rs::tensor::cpu_kernels::Product;
use game_rs::tensor::dense::DenseTensor;
use game_rs::tensor::numbers::{Algebra, Number};
use game_rs::tensor::ops::{Layer, Tensor};
use game_rs::tensor::whole::Whole;

/// A single-precision number.
#[derive(Debug, Clone, Copy, PartialEq)]
struct Single(f32);

impl Algebra for Single {}

impl Number for Single {
    fn add(self, other: Self) -> Self {
        Single(self.0 + other.0)
    }

    fn mul(self, other: Self) -> Self {
        Single(self.0 * other.0)
    }

    fn scale(self, factor: u32) -> Self {
        Single(self.0 * f32::from_bits(factor))
    }

    fn product(lhs: &Vec<Self>, rhs: &Vec<Self>, p: Product) -> Vec<Self> {
        (0..p.rows * p.cols)
            .map(|i| {
                let (row, col) = (i / p.cols, i % p.cols);
                Single(
                    (0..p.inner)
                        .map(|k| {
                            lhs[p.lhs_offset + row * p.inner + k].0
                                * rhs[p.rhs_offset + k * p.cols + col].0
                        })
                        .sum(),
                )
            })
            .collect()
    }

    fn row_product(lhs: &Vec<Self>, rhs: &Vec<Self>, p: Product) -> Vec<Self> {
        (0..p.rows * p.cols)
            .map(|i| {
                let (row, col) = (i / p.cols, i % p.cols);
                Single(
                    (0..p.inner)
                        .map(|k| {
                            lhs[p.lhs_offset + row * p.inner + k].0
                                * rhs[p.rhs_offset + col * p.inner + k].0
                        })
                        .sum(),
                )
            })
            .collect()
    }

    fn softmax(row: &Vec<Self>) -> Vec<Self> {
        let most = row.iter().map(|v| v.0).fold(f32::NEG_INFINITY, f32::max);
        let sum: f32 = row.iter().map(|v| (v.0 - most).exp()).sum();
        row.iter().map(|v| Single((v.0 - most).exp() / sum)).collect()
    }

    fn norm(row: &Vec<Self>, weight: &Vec<Self>, eps: u32) -> Vec<Self> {
        let mean = row.iter().map(|v| v.0 * v.0).sum::<f32>() / row.len() as f32;
        let scale = 1.0 / (mean + f32::from_bits(eps)).sqrt();
        row.iter().zip(weight).map(|(v, w)| Single(v.0 * scale * w.0)).collect()
    }

    fn turn(
        x: Self,
        y: Self,
        position: i32,
        offset: usize,
        dims: usize,
        theta: u32,
    ) -> (Self, Self) {
        let angle = position as f32 / f32::from_bits(theta).powf(offset as f32 / dims as f32);
        let (sin, cos) = angle.sin_cos();
        (Single(x.0 * cos - y.0 * sin), Single(x.0 * sin + y.0 * cos))
    }

    fn add_product(self, x: Self, y: Self) -> Self {
        Single(self.0 + x.0 * y.0)
    }

    fn nothing() -> Self {
        Single(0.0)
    }

    fn attention_scale(head_dim: usize) -> u32 {
        (1.0 / (head_dim as f32).sqrt()).to_bits()
    }

    fn layer_rows(rows: usize, _: usize, _: usize) -> usize {
        rows.max(1)
    }
}

fn dense(data: &[f32], shape: &[usize]) -> DenseTensor<Single> {
    let data: Vec<Single> = data.iter().map(|v| Single(*v)).collect();
    DenseTensor::from_data(&data, shape).unwrap()
}

fn whole(data: &[u32], shape: &[usize]) -> DenseTensor<Whole> {
    let data: Vec<Whole> = data.iter().map(|v| Whole(*v)).collect();
    DenseTensor::from_data(&data, shape).unwrap()
}

fn numbers(t: &DenseTensor<Whole>) -> Vec<u32> {
    t.to_vec().iter().map(|v| v.0).collect()
}

fn identity(n: usize) -> DenseTensor<Whole> {
    let data: Vec<u32> = (0..n * n).map(|i| if i / n == i % n { 1 } else { 0 }).collect();
    whole(&data, &[n, n])
}

fn zeros(shape: &[usize]) -> DenseTensor<Whole> {
    whole(&vec![0; shape.iter().product()], shape)
}

fn ones(n: usize) -> DenseTensor<Whole> {
    whole(&vec![1; n], &[n])
}

/// A layer that keeps its input.
fn keep(n: usize) -> LinearWeights<DenseTensor<Whole>> {
    LinearWeights { weight: identity(n), bias: zeros(&[n]) }
}

/// A layer that gives its input several times, side by side.
fn repeat(n: usize, times: usize) -> LinearWeights<DenseTensor<Whole>> {
    let data: Vec<u32> =
        (0..times * n * n).map(|i| if i / n % n == i % n { 1 } else { 0 }).collect();
    LinearWeights { weight: whole(&data, &[times * n, n]), bias: zeros(&[times * n]) }
}

/// A layer that adds the two halves of its input.
fn halves_added(n: usize) -> LinearWeights<DenseTensor<Whole>> {
    let data: Vec<u32> =
        (0..n * 2 * n).map(|i| if i / (2 * n) == i % (2 * n) % n { 1 } else { 0 }).collect();
    LinearWeights { weight: whole(&data, &[n, 2 * n]), bias: zeros(&[n]) }
}

fn plain_attention(n: usize) -> AttentionWeights<DenseTensor<Whole>> {
    AttentionWeights { q: keep(n), kv: repeat(n, 2), out: keep(n) }
}

fn plain_stream(n: usize, head_dim: usize) -> JointStreamWeights<DenseTensor<Whole>> {
    JointStreamWeights {
        norm: ones(n),
        qkv: repeat(n, 3),
        qk_norm: Some(QkNormWeights { q: ones(head_dim), k: ones(head_dim) }),
        out: keep(n),
    }
}

#[test]
fn chunked_attention_matches_full_attention_with_mask() {
    let q = dense(
        &[
            1.0, 0.0, 0.5, 0.5, 0.2, 0.8, 0.0, 1.0, //
            0.3, 0.7, 0.6, 0.4, 0.9, 0.1, 0.4, 0.6,
        ],
        &[2, 4, 2],
    );
    let k = dense(
        &[
            0.9, 0.1, 0.1, 0.9, 0.8, 0.2, 0.3, 0.7, //
            0.2, 0.8, 0.7, 0.3, 0.4, 0.6, 0.6, 0.4,
        ],
        &[2, 4, 2],
    );
    let v = dense(
        &[
            0.1, 0.2, 0.3, 0.4, 0.5, 0.6, 0.7, 0.8, //
            0.8, 0.7, 0.6, 0.5, 0.4, 0.3, 0.2, 0.1,
        ],
        &[2, 4, 2],
    );
    let mask = dense(
        &[
            0.0, 0.0, -10_000.0, -10_000.0, //
            0.0, 0.0, 0.0, -10_000.0, //
            0.0, 0.0, 0.0, 0.0, //
            -10_000.0, 0.0, 0.0, 0.0,
        ],
        &[4, 4],
    );

    let full = scaled_dot_product_attention_chunked(&q, &k, &v, Some(&mask), 2, 4).unwrap();
    let chunked = scaled_dot_product_attention_chunked(&q, &k, &v, Some(&mask), 2, 2).unwrap();

    assert_eq!(full.shape(), chunked.shape());
    let full_data = full.to_vec();
    let chunked_data = chunked.to_vec();
    for (lhs, rhs) in full_data.iter().zip(chunked_data.iter()) {
        assert!((lhs.0 - rhs.0).abs() <= 1e-6, "lhs={lhs:?} rhs={rhs:?}");
    }
}

#[test]
fn attention_takes_few_queries_at_a_time_where_scores_are_many() {
    assert_eq!(choose_attention_query_chunk_len(2, 4, 4, 32_000_000), 4);
    assert_eq!(choose_attention_query_chunk_len(2, 4, 4, 16), 2);
    assert_eq!(choose_attention_query_chunk_len(2, 4, 4, 1), 1);
}

#[test]
fn every_query_attends_to_the_key_that_fits_best() {
    let q = whole(&[1, 0, 0, 1], &[1, 2, 2]);
    let k = whole(&[0, 5, 9, 0, 1, 1], &[1, 3, 2]);
    let v = whole(&[10, 11, 20, 21, 30, 31], &[1, 3, 2]);
    let out = scaled_dot_product_attention(&q, &k, &v, None, 2, 100).unwrap();
    assert_eq!(numbers(&out), vec![20, 21, 10, 11]);
    // A mask can turn the choice.
    let mask = whole(&[0, 0, 50, 0, 0, 50], &[2, 3]);
    let out = scaled_dot_product_attention(&q, &k, &v, Some(&mask), 2, 3).unwrap();
    assert_eq!(numbers(&out), vec![30, 31, 30, 31]);
}

#[test]
fn attention_refuses_what_does_not_go_together() {
    let q = zeros(&[2, 7, 4]);
    let k = zeros(&[2, 9, 4]);
    let flat = zeros(&[9, 4]);
    let err = scaled_dot_product_attention(&q, &flat, &k, None, 4, 100).err().unwrap();
    assert_eq!(
        err.text,
        "scaled_dot_product_attention expects rank-3 tensors, got q=[2, 7, 4], k=[9, 4], v=[2, 9, 4]"
    );
    let heads = zeros(&[3, 9, 4]);
    let err = scaled_dot_product_attention(&q, &heads, &k, None, 4, 100).err().unwrap();
    assert!(err.text.starts_with("scaled_dot_product_attention head count mismatch: "));
    let narrow = zeros(&[2, 9, 3]);
    let err = scaled_dot_product_attention(&q, &narrow, &k, None, 4, 100).err().unwrap();
    assert!(err.text.starts_with("scaled_dot_product_attention head dimension mismatch: "));
    let short = zeros(&[2, 8, 4]);
    let err = scaled_dot_product_attention(&q, &k, &short, None, 4, 100).err().unwrap();
    assert_eq!(
        err.text,
        "scaled_dot_product_attention key/value sequence mismatch: k=[2, 9, 4], v=[2, 8, 4]"
    );
}

#[test]
fn heads_are_split_and_merged() {
    let x = whole(&(0..12).collect::<Vec<u32>>(), &[2, 6]);
    let heads = reshape_for_heads(&x, 3, 2).unwrap();
    assert_eq!(heads.shape(), vec![3, 2, 2]);
    assert_eq!(numbers(&heads), vec![0, 1, 6, 7, 2, 3, 8, 9, 4, 5, 10, 11]);
    assert_eq!(numbers(&merge_heads(&heads).unwrap()), numbers(&x));
    assert_eq!(
        reshape_for_heads(&x, 4, 2).err().unwrap().text,
        "reshape_for_heads expected last dim 8, got shape [2, 6]"
    );
    assert_eq!(
        merge_heads(&x).err().unwrap().text,
        "merge_heads expects [num_heads, seq_len, head_dim], got [2, 6]"
    );
}

#[test]
fn dense_tensors_do_what_operations_say() {
    let m = whole(&(0..24).collect::<Vec<u32>>(), &[4, 6]);
    let t = m.transpose(0, 1).unwrap();
    assert_eq!(t.shape(), vec![6, 4]);
    assert_eq!(numbers(&t)[..5], [0, 6, 12, 18, 1]);
    let s = m.slice(1, 2, 5).unwrap();
    assert_eq!(s.shape(), vec![4, 3]);
    assert_eq!(numbers(&s)[..4], [2, 3, 4, 8]);
    assert_eq!(m.reshape(&vec![2, 3, 4]).unwrap().shape(), vec![2, 3, 4]);
    let row = whole(&[1, 2, 3, 4, 5, 6], &[6]);
    assert_eq!(numbers(&m.add(&row).unwrap())[..7], [1, 3, 5, 7, 9, 11, 7]);
    assert_eq!(numbers(&m.mul(&row).unwrap())[..7], [0, 2, 6, 12, 20, 30, 6]);
    assert_eq!(numbers(&m.scale(3).unwrap())[..3], [0, 3, 6]);
    let w = whole(&[1, 0, 0, 0, 0, 0, 1, 1, 1, 1, 1, 1], &[2, 6]);
    let bias = whole(&[100, 200], &[2]);
    let image = m.linear(&w, Some(&bias)).unwrap();
    assert_eq!(numbers(&image), vec![100, 215, 106, 251, 112, 287, 118, 323]);
    assert_eq!(numbers(&m.linear(&w, None).unwrap())[..2], [0, 15]);
    let right = whole(&[1, 0, 0, 1, 0, 0, 0, 0, 0, 0, 0, 0], &[6, 2]);
    assert_eq!(numbers(&m.matmul(&right).unwrap()), vec![0, 1, 6, 7, 12, 13, 18, 19]);
    let (a, b) = m.split_last_dim_two().unwrap();
    assert_eq!((numbers(&a)[..4].to_vec(), numbers(&b)[..4].to_vec()), (vec![0, 1, 2, 6], vec![3, 4, 5, 9]));
    let (_, _, c) = m.split_last_dim_three().unwrap();
    assert_eq!(numbers(&c), vec![4, 5, 10, 11, 16, 17, 22, 23]);
    let joined = DenseTensor::concat(&vec![whole(&[7; 6], &[1, 6]), row.reshape(&vec![1, 6]).unwrap()], 0);
    assert_eq!(numbers(&joined.unwrap()), vec![7, 7, 7, 7, 7, 7, 1, 2, 3, 4, 5, 6]);
    let kernel = whole(&[1, 10], &[1, 2]);
    let x = whole(&[1, 2, 3], &[3, 1]);
    let y = x.conv1d_dw(&kernel, Some(&whole(&[5], &[1])), 1, 1).unwrap();
    assert_eq!(numbers(&y), vec![15, 26, 37, 8]);
    let normed = m.rms_norm(&row, 0).unwrap();
    assert_eq!(numbers(&normed)[..7], [0, 2, 6, 12, 20, 30, 6]);
    assert_eq!(numbers(&m.softmax(-1).unwrap())[..7], [0, 0, 0, 0, 0, 1, 0]);
    assert_eq!(numbers(&m.softmax(0).unwrap())[18..], [1, 1, 1, 1, 1, 1]);
}

#[test]
fn dense_tensors_turn_channels_by_position() {
    let x = whole(&[1, 2, 3, 4, 5, 6, 7, 8], &[1, 2, 4]);
    let turned = x.rope(&vec![0, 2], 4, 1, 0).unwrap();
    let minus = |v: u32| 0u32.wrapping_sub(v);
    assert_eq!(
        numbers(&turned),
        vec![1, 2, 3, 4, minus(5), minus(6), minus(7), minus(8)]
    );
    let mixed = x.region_rope(&vec![0, 0], &vec![0, 2], 4, 1, 0).unwrap();
    assert_eq!(numbers(&mixed), vec![1, 2, 3, 4, 5, 6, minus(7), minus(8)]);
    assert!(x.rope(&vec![0], 4, 1, 0).is_err());
    assert_eq!(
        x.region_rope(&vec![0, 0], &vec![0], 4, 1, 0).err().unwrap().text,
        "region_rope expected 2 region ids, got 1"
    );
}

#[test]
fn dense_tensors_refuse_what_does_not_fit() {
    let m = zeros(&[4, 6]);
    let text = |r: Result<DenseTensor<Whole>, game_rs::error::Error>| r.err().unwrap().text;
    assert!(text(m.reshape(&vec![5])).contains("element count mismatch"));
    assert_eq!(text(m.transpose(0, 2)), "transpose axis 2 is out of bounds for rank 2");
    assert_eq!(text(m.slice(0, 3, 2)), "slice end 2 is less than start 3");
    assert!(text(m.add(&zeros(&[5]))).starts_with("cannot broadcast shapes "));
    assert!(text(zeros(&[0, 2]).add(&zeros(&[1, 2])))
        .starts_with("cannot broadcast a tensor without elements: "));
    assert_eq!(text(m.softmax(2)), "softmax axis 2 is out of bounds for rank 2");
    assert!(text(m.rms_norm(&zeros(&[5]), 0)).starts_with("rms_norm weight must have shape [6]"));
    assert_eq!(text(DenseTensor::concat(&vec![], 0)), "concat requires at least one tensor");
    assert_eq!(
        text(DenseTensor::concat(&vec![zeros(&[usize::MAX, 0]), zeros(&[usize::MAX, 0])], 0)),
        "concat dimension overflow"
    );
    assert_eq!(
        text(zeros(&[usize::MAX, 0]).conv1d_dw(&zeros(&[0, 1]), None, 0, 0)),
        "conv1d_dw requires stride > 0"
    );
    assert_eq!(
        zeros(&[]).split_last_dim_two().err().unwrap().text,
        "split requires a tensor with at least one dimension"
    );
    assert_eq!(
        m.split_last_dim_three().map(|_| ()).is_ok(),
        true
    );
    assert_eq!(
        zeros(&[2, 5]).split_last_dim_two().err().unwrap().text,
        "cannot split the last axis of [2, 5] in 2"
    );
    let short: Vec<Whole> = vec![Whole(1)];
    assert!(DenseTensor::from_data(&short, &[2]).is_err());
}

#[test]
fn attention_passes_on_the_position_that_fits_best() {
    // With plain weights every position attends to the largest of the products.
    let x = whole(&[1, 0, 0, 3], &[2, 2]);
    let out = attention(&x, &plain_attention(2), &vec![0, 0], 1, 2, 0, 100).unwrap();
    assert_eq!(numbers(&out), vec![1, 0, 0, 3]);
    let err = attention(&x, &plain_attention(2), &vec![0, 0], 0, 2, 0, 100).err().unwrap();
    assert_eq!(err.text, "attention requires num_heads > 0");
    let err = attention(&x, &plain_attention(2), &vec![0], 1, 2, 0, 100).err().unwrap();
    assert!(err.text.starts_with("attention q rope failed: rope expected seq_len=1"));
}

#[test]
fn joint_attention_takes_both_streams() {
    let weights = JointAttentionWeights { pool: plain_stream(4, 4), x: plain_stream(4, 4) };
    let pool = whole(&[9, 0, 0, 0], &[1, 4]);
    let x = whole(&[1, 0, 0, 0, 0, 2, 0, 0], &[2, 4]);
    let mask = zeros(&[3, 3]);
    let zero = vec![0, 0, 0];
    let out = joint_attention(&pool, &x, &weights, &zero, &zero, &mask, 1, 4, 0, 100).unwrap();
    assert_eq!(numbers(&out.pool), vec![9, 0, 0, 0]);
    assert_eq!(numbers(&out.x), vec![9, 0, 0, 0, 0, 2, 0, 0]);
    let err = joint_attention(&pool, &x, &weights, &vec![0], &zero, &mask, 1, 4, 0, 100);
    assert_eq!(
        err.err().unwrap().text,
        "joint_attention expected 3 global positions, got 1"
    );
    let err = joint_attention(&pool, &x, &weights, &zero, &vec![0], &mask, 1, 4, 0, 100);
    assert_eq!(err.err().unwrap().text, "joint_attention expected 3 region ids, got 1");
}

#[test]
fn streams_are_merged_and_smoothed() {
    let weights = MergeWeights { dw: None, linear: halves_added(2) };
    let a = whole(&[1, 2, 3, 4], &[2, 2]);
    let b = whole(&[10, 20, 30, 40], &[2, 2]);
    let out = merge_stream(a.reshape(&vec![2, 2]).unwrap(), b.reshape(&vec![2, 2]).unwrap(), &weights);
    assert_eq!(numbers(&out.unwrap()), vec![11, 22, 33, 44]);
    // The convolution takes the row before, and is added to the input.
    let smooth = MergeWeights {
        dw: Some(DepthwiseWeights {
            weight: whole(&[1, 0, 0, 1, 0, 0, 1, 0, 0, 1, 0, 0], &[4, 3]),
            bias: None,
            kernel_size: 3,
        }),
        linear: halves_added(2),
    };
    assert_eq!(numbers(&merge_stream(a, b, &smooth).unwrap()), vec![11, 22, 44, 66]);
    let stack = zeros(&[1, 2, 2]);
    let err = merge_stream(stack, zeros(&[1, 2, 2]), &weights).err().unwrap();
    assert!(err.text.starts_with("merge_stream attention expects a rank-2 tensor"));
}

fn plain_merge(n: usize) -> MergeWeights<DenseTensor<Whole>> {
    MergeWeights { dw: None, linear: halves_added(n) }
}

type Keep = LinearWeights<DenseTensor<Whole>>;

#[test]
fn blocks_add_what_they_find_to_the_stream() {
    let weights: EbfBlockWeights<DenseTensor<Whole>, Keep, Keep> = EbfBlockWeights {
        ffn1: None,
        pac: PacWeights {
            a_norm: ones(2),
            attn: plain_attention(2),
            c_norm: ones(2),
            cgmlp: keep(2),
            merge: plain_merge(2),
        },
        pac_layer_scale: Some(whole(&[10, 100], &[2])),
        ffn2: None,
    };
    let x = whole(&[1, 0, 0, 3], &[2, 2]);
    let out = ebf_block(x, &weights, &vec![0, 0], 1, 2, 0, 100).unwrap();
    // Attention and the branch both give the input again, which is then scaled.
    assert_eq!(numbers(&out), vec![21, 0, 0, 603]);
}

#[test]
fn joint_blocks_keep_both_streams() {
    let glu = || Some(ResidualGluWeights { norm: ones(4), ffn: keep(4), layer_scale: None });
    let weights: JebfBlockWeights<DenseTensor<Whole>, Keep, Keep> = JebfBlockWeights {
        ffn1_x: glu(),
        ffn1_pool: None,
        pjac: PjacWeights {
            jattn: JointAttentionWeights { pool: plain_stream(4, 4), x: plain_stream(4, 4) },
            c_norm_pool: ones(4),
            c_norm_x: ones(4),
            cgmlp_pool: keep(4),
            cgmlp_x: keep(4),
            merge_pool: plain_merge(4),
            merge_x: plain_merge(4),
        },
        pjac_layer_scale_x: None,
        pjac_layer_scale_pool: None,
        ffn2_x: None,
        ffn2_pool: glu(),
    };
    let pool = whole(&[9, 0, 0, 0], &[1, 4]);
    let x = whole(&[0, 2, 0, 0], &[1, 4]);
    let zero = vec![0, 0];
    let out = jebf_block(pool, x, &weights, &zero, &zero, &zeros(&[2, 2]), 1, 4, 0, 100).unwrap();
    // The sequence is doubled by its gated branch, then tripled by attention and the
    // branch beside it; the pool is tripled, then doubled.
    assert_eq!(numbers(&out.x), vec![0, 12, 0, 0]);
    assert_eq!(numbers(&out.pool), vec![54, 0, 0, 0]);
}

#[test]
fn linear_weights_are_a_layer() {
    let x = whole(&[1, 2], &[1, 2]);
    assert_eq!(numbers(&repeat(2, 2).apply(&x).unwrap()), vec![1, 2, 1, 2]);
    assert!(repeat(3, 2).apply(&x).is_err());
}

#[test]
fn head_configurations_and_positions() {
    assert!(validate_head_config(2, 4).is_ok());
    assert!(validate_head_config(0, 4).is_err());
    assert!(validate_head_config(2, 0).is_err());
    assert_eq!(sequence_positions(3).unwrap(), vec![0, 1, 2]);
}
