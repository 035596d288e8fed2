use game_rs::tensor::cpu::CpuTensor;
use game_rs::tensor::cpu_kernels::Product;

type T = CpuTensor<f32>;

fn tensor(shape: &[usize], data: &[f32]) -> T {
    T::from_data(data, shape).expect("tensor should build")
}

fn assert_close(actual: &[f32], expected: &[f32]) {
    assert_eq!(
        actual.len(),
        expected.len(),
        "length mismatch: actual={actual:?} expected={expected:?}"
    );
    for (index, (actual, expected)) in actual.iter().zip(expected).enumerate() {
        let diff = (actual - expected).abs();
        assert!(
            diff <= 1e-4,
            "value mismatch at index {index}: actual={actual} expected={expected} diff={diff}"
        );
    }
}

fn assert_tensor(tensor: &T, shape: &[usize], expected: &[f32]) {
    assert_eq!(&tensor.shape()[..], shape);
    let mut out = vec![0.0; tensor.num_elements()];
    tensor.export(&mut out).expect("export should succeed");
    assert_close(&out, expected);
}

/// The product of two matrices in rows.
fn product(lhs: &Vec<f32>, rhs: &Vec<f32>, p: Product) -> Vec<f32> {
    let mut out = vec![0.0; p.rows * p.cols];
    for i in 0..p.rows {
        for j in 0..p.cols {
            out[i * p.cols + j] = (0..p.inner)
                .map(|k| {
                    lhs[p.lhs_offset + i * p.inner + k] * rhs[p.rhs_offset + k * p.cols + j]
                })
                .sum();
        }
    }
    out
}

/// The product of a matrix with the transpose of the other.
fn product_transposed(lhs: &Vec<f32>, rhs: &Vec<f32>, p: Product) -> Vec<f32> {
    let mut out = vec![0.0; p.rows * p.cols];
    for i in 0..p.rows {
        for j in 0..p.cols {
            out[i * p.cols + j] = (0..p.inner)
                .map(|k| {
                    lhs[p.lhs_offset + i * p.inner + k] * rhs[p.rhs_offset + j * p.inner + k]
                })
                .sum();
        }
    }
    out
}

fn softmax(row: &Vec<f32>) -> Vec<f32> {
    let most = row.iter().copied().fold(f32::NEG_INFINITY, f32::max);
    let sum: f32 = row.iter().map(|v| (v - most).exp()).sum();
    row.iter().map(|v| (v - most).exp() / sum).collect()
}

fn normalize(eps: f32) -> impl Fn(&Vec<f32>, &Vec<f32>) -> Vec<f32> {
    move |row, weight| {
        let mean = row.iter().map(|v| v * v).sum::<f32>() / row.len() as f32;
        let scale = 1.0 / (mean + eps).sqrt();
        row.iter().zip(weight).map(|(v, w)| v * scale * w).collect()
    }
}

fn rotate(theta: f32) -> impl Fn(f32, f32, i32, usize, usize) -> (f32, f32) {
    move |x, y, position, offset, dims| {
        let angle = position as f32 / theta.powf(offset as f32 / dims as f32);
        let (sin, cos) = angle.sin_cos();
        (x * cos - y * sin, x * sin + y * cos)
    }
}

fn erf(x: f32) -> f32 {
    let sign = if x < 0.0 { -1.0 } else { 1.0 };
    let x = x.abs();
    let t = 1.0 / (1.0 + 0.327_591_1 * x);
    let y = 1.0
        - (((((1.061_405_4 * t - 1.453_152_1) * t + 1.421_413_8) * t - 0.284_496_72) * t
            + 0.254_829_6)
            * t)
            * (-x * x).exp();
    sign * y
}

fn plus(a: f32, b: f32) -> f32 {
    a + b
}

#[test]
fn cpu_roundtrip_matches_uploaded_values() {
    let data = [1.0, 2.0, 3.0, 4.0, 5.0, 6.0];
    assert_tensor(&tensor(&[2, 3], &data), &[2, 3], &data);
}

#[test]
fn cpu_layout_ops_preserve_view_semantics() {
    let base = tensor(&[3, 2], &[1.0, 2.0, 3.0, 4.0, 5.0, 6.0]);
    let head = base.duplicate().slice(0, 0, 1).unwrap();
    let tail = base.duplicate().slice(0, 1, 3).unwrap();
    let transposed = tail.duplicate().transpose(0, 1).unwrap();
    let compact = transposed.duplicate().contiguous();
    let reshaped = compact.reshape(&[4]).unwrap();
    let joined = T::concat(&vec![&head, &tail], 0).unwrap();

    assert_tensor(&tail, &[2, 2], &[3.0, 4.0, 5.0, 6.0]);
    assert_tensor(&transposed, &[2, 2], &[3.0, 5.0, 4.0, 6.0]);
    assert_tensor(&reshaped, &[4], &[3.0, 5.0, 4.0, 6.0]);
    assert_tensor(&joined, &[3, 2], &[1.0, 2.0, 3.0, 4.0, 5.0, 6.0]);

    let left = tensor(&[2, 1], &[10.0, 20.0]);
    let mid = tensor(&[2, 2], &[30.0, 40.0, 50.0, 60.0]);
    let right = tensor(&[2, 1], &[70.0, 80.0]);
    let axis1 = T::concat(&vec![&left, &mid, &right], 1).unwrap();
    assert_tensor(&axis1, &[2, 4], &[10.0, 30.0, 40.0, 70.0, 20.0, 50.0, 60.0, 80.0]);

    let middle_cols = axis1.duplicate().slice(1, 1, 3).unwrap();
    assert_tensor(&middle_cols, &[2, 2], &[30.0, 40.0, 50.0, 60.0]);

    let transposed_col = base.duplicate().transpose(0, 1).unwrap().slice(1, 1, 2).unwrap();
    assert_tensor(&transposed_col, &[2, 1], &[3.0, 4.0]);

    let kv = tensor(&[2, 4], &[1.0, 2.0, 10.0, 20.0, 3.0, 4.0, 30.0, 40.0]);
    let (k, v) = kv.split_last_dim_two_for_attention_heads(1, 2).unwrap();
    assert_tensor(&k, &[1, 2, 2], &[1.0, 2.0, 3.0, 4.0]);
    assert_tensor(&v, &[1, 2, 2], &[10.0, 20.0, 30.0, 40.0]);

    let qkv = tensor(
        &[2, 6],
        &[1.0, 2.0, 10.0, 20.0, 100.0, 200.0, 3.0, 4.0, 30.0, 40.0, 300.0, 400.0],
    );
    let (q, k, v) = qkv.split_last_dim_three_for_attention_heads(1, 2).unwrap();
    assert_tensor(&q, &[1, 2, 2], &[1.0, 2.0, 3.0, 4.0]);
    assert_tensor(&k, &[1, 2, 2], &[10.0, 20.0, 30.0, 40.0]);
    assert_tensor(&v, &[1, 2, 2], &[100.0, 200.0, 300.0, 400.0]);
}

#[test]
fn cpu_broadcast_add_and_mul_match_expected_values() {
    let lhs = tensor(&[2, 3], &[1.0, 2.0, 3.0, 4.0, 5.0, 6.0]);
    let rhs = tensor(&[3], &[10.0, 20.0, 30.0]);
    let mul = tensor(&[3], &[1.0, 2.0, 3.0]);

    let added = lhs.duplicate().binary_op(&rhs, plus).unwrap();
    let multiplied = lhs.binary_op(&mul, |a, b| a * b).unwrap();

    assert_tensor(&added, &[2, 3], &[11.0, 22.0, 33.0, 14.0, 25.0, 36.0]);
    assert_tensor(&multiplied, &[2, 3], &[1.0, 4.0, 9.0, 4.0, 10.0, 18.0]);
}

#[test]
fn cpu_matmul_supports_2d_and_batched_3d_inputs() {
    let lhs = tensor(&[2, 3], &[1.0, 2.0, 3.0, 4.0, 5.0, 6.0]);
    let rhs = tensor(&[3, 2], &[7.0, 8.0, 9.0, 10.0, 11.0, 12.0]);
    assert_tensor(&lhs.matmul(&rhs, product).unwrap(), &[2, 2], &[58.0, 64.0, 139.0, 154.0]);

    let batched_lhs = tensor(&[2, 2, 2], &[1.0, 2.0, 3.0, 4.0, 5.0, 6.0, 7.0, 8.0]);
    let batched_rhs = tensor(&[2, 2, 1], &[10.0, 20.0, 30.0, 40.0]);
    let batched = batched_lhs.matmul(&batched_rhs, product).unwrap();
    assert_tensor(&batched, &[2, 2, 1], &[50.0, 110.0, 390.0, 530.0]);
}

#[test]
fn matmul_handles_views_and_rejects_unsupported_batch_shapes() {
    let lhs = tensor(&[2, 3], &[1.0, 2.0, 3.0, 4.0, 5.0, 6.0]);
    let rhs_view = tensor(&[2, 3], &[1.0, 2.0, 3.0, 4.0, 5.0, 6.0]).transpose(0, 1).unwrap();
    assert_tensor(&lhs.matmul(&rhs_view, product).unwrap(), &[2, 2], &[14.0, 32.0, 32.0, 77.0]);

    let empty_lhs = tensor(&[2, 0], &[]);
    let empty_rhs = tensor(&[0, 3], &[]);
    let empty_product = empty_lhs.matmul(&empty_rhs, product).unwrap();
    assert_tensor(&empty_product, &[2, 3], &[0.0; 6]);

    let values: Vec<f32> = (1..=12).map(|v| v as f32).collect();
    let higher_rank_lhs = tensor(&[2, 3, 1, 2], &values);
    let flattened_batch_rhs = tensor(&[6, 2, 1], &values);
    assert!(higher_rank_lhs.matmul(&flattened_batch_rhs, product).is_err());
}

#[test]
fn matmul_in_chunks_gives_the_same_product() {
    let lhs = tensor(&[3, 2], &[1.0, 2.0, 3.0, 4.0, 5.0, 6.0]);
    let rhs = tensor(&[2, 2], &[1.0, 0.0, 2.0, 1.0]);
    let whole = lhs.matmul(&rhs, product).unwrap();
    for chunk in 1..5 {
        let parts = lhs.matmul_in_chunks(&rhs, chunk, product).unwrap();
        assert_eq!(parts.to_vec(), whole.to_vec());
    }
}

#[test]
fn cpu_linear_applies_weight_rows_and_optional_bias() {
    let x = tensor(&[2, 3], &[1.0, 2.0, 3.0, 4.0, 5.0, 6.0]);
    let weight = tensor(
        &[4, 3],
        &[1.0, 0.0, 0.0, 0.0, 1.0, 0.0, 0.0, 0.0, 1.0, 1.0, 1.0, 1.0],
    );
    let bias = tensor(&[4], &[0.5, -0.5, 1.0, 2.0]);

    let out = x.linear(&weight, Some(&bias), 1, product_transposed, plus).unwrap();
    assert_tensor(&out, &[2, 4], &[1.5, 1.5, 4.0, 8.0, 4.5, 4.5, 7.0, 17.0]);
    let plain = x.linear(&weight, None, 2, product_transposed, plus).unwrap();
    assert_tensor(&plain, &[2, 4], &[1.0, 2.0, 3.0, 6.0, 4.0, 5.0, 6.0, 15.0]);
}

#[test]
fn cpu_normalization_and_activation_ops_match_reference_values() {
    let norm_x = tensor(&[2, 2], &[1.0, 2.0, 3.0, 4.0]);
    let norm_weight = tensor(&[2], &[1.0, 2.0]);
    let normed = norm_x.rms_norm(&norm_weight, normalize(0.0)).unwrap();
    assert_tensor(&normed, &[2, 2], &[0.6324555, 2.529822, 0.84852815, 2.2627418]);

    let sigmoid = tensor(&[3], &[-1.0, 0.0, 1.0]).unary_op(|v| 1.0 / (1.0 + (-v).exp()));
    assert_tensor(&sigmoid, &[3], &[0.26894143, 0.5, 0.7310586]);

    let gelu = tensor(&[3], &[-1.0, 0.0, 1.0])
        .unary_op(|v| 0.5 * v * (1.0 + erf(v / std::f32::consts::SQRT_2)));
    assert_tensor(&gelu, &[3], &[-0.15865529, 0.0, 0.8413447]);

    let soft = tensor(&[2, 2], &[1.0, 2.0, 3.0, 4.0]).softmax(-1, softmax).unwrap();
    assert_tensor(&soft, &[2, 2], &[0.26894143, 0.7310586, 0.26894143, 0.7310586]);
}

#[test]
fn softmax_works_along_any_axis() {
    let down = tensor(&[2, 2], &[1.0, 2.0, 3.0, 4.0]).softmax(0, softmax).unwrap();
    assert_tensor(&down, &[2, 2], &[0.11920292, 0.11920292, 0.880797, 0.880797]);
    assert!(tensor(&[2, 2], &[1.0; 4]).softmax(2, softmax).is_err());
    assert!(tensor(&[2, 2], &[1.0; 4]).softmax(-3, softmax).is_err());
}

#[test]
fn cpu_rope_rotates_each_head_using_global_positions() {
    let x = tensor(&[1, 2, 4], &[1.0, 0.0, 0.0, 1.0, 1.0, 0.0, 0.0, 1.0]);
    let y = x.rope(&[0, 1], 4, 1, 4, rotate(10_000.0)).unwrap();

    let expected = vec![
        1.0,
        0.0,
        0.0,
        1.0,
        1.0f32.cos(),
        1.0f32.sin(),
        -0.01f32.sin(),
        0.01f32.cos(),
    ];
    assert_tensor(&y, &[1, 2, 4], &expected);
}

#[test]
fn cpu_region_rope_splits_global_and_region_rotation_halves() {
    let x = tensor(&[1, 2, 4], &[1.0, 0.0, 1.0, 0.0, 1.0, 0.0, 1.0, 0.0]);
    let y = x.region_rope(&[0, 1], &[2, 3], 4, 1, 4, rotate(10_000.0)).unwrap();

    let expected = vec![
        1.0,
        0.0,
        2.0f32.cos(),
        2.0f32.sin(),
        1.0f32.cos(),
        1.0f32.sin(),
        3.0f32.cos(),
        3.0f32.sin(),
    ];
    assert_tensor(&y, &[1, 2, 4], &expected);
}

#[test]
fn ropes_refuse_positions_that_do_not_fit() {
    let x = tensor(&[1, 2, 4], &[0.0; 8]);
    assert!(x.duplicate().rope(&[0], 4, 1, 4, rotate(10_000.0)).is_err());
    assert!(x.duplicate().rope(&[0, 1], 3, 1, 4, rotate(10_000.0)).is_err());
    assert!(x.duplicate().region_rope(&[0, 1], &[0], 4, 1, 4, rotate(10_000.0)).is_err());
    assert!(x.region_rope(&[0, 1], &[0, 1], 4, 1, 2, rotate(10_000.0)).is_err());
}

#[test]
fn cpu_depthwise_conv_applies_per_channel_kernels() {
    let input = tensor(&[4, 2], &[1.0, 10.0, 2.0, 20.0, 3.0, 30.0, 4.0, 40.0]);
    let kernel = tensor(&[2, 3], &[1.0, 0.0, -1.0, 1.0, 1.0, 1.0]);
    let bias = tensor(&[2], &[1.0, -1.0]);

    let out = input
        .conv1d_dw(&kernel, Some(&bias), 1, 1, 0.0, |sum, x, w| sum + x * w)
        .unwrap();
    assert_tensor(&out, &[4, 2], &[-1.0, 29.0, -1.0, 59.0, -1.0, 89.0, 4.0, 69.0]);
}

#[test]
fn convolution_takes_steps_and_refuses_none() {
    let input = tensor(&[4, 1], &[1.0, 2.0, 3.0, 4.0]);
    let kernel = tensor(&[1, 2], &[1.0, 1.0]);
    let mac = |sum: f32, x: f32, w: f32| sum + x * w;
    let out = input.conv1d_dw(&kernel, None, 2, 0, 0.0, mac).unwrap();
    assert_tensor(&out, &[2, 1], &[3.0, 7.0]);
    assert!(input.conv1d_dw(&kernel, None, 0, 0, 0.0, mac).is_err());
}

#[test]
fn cpu_embedding_and_repeat_return_expected_rows() {
    let table = tensor(&[3, 2], &[1.0, 2.0, 3.0, 4.0, 5.0, 6.0]);
    let embedded = T::embedding(&table, &[2, 0]).unwrap();
    assert_tensor(&embedded, &[2, 2], &[5.0, 6.0, 1.0, 2.0]);

    let repeated = embedded.duplicate().repeat(0, 3).unwrap();
    assert_tensor(
        &repeated,
        &[6, 2],
        &[5.0, 6.0, 1.0, 2.0, 5.0, 6.0, 1.0, 2.0, 5.0, 6.0, 1.0, 2.0],
    );

    let axis1 = embedded.repeat(1, 2).unwrap();
    assert_tensor(&axis1, &[2, 4], &[5.0, 6.0, 5.0, 6.0, 1.0, 2.0, 1.0, 2.0]);

    assert!(T::embedding(&table, &[3]).is_err());
    assert!(T::embedding(&table, &[-1]).is_err());
}

#[test]
fn attention_heads_are_laid_out_and_merged_again() {
    let x = tensor(&[2, 4], &[1.0, 2.0, 3.0, 4.0, 5.0, 6.0, 7.0, 8.0]);
    let heads = x.duplicate().layout_for_attention_heads(2, 2).unwrap();
    assert_tensor(&heads, &[2, 2, 2], &[1.0, 2.0, 5.0, 6.0, 3.0, 4.0, 7.0, 8.0]);
    let merged = heads.merge_attention_heads().unwrap();
    assert_tensor(&merged, &[2, 4], &x.to_vec());
}

#[test]
fn attention_scores_are_normalised_under_the_mask() {
    let q = tensor(&[1, 2, 1], &[1.0, 2.0]);
    let k_t = tensor(&[1, 1, 2], &[0.5, 1.0]);
    let mask = tensor(&[2, 2], &[0.0, -10_000.0, 0.0, 0.0]);
    let probs =
        T::attention_score_softmax(&q, &k_t, Some(&mask), product, plus, softmax).unwrap();
    assert_tensor(&probs, &[1, 2, 2], &[1.0, 0.0, 0.26894143, 0.7310586]);
    let v = tensor(&[1, 2, 1], &[10.0, 20.0]);
    let out = T::attention_value_matmul(&probs, &v, 1, product).unwrap();
    assert_tensor(&out, &[1, 2, 1], &[10.0, 17.310586]);
}

#[test]
fn gated_halves_are_combined() {
    let x = tensor(&[1, 4], &[1.0, 2.0, 3.0, 4.0]);
    let out = x.split_last_dim_two_gelu_mul(|a, b| a * 10.0 + b).unwrap();
    assert_eq!(out.shape()[..], [1, 2]);
    assert!(tensor(&[1, 3], &[0.0; 3]).split_last_dim_two_gelu_mul(|a, _| a).is_err());
}

#[test]
fn shapes_must_fit_their_data() {
    assert_eq!(
        T::from_data(&[1.0], &[2]).unwrap_err().text,
        "tensor data length 1 does not match shape [2] (2 elements)"
    );
    assert!(T::from_data(&[], &[usize::MAX, 2]).is_err());
    assert!(tensor(&[2, 2], &[0.0; 4]).reshape(&[3]).is_err());
    assert!(tensor(&[2, 2], &[0.0; 4]).slice(0, 1, 3).is_err());
    assert!(tensor(&[2, 2], &[0.0; 4]).slice(2, 0, 1).is_err());
    assert!(tensor(&[2, 2], &[0.0; 4]).transpose(0, 2).is_err());
    assert_tensor(&T::filled(&[2], 0.5).unwrap(), &[2], &[0.5, 0.5]);
}
