use game_rs::tensor::dispatch::{
    bytes_for_elements, check_same_device, div_ceil_u32, elementwise_workgroups, needs_dispatch,
    plan_arithmetic, plan_concat, plan_contiguous, plan_conv1d_dw, plan_embedding, plan_linear,
    plan_matmul, plan_readback, plan_region_rope, plan_repeat, plan_rms_norm, plan_rope,
    plan_softmax, plan_unary, usize_to_u32, ConcatPlan, ContiguousPlan, GpuPlan,
};
use game_rs::tensor::schedule::{
    choose_attention_rows, choose_parallel_row_chunk_len, choose_row_chunk_len, decide_attention,
    decide_elements, decide_linear, decide_target_tasks, linear_min_outputs_per_chunk, linear_target_tasks,
    should_parallelize,
};
use game_rs::tensor::shape::{broadcast_shape, checked_num_elements, contiguous_strides};
use game_rs::tensor::view::{ExportPlan, GpuTensor, ReshapePlan};

#[test]
fn products_are_planned_over_rows_and_columns() {
    match plan_matmul(&[4, 9, 3], &[4, 3, 17]).unwrap() {
        GpuPlan::Run { shape, elements, params, workgroups } => {
            assert_eq!(shape, vec![4, 9, 17]);
            assert_eq!(elements, 4 * 9 * 17);
            assert_eq!((params.batch, params.m, params.k, params.n), (4, 9, 3, 17));
            assert_eq!(workgroups, (3, 2, 4));
        }
        _ => panic!("a product with elements is computed"),
    }
    assert!(matches!(plan_matmul(&[2, 0], &[0, 3]).unwrap(), GpuPlan::Run { .. }));
    assert!(matches!(plan_matmul(&[0, 2], &[2, 3]).unwrap(), GpuPlan::Empty { .. }));
    assert!(plan_matmul(&[2, 3], &[2, 3]).is_err());
    assert!(plan_matmul(&[3], &[3]).is_err());
}

#[test]
fn layers_are_planned() {
    match plan_linear(&[5, 3], &[7, 3], Some(&vec![7])).unwrap() {
        GpuPlan::Run { shape, params, .. } => {
            assert_eq!(shape, vec![5, 7]);
            assert_eq!(
                (params.rows, params.in_dim, params.out_dim, params.has_bias),
                (5, 3, 7, 1)
            );
        }
        _ => panic!("a layer is computed"),
    }
    assert!(plan_linear(&[5, 3], &[7, 4], None).is_err());
    assert!(plan_linear(&[5, 3], &[7, 3], Some(&vec![6])).is_err());
    match plan_conv1d_dw(&[4, 2], &[2, 3], None, 1, 1).unwrap() {
        GpuPlan::Run { shape, params, .. } => {
            assert_eq!(shape, vec![4, 2]);
            assert_eq!((params.out_time, params.has_bias), (4, 0));
        }
        _ => panic!("a convolution is computed"),
    }
    assert!(plan_conv1d_dw(&[4, 2], &[2, 3], None, 0, 1).is_err());
    match plan_rms_norm(&[2, 3, 4], &[4], 0).unwrap() {
        GpuPlan::Run { params, .. } => assert_eq!((params.rows, params.feature_dim), (6, 4)),
        _ => panic!("a norm is computed"),
    }
    assert!(plan_rms_norm(&[2, 3], &[4], 0).is_err());
    match plan_softmax(&[2, 3, 4], 1).unwrap() {
        GpuPlan::Run { params, .. } => {
            assert_eq!((params.outer, params.axis_len, params.inner), (2, 3, 4))
        }
        _ => panic!("a softmax is computed"),
    }
    assert!(plan_softmax(&[2], 1).is_err());
}

#[test]
fn rotations_are_planned() {
    match plan_rope(&[2, 3, 8], &[0, 1, 2], 8, 2, 0, 7).unwrap() {
        GpuPlan::Run { params, .. } => {
            assert_eq!((params.num_heads, params.seq_len, params.rope_dims), (2, 3, 8));
            assert_eq!(params.theta, 7);
        }
        _ => panic!("a rotation is computed"),
    }
    assert!(plan_rope(&[2, 3, 8], &[0, 1], 8, 2, 0, 7).is_err());
    assert!(plan_region_rope(&[2, 3, 8], &[0, 1, 2], &[0, 1], 8, 2, 0, 7).is_err());
    assert!(plan_region_rope(&[2, 3, 8], &[0, 1, 2], &[0, 1, 1], 8, 2, 0, 7).is_ok());
}

#[test]
fn rows_and_repetitions_are_planned() {
    match plan_embedding(&[3, 2], &[2, 0]).unwrap() {
        GpuPlan::Run { shape, params, .. } => {
            assert_eq!(shape, vec![2, 2]);
            assert_eq!((params.out_len, params.dim), (4, 2));
        }
        _ => panic!("rows are copied"),
    }
    assert!(plan_embedding(&[3, 2], &[3]).is_err());
    match plan_repeat(&[2, 3], 1, 2).unwrap() {
        GpuPlan::Run { shape, params, .. } => {
            assert_eq!(shape, vec![2, 6]);
            assert_eq!((params.outer, params.axis_len, params.inner), (2, 3, 1));
            assert_eq!(params.repeat_n, 2);
        }
        _ => panic!("repetitions are copied"),
    }
    assert!(plan_repeat(&[2, 3], 2, 2).is_err());
    match plan_concat(&vec![vec![2, 1], vec![2, 3]], 1).unwrap() {
        ConcatPlan::Run { shape, elements, steps } => {
            assert_eq!(shape, vec![2, 4]);
            assert_eq!(elements, 8);
            let offsets: Vec<u32> = steps.iter().map(|s| s.0.axis_offset).collect();
            assert_eq!(offsets, vec![0, 1]);
        }
        _ => panic!("parts are copied"),
    }
    assert!(plan_concat(&vec![], 0).is_err());
    assert!(plan_concat(&vec![vec![2, 1], vec![3, 1]], 1).is_err());
}

#[test]
fn elements_are_planned_with_their_strides() {
    match plan_arithmetic(&[2, 3], &[3]).unwrap() {
        GpuPlan::Run { shape, params, .. } => {
            assert_eq!(shape, vec![2, 3]);
            assert_eq!(params.out_len, 6);
            assert_eq!(params.out_shape[..2], [2, 3]);
            assert_eq!(params.out_strides[..2], [3, 1]);
        }
        _ => panic!("sums are computed"),
    }
    assert!(plan_arithmetic(&[2, 3], &[2]).is_err());
    assert!(matches!(plan_unary(&[2], 5).unwrap(), GpuPlan::Run { .. }));
}

#[test]
fn numbers_for_the_adapter() {
    assert_eq!(usize_to_u32(7, "rows").unwrap(), 7);
    assert_eq!(
        usize_to_u32(1 << 32, "rows").unwrap_err().text,
        "rows 4294967296 exceeds u32::MAX for the GPU backend"
    );
    assert_eq!(bytes_for_elements(3).unwrap(), 12);
    assert_eq!(div_ceil_u32(9, 8), 2);
    assert_eq!(div_ceil_u32(8, 8), 1);
    assert_eq!(elementwise_workgroups(65), (2, 1, 1));
    let (x, y, z) = elementwise_workgroups(u32::MAX);
    assert!(x <= 65_535 && z == 1);
    assert!(x as u64 * y as u64 * 64 >= u32::MAX as u64);
    assert!(needs_dispatch((1, 1, 1)));
    assert!(!needs_dispatch((1, 0, 1)));
    assert_eq!(plan_readback(2, 3).unwrap(), Some((8, 12)));
    assert_eq!(plan_readback(2, 0).unwrap(), None);
    assert!(check_same_device(true, "add").is_ok());
    assert!(check_same_device(false, "add").is_err());
}

#[test]
fn views_share_their_buffer() {
    let t = GpuTensor::from_owned(6, &[2, 3]).unwrap();
    assert!(t.is_dense_contiguous_view());
    assert!(matches!(t.export(6).unwrap(), ExportPlan::Read { offset: 0 }));
    assert!(t.export(5).is_err());
    let turned = t.transpose(0, 1).unwrap();
    assert_eq!(turned.shape, vec![3, 2]);
    assert_eq!(turned.strides, vec![1, 3]);
    assert!(!turned.is_dense_contiguous_view());
    let data: Vec<u32> = (0..6).collect();
    assert_eq!(turned.materialize_view_on_cpu(&data), vec![0, 3, 1, 4, 2, 5]);
    assert!(matches!(turned.reshape(&[6]).unwrap(), ReshapePlan::MoveFirst(_)));
    assert!(matches!(t.reshape(&[6]).unwrap(), ReshapePlan::SameBuffer(_)));
    assert!(t.reshape(&[5]).is_err());
    let part = t.slice(0, 1, 2).unwrap();
    assert_eq!(part.offset, 3);
    assert_eq!(part.materialize_view_on_cpu(&data), vec![3, 4, 5]);
    assert!(t.slice(0, 1, 3).is_err());
    assert!(GpuTensor::from_owned(5, &[2, 3]).is_err());
    assert!(matches!(plan_contiguous(&t).unwrap(), ContiguousPlan::Keep));
    match plan_contiguous(&turned).unwrap() {
        ContiguousPlan::Run { elements, params, .. } => {
            assert_eq!(elements, 6);
            assert_eq!(params.src_strides[..2], [1, 3]);
            assert_eq!(params.out_strides[..2], [2, 1]);
        }
        _ => panic!("a turned view is moved"),
    }
}

#[test]
fn shapes_have_sizes_and_strides() {
    assert_eq!(checked_num_elements(&[2, 3, 4]).unwrap(), 24);
    assert_eq!(checked_num_elements(&[]).unwrap(), 1);
    assert!(checked_num_elements(&[usize::MAX, 2]).is_err());
    assert_eq!(contiguous_strides(&[2, 3, 4]), vec![12, 4, 1]);
    assert_eq!(broadcast_shape(&[2, 1], &[3]).unwrap(), vec![2, 3]);
    assert!(broadcast_shape(&[2], &[3]).is_err());
}

#[test]
fn work_is_shared_out_where_there_is_enough() {
    assert_eq!(should_parallelize(16_384), rayon::current_num_threads() > 1);
    assert!(!should_parallelize(16_383));
    assert!(decide_elements(16_384, 2));
    assert!(!decide_elements(16_384, 1));
    assert!(!decide_elements(16_383, 8));
    assert!(decide_linear(1_000, 100, 100, 4));
    assert!(!decide_linear(1_000, 100, 100, 1));
    assert!(!decide_linear(1, 1_000, 1_000, 4));
    assert!(!decide_linear(1_000, 10, 10, 4));
    assert!(!decide_attention(1, 1, 1, 1, 4));
    assert_eq!(decide_target_tasks(Some("6"), 4, 8), 6);
    assert_eq!(linear_min_outputs_per_chunk(Some("77")), 77);
    let cores = num_cpus::get_physical();
    let threads = rayon::current_num_threads();
    assert_eq!(linear_target_tasks(None, threads), decide_target_tasks(None, cores, threads));
    let rows = choose_row_chunk_len(100, 10, 4, 1);
    assert_eq!(rows, 25);
    assert!(choose_parallel_row_chunk_len(100, 10, Some("4"), Some("1")) == 25);
    let attention = choose_attention_rows(100, 10, 10, 4);
    assert!(1 <= attention && attention <= 100);
}
