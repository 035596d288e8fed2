//! What the programs of a graphics adapter are told: their parameters, and how many
//! workgroups they run in.
use vstd::prelude::*;
use vstd::string::*;

use crate::error::Error;
use crate::slices::{copy_all, copy_range};
use crate::tensor::cpu_kernels::{
    check_conv, check_linear, conv_error, conv_time, count_positions, linear_error, sizes_view,
    two_shapes_text,
};
use crate::tensor::cpu_layout::{
    check_indices, indices_error, lemma_offsets_grow, part_check, part_error, part_offset,
    same_but,
};
use crate::tensor::cpu_ops::{inner_size, outer_size};
use crate::tensor::shape::{
    axis_text, broadcast_result, broadcast_shape, broadcast_text, broadcastable,
    checked_num_elements, contiguous_strides, dense_strides, fits, lemma_size_nonnegative,
    lemma_size_split, normalize_axis, normalize_rope_dims, resolved_axis, rope_dims_result,
    rope_shape_error, size, too_large_text, validate_axis, validate_rope_shape,
};
use crate::tensor::view::{count_elements, GpuTensor};
use crate::text::{decimal, list_text, push_decimal, push_list};

verus! {

pub const MAX_DIMS: usize = 8;

pub const ELEMENT_WORKGROUP_SIZE: u32 = 64;

pub const MAX_DISPATCH_X: u32 = 65_535;

pub const ROW_WORKGROUP_X: u32 = 8;

pub const ROW_WORKGROUP_Y: u32 = 8;

pub const ROPE_WORKGROUP_X: u32 = 32;

pub const ROPE_WORKGROUP_Y: u32 = 4;

// ---------------------------------------------------------------------------
// Numbers
// ---------------------------------------------------------------------------
/// What is said of a number that is too large for the adapter.
pub open spec fn wide(value: int, label: Seq<char>) -> Option<Seq<char>> {
    if value > u32::MAX {
        Some(label + " "@ + decimal(value as nat) + " exceeds u32::MAX for the GPU backend"@)
    } else {
        None
    }
}

/// The first of two complaints.
pub open spec fn first_of(a: Option<Seq<char>>, b: Option<Seq<char>>) -> Option<Seq<char>> {
    if a is Some {
        a
    } else {
        b
    }
}

/// A number for the adapter.
pub fn usize_to_u32(value: usize, label: &str) -> (r: Result<u32, Error>)
    ensures
        match r {
            Ok(n) => wide(value as int, label@) is None && n == value,
            Err(e) => wide(value as int, label@) == Some(e@),
        },
{
    if value > 0xffff_ffff {
        let mut text = String::from_str(label);
        text.append(" ");
        push_decimal(&mut text, value as u64);
        text.append(" exceeds u32::MAX for the GPU backend");
        return Err(Error::from_text(text));
    }
    Ok(value as u32)
}

/// The bytes that single-precision elements take up; a buffer has room for one.
pub fn bytes_for_elements(elements: usize) -> (r: Result<u64, Error>)
    ensures
        match r {
            Ok(n) => elements * 4 <= usize::MAX && n == 4 * (if elements == 0 {
                1
            } else {
                elements as int
            }),
            Err(e) => elements * 4 > usize::MAX && e@ == "buffer size overflow"@,
        },
{
    let count: usize = if elements == 0 {
        1
    } else {
        elements
    };
    match count.checked_mul(4) {
        Some(n) => Ok(n as u64),
        None => Err(Error::message("buffer size overflow")),
    }
}

/// The place in bytes of a single-precision element.
pub fn bytes_for_offset(elements: usize) -> (r: Result<u64, Error>)
    ensures
        match r {
            Ok(n) => elements * 4 <= usize::MAX && n == 4 * elements,
            Err(e) => elements * 4 > usize::MAX && e@ == "buffer offset overflow"@,
        },
{
    match elements.checked_mul(4) {
        Some(n) => Ok(n as u64),
        None => Err(Error::message("buffer offset overflow")),
    }
}

/// How many groups of `size` cover `n`.
pub open spec fn groups(n: int, size: int) -> int {
    (n + size - 1) / size
}

/// Counts the groups that cover a number.
pub fn div_ceil_u32(value: u32, divisor: u32) -> (n: u32)
    requires
        divisor > 0,
    ensures
        n == groups(value as int, divisor as int),
{
    let sum: u64 = value as u64 + divisor as u64 - 1;
    let n: u64 = sum / divisor as u64;
    assert(n <= value) by (nonlinear_arith)
        requires
            n == (value + divisor - 1) / (divisor as int),
            divisor >= 1,
            value >= 0,
    ;
    n as u32
}

/// The workgroups for single elements: rows of as many as the adapter takes.
pub open spec fn element_groups(len: int) -> (int, int, int) {
    let all = groups(len, ELEMENT_WORKGROUP_SIZE as int);
    (
        if all < MAX_DISPATCH_X {
            all
        } else {
            MAX_DISPATCH_X as int
        },
        if groups(all, MAX_DISPATCH_X as int) > 1 {
            groups(all, MAX_DISPATCH_X as int)
        } else {
            1
        },
        1,
    )
}

pub open spec fn group_view(w: (u32, u32, u32)) -> (int, int, int) {
    (w.0 as int, w.1 as int, w.2 as int)
}

/// The workgroups for single elements.
pub fn elementwise_workgroups(out_len: u32) -> (w: (u32, u32, u32))
    ensures
        group_view(w) == element_groups(out_len as int),
{
    let all: u32 = div_ceil_u32(out_len, ELEMENT_WORKGROUP_SIZE);
    let x: u32 = if all < MAX_DISPATCH_X {
        all
    } else {
        MAX_DISPATCH_X
    };
    let rows: u32 = div_ceil_u32(all, MAX_DISPATCH_X);
    let y: u32 = if rows > 1 {
        rows
    } else {
        1
    };
    (x, y, 1)
}

/// The workgroups have an invocation for every element, and no side has more of them
/// than the adapter takes.
pub proof fn law_every_element_has_an_invocation(len: int)
    requires
        0 <= len <= u32::MAX,
    ensures
        ({
            let (x, y, z) = element_groups(len);
            x * y * z * ELEMENT_WORKGROUP_SIZE >= len && x <= MAX_DISPATCH_X && y
                <= MAX_DISPATCH_X
        }),
{
    let all = groups(len, ELEMENT_WORKGROUP_SIZE as int);
    let (x, y, z) = element_groups(len);
    assert(all * 64 >= len);
    if all < MAX_DISPATCH_X {
        assert(x * y * z >= all) by (nonlinear_arith)
            requires
                x == all,
                y >= 1,
                z == 1,
                all >= 0,
        ;
    } else {
        assert(y >= groups(all, 65_535));
        assert(65_535 * y >= all);
        assert(x * y * z == 65_535 * y) by (nonlinear_arith)
            requires
                x == 65_535,
                z == 1,
        ;
    }
}

// ---------------------------------------------------------------------------
// Shapes and strides
// ---------------------------------------------------------------------------
/// Sizes in a block of fixed length, with zeros behind them.
pub open spec fn packed(values: Seq<usize>) -> Seq<u32> {
    Seq::new(
        MAX_DIMS as nat,
        |i: int|
            if i < values.len() {
                values[i] as u32
            } else {
                0u32
            },
    )
}

/// The complaint about the first size from `i` on that is too large.
pub open spec fn wide_from(values: Seq<usize>, label: Seq<char>, i: int) -> Option<Seq<char>>
    decreases values.len() - i,
{
    if i < 0 || i >= values.len() {
        None
    } else if wide(values[i] as int, label) is Some {
        wide(values[i] as int, label)
    } else {
        wide_from(values, label, i + 1)
    }
}

/// What is wrong with a shape and its strides.
pub open spec fn pack_error(shape: Seq<usize>, strides: Seq<usize>) -> Option<Seq<char>> {
    if shape.len() > MAX_DIMS {
        Some(
            "GPU backend currently supports tensors up to rank 8, got shape "@ + list_text(shape),
        )
    } else {
        first_of(
            wide_from(shape, "tensor dimension"@, 0),
            wide_from(strides, "tensor stride"@, 0),
        )
    }
}

fn pack_values(values: &[usize], label: &str) -> (r: Result<Vec<u32>, Error>)
    requires
        values.len() <= MAX_DIMS,
    ensures
        match r {
            Ok(v) => wide_from(values@, label@, 0) is None && v@ == packed(values@),
            Err(e) => wide_from(values@, label@, 0) == Some(e@),
        },
{
    let mut v: Vec<u32> = Vec::new();
    let mut i: usize = 0;
    while i < MAX_DIMS
        invariant
            i <= MAX_DIMS,
            values.len() <= MAX_DIMS,
            v.len() == i,
            wide_from(values@, label@, 0) == wide_from(
                values@,
                label@,
                if i < values.len() {
                    i as int
                } else {
                    values.len() as int
                },
            ),
            forall|j: int| 0 <= j < i ==> #[trigger] v@[j] == packed(values@)[j],
        decreases MAX_DIMS - i,
    {
        if i < values.len() {
            match usize_to_u32(values[i], label) {
                Ok(n) => v.push(n),
                Err(e) => {
                    return Err(e);
                },
            }
        } else {
            v.push(0);
        }
        i += 1;
    }
    assert(v@ =~= packed(values@));
    Ok(v)
}

/// Packs a shape and its strides.
pub fn pack_dims(shape: &[usize], strides: &[usize]) -> (r: Result<(Vec<u32>, Vec<u32>), Error>)
    requires
        strides.len() == shape.len(),
    ensures
        match r {
            Ok((s, t)) => pack_error(shape@, strides@) is None && s@ == packed(shape@) && t@
                == packed(strides@),
            Err(e) => pack_error(shape@, strides@) == Some(e@),
        },
{
    if shape.len() > MAX_DIMS {
        let mut text = String::from_str(
            "GPU backend currently supports tensors up to rank 8, got shape ",
        );
        push_list(&mut text, shape);
        return Err(Error::from_text(text));
    }
    let s = match pack_values(shape, "tensor dimension") {
        Ok(v) => v,
        Err(e) => {
            return Err(e);
        },
    };
    let t = match pack_values(strides, "tensor stride") {
        Ok(v) => v,
        Err(e) => {
            return Err(e);
        },
    };
    Ok((s, t))
}

// ---------------------------------------------------------------------------
// Plans
// ---------------------------------------------------------------------------
/// What has to be done for the result of an operation.
#[derive(Debug)]
pub enum GpuPlan<P> {
    /// It is the operand.
    Operand,
    /// It has no elements.
    Empty { shape: Vec<usize> },
    /// A program makes it.
    Run { shape: Vec<usize>, elements: usize, params: P, workgroups: (u32, u32, u32) },
}

/// The plan runs a program for a result of this shape.
pub open spec fn runs<P>(
    plan: GpuPlan<P>,
    out: Seq<usize>,
    params: P,
    workgroups: (int, int, int),
) -> bool {
    plan matches GpuPlan::Run { shape, elements, params: p, workgroups: w } && shape@ == out
        && elements == size(out) && p == params && group_view(w) == workgroups
}

pub open spec fn is_empty_plan<P>(plan: GpuPlan<P>, out: Seq<usize>) -> bool {
    plan matches GpuPlan::Empty { shape } && shape@ == out
}

/// For products of matrices.
#[derive(Debug, Clone, Copy, PartialEq, Eq, Structural)]
pub struct MatmulParams {
    pub batch: u32,
    pub m: u32,
    pub k: u32,
    pub n: u32,
}

/// For linear layers.
#[derive(Debug, Clone, Copy, PartialEq, Eq, Structural)]
pub struct LinearParams {
    pub rows: u32,
    pub in_dim: u32,
    pub out_dim: u32,
    pub has_bias: u32,
}

/// For the softmax along an axis.
#[derive(Debug, Clone, Copy, PartialEq, Eq, Structural)]
pub struct SoftmaxParams {
    pub outer: u32,
    pub axis_len: u32,
    pub inner: u32,
}

/// For norms; `eps` is a bit pattern.
#[derive(Debug, Clone, Copy, PartialEq, Eq, Structural)]
pub struct RmsNormParams {
    pub rows: u32,
    pub feature_dim: u32,
    pub eps: u32,
}

/// For rotations; `theta` is a bit pattern.
#[derive(Debug, Clone, Copy, PartialEq, Eq, Structural)]
pub struct RopeParams {
    pub num_heads: u32,
    pub seq_len: u32,
    pub head_dim: u32,
    pub rope_dims: u32,
    pub theta: u32,
}

/// For depthwise convolutions.
#[derive(Debug, Clone, Copy, PartialEq, Eq, Structural)]
pub struct Conv1dDwParams {
    pub time: u32,
    pub channels: u32,
    pub kernel_size: u32,
    pub stride: u32,
    pub padding: u32,
    pub out_time: u32,
    pub has_bias: u32,
}

/// For rows of a table.
#[derive(Debug, Clone, Copy, PartialEq, Eq, Structural)]
pub struct EmbeddingParams {
    pub out_len: u32,
    pub dim: u32,
}

/// For repetitions along an axis.
#[derive(Debug, Clone, Copy, PartialEq, Eq, Structural)]
pub struct RepeatParams {
    pub out_len: u32,
    pub outer: u32,
    pub axis_len: u32,
    pub inner: u32,
    pub repeat_n: u32,
}

/// For a part of a tensor that is put together.
#[derive(Debug, Clone, Copy, PartialEq, Eq, Structural)]
pub struct ConcatParams {
    pub part_len: u32,
    pub inner: u32,
    pub part_axis_len: u32,
    pub out_axis_len: u32,
    pub axis_offset: u32,
}

/// For moving the elements of a view to a buffer of their own.
#[derive(Debug)]
pub struct LayoutParams {
    pub out_len: u32,
    pub rank: u32,
    pub offset: u32,
    pub shape: Vec<u32>,
    pub out_strides: Vec<u32>,
    pub src_strides: Vec<u32>,
}

/// For operations on single elements; `scalar` is a bit pattern.
#[derive(Debug)]
pub struct ArithmeticParams {
    pub out_len: u32,
    pub out_rank: u32,
    pub lhs_rank: u32,
    pub rhs_rank: u32,
    pub scalar: u32,
    pub out_shape: Vec<u32>,
    pub out_strides: Vec<u32>,
    pub lhs_shape: Vec<u32>,
    pub lhs_strides: Vec<u32>,
    pub rhs_shape: Vec<u32>,
    pub rhs_strides: Vec<u32>,
}

// ---------------------------------------------------------------------------
// Products
// ---------------------------------------------------------------------------
pub open spec fn at_text(what: Seq<char>, lhs: Seq<usize>, rhs: Seq<usize>) -> Seq<char> {
    what + list_text(lhs) + " @ "@ + list_text(rhs)
}

/// What is wrong with the operands of a product.
pub open spec fn gpu_matmul_error(lhs: Seq<usize>, rhs: Seq<usize>) -> Option<Seq<char>> {
    if lhs.len() == 2 && rhs.len() == 2 {
        if lhs[1] != rhs[0] {
            Some(at_text("matmul shape mismatch: "@, lhs, rhs))
        } else {
            None
        }
    } else if lhs.len() == 3 && rhs.len() == 3 {
        if lhs[0] != rhs[0] || lhs[2] != rhs[1] {
            Some(at_text("batched matmul shape mismatch: "@, lhs, rhs))
        } else {
            None
        }
    } else {
        Some(two_shapes_text("matmul expects rank-2 or rank-3 tensors, got "@, lhs, rhs))
    }
}

/// The shape of a product.
pub open spec fn gpu_matmul_shape(lhs: Seq<usize>, rhs: Seq<usize>) -> Seq<usize> {
    if lhs.len() == 2 {
        seq![lhs[0], rhs[1]]
    } else {
        seq![lhs[0], lhs[1], rhs[2]]
    }
}

pub open spec fn matmul_sizes(lhs: Seq<usize>, rhs: Seq<usize>) -> (int, int, int, int) {
    if lhs.len() == 2 {
        (1, lhs[0] as int, lhs[1] as int, rhs[1] as int)
    } else {
        (lhs[0] as int, lhs[1] as int, lhs[2] as int, rhs[2] as int)
    }
}

pub open spec fn matmul_wide(s: (int, int, int, int)) -> Option<Seq<char>> {
    first_of(
        wide(s.0, "matmul batch"@),
        first_of(
            wide(s.1, "matmul rows"@),
            first_of(
                wide(s.2, "matmul shared dimension"@),
                wide(s.3, "matmul columns"@),
            ),
        ),
    )
}

fn at_error(what: &str, lhs: &[usize], rhs: &[usize], between: &str) -> (e: Error)
    ensures
        e@ == what@ + list_text(lhs@) + between@ + list_text(rhs@),
{
    let mut text = String::from_str(what);
    push_list(&mut text, lhs);
    text.append(between);
    push_list(&mut text, rhs);
    Error::from_text(text)
}

/// Plans the product of two dense tensors.
pub fn plan_matmul(lhs: &[usize], rhs: &[usize]) -> (r: Result<GpuPlan<MatmulParams>, Error>)
    ensures
        match gpu_matmul_error(lhs@, rhs@) {
            Some(text) => r matches Err(e) && e@ == text,
            None => {
                let out = gpu_matmul_shape(lhs@, rhs@);
                let s = matmul_sizes(lhs@, rhs@);
                if !fits(out) {
                    r matches Err(e) && e@ == too_large_text(out)
                } else if size(out) == 0 {
                    r matches Ok(plan) && is_empty_plan(plan, out)
                } else {
                    match matmul_wide(s) {
                        Some(text) => r matches Err(e) && e@ == text,
                        None => r matches Ok(plan) && runs(
                            plan,
                            out,
                            MatmulParams {
                                batch: s.0 as u32,
                                m: s.1 as u32,
                                k: s.2 as u32,
                                n: s.3 as u32,
                            },
                            (
                                groups(s.3, ROW_WORKGROUP_X as int),
                                groups(s.1, ROW_WORKGROUP_Y as int),
                                s.0,
                            ),
                        ),
                    }
                }
            },
        },
{
    let mut shape: Vec<usize> = Vec::new();
    let (batch, m, k, n): (usize, usize, usize, usize) = if lhs.len() == 2 && rhs.len() == 2 {
        if lhs[1] != rhs[0] {
            return Err(at_error("matmul shape mismatch: ", lhs, rhs, " @ "));
        }
        (1, lhs[0], lhs[1], rhs[1])
    } else if lhs.len() == 3 && rhs.len() == 3 {
        if lhs[0] != rhs[0] || lhs[2] != rhs[1] {
            return Err(at_error("batched matmul shape mismatch: ", lhs, rhs, " @ "));
        }
        shape.push(lhs[0]);
        (lhs[0], lhs[1], lhs[2], rhs[2])
    } else {
        return Err(
            at_error("matmul expects rank-2 or rank-3 tensors, got ", lhs, rhs, " and "),
        );
    };
    shape.push(m);
    shape.push(n);
    assert(shape@ =~= gpu_matmul_shape(lhs@, rhs@));
    let elements: usize = match checked_num_elements(&shape) {
        Ok(n) => n,
        Err(e) => {
            return Err(e);
        },
    };
    if elements == 0 {
        return Ok(GpuPlan::Empty { shape });
    }
    let params = MatmulParams {
        batch: match usize_to_u32(batch, "matmul batch") {
            Ok(n) => n,
            Err(e) => {
                return Err(e);
            },
        },
        m: match usize_to_u32(m, "matmul rows") {
            Ok(n) => n,
            Err(e) => {
                return Err(e);
            },
        },
        k: match usize_to_u32(k, "matmul shared dimension") {
            Ok(n) => n,
            Err(e) => {
                return Err(e);
            },
        },
        n: match usize_to_u32(n, "matmul columns") {
            Ok(n) => n,
            Err(e) => {
                return Err(e);
            },
        },
    };
    let workgroups: (u32, u32, u32) = (
        div_ceil_u32(params.n, ROW_WORKGROUP_X),
        div_ceil_u32(params.m, ROW_WORKGROUP_Y),
        params.batch,
    );
    Ok(GpuPlan::Run { shape, elements, params, workgroups })
}

/// The dimensions but the last.
pub open spec fn rows_of(input: Seq<usize>) -> Seq<usize> {
    input.take(input.len() - 1)
}

pub open spec fn linear_wide(input: Seq<usize>, weight: Seq<usize>) -> Option<Seq<char>> {
    first_of(
        wide(size(rows_of(input)), "linear rows"@),
        first_of(
            wide(input[input.len() - 1] as int, "linear input dimension"@),
            wide(weight[0] as int, "linear output dimension"@),
        ),
    )
}

/// Plans a linear layer.
pub fn plan_linear(input: &[usize], weight: &[usize], bias: Option<&Vec<usize>>) -> (r: Result<
    GpuPlan<LinearParams>,
    Error,
>)
    requires
        input.len() > 0 ==> size(rows_of(input@)) <= usize::MAX,
    ensures
        match linear_error(input@, weight@, sizes_view(bias)) {
            Some(text) => r matches Err(e) && e@ == text,
            None => {
                let out = rows_of(input@).push(weight@[0]);
                if !fits(out) {
                    r matches Err(e) && e@ == too_large_text(out)
                } else if size(out) == 0 {
                    r matches Ok(plan) && is_empty_plan(plan, out)
                } else {
                    match linear_wide(input@, weight@) {
                        Some(text) => r matches Err(e) && e@ == text,
                        None => r matches Ok(plan) && runs(
                            plan,
                            out,
                            LinearParams {
                                rows: size(rows_of(input@)) as u32,
                                in_dim: input@[input.len() - 1] as u32,
                                out_dim: weight@[0] as u32,
                                has_bias: if bias is Some {
                                    1
                                } else {
                                    0
                                },
                            },
                            (
                                groups(weight@[0] as int, ROW_WORKGROUP_X as int),
                                groups(size(rows_of(input@)), ROW_WORKGROUP_Y as int),
                                1,
                            ),
                        ),
                    }
                }
            },
        },
{
    if let Err(e) = check_linear(input, weight, bias) {
        return Err(e);
    }
    let mut shape: Vec<usize> = copy_range(input, 0, input.len() - 1);
    assert(shape@ =~= rows_of(input@));
    let rows: usize = count_elements(&shape);
    let in_dim: usize = input[input.len() - 1];
    shape.push(weight[0]);
    let elements: usize = match checked_num_elements(&shape) {
        Ok(n) => n,
        Err(e) => {
            return Err(e);
        },
    };
    if elements == 0 {
        return Ok(GpuPlan::Empty { shape });
    }
    let rows: u32 = match usize_to_u32(rows, "linear rows") {
        Ok(n) => n,
        Err(e) => {
            return Err(e);
        },
    };
    let in_dim: u32 = match usize_to_u32(in_dim, "linear input dimension") {
        Ok(n) => n,
        Err(e) => {
            return Err(e);
        },
    };
    let out_dim: u32 = match usize_to_u32(weight[0], "linear output dimension") {
        Ok(n) => n,
        Err(e) => {
            return Err(e);
        },
    };
    let has_bias: u32 = if bias.is_some() {
        1
    } else {
        0
    };
    let params = LinearParams { rows, in_dim, out_dim, has_bias };
    let workgroups: (u32, u32, u32) = (
        div_ceil_u32(params.out_dim, ROW_WORKGROUP_X),
        div_ceil_u32(params.rows, ROW_WORKGROUP_Y),
        1,
    );
    Ok(GpuPlan::Run { shape, elements, params, workgroups })
}

// ---------------------------------------------------------------------------
// Depthwise convolution
// ---------------------------------------------------------------------------
pub open spec fn conv_wide(
    input: Seq<usize>,
    kernel: Seq<usize>,
    stride: int,
    padding: int,
) -> Option<Seq<char>> {
    first_of(
        wide(input[0] as int, "conv1d_dw time"@),
        first_of(
            wide(input[1] as int, "conv1d_dw channels"@),
            first_of(
                wide(kernel[1] as int, "conv1d_dw kernel size"@),
                first_of(
                    wide(stride, "conv1d_dw stride"@),
                    first_of(
                        wide(padding, "conv1d_dw padding"@),
                        wide(
                            conv_time(input[0] as int, kernel[1] as int, stride, padding),
                            "conv1d_dw output time"@,
                        ),
                    ),
                ),
            ),
        ),
    )
}

/// Plans a depthwise convolution.
pub fn plan_conv1d_dw(
    input: &[usize],
    kernel: &[usize],
    bias: Option<&Vec<usize>>,
    stride: usize,
    padding: usize,
) -> (r: Result<GpuPlan<Conv1dDwParams>, Error>)
    ensures
        match conv_error(input@, kernel@, sizes_view(bias), stride as nat) {
            Some(text) => r matches Err(e) && e@ == text,
            None => {
                let n = conv_time(
                    input@[0] as int,
                    kernel@[1] as int,
                    stride as int,
                    padding as int,
                );
                let out = seq![n as usize, input@[1]];
                if !fits(out) {
                    r matches Err(e) && e@ == too_large_text(out)
                } else if size(out) == 0 {
                    r matches Ok(plan) && is_empty_plan(plan, out)
                } else {
                    match conv_wide(input@, kernel@, stride as int, padding as int) {
                        Some(text) => r matches Err(e) && e@ == text,
                        None => r matches Ok(plan) && runs(
                            plan,
                            out,
                            Conv1dDwParams {
                                time: input@[0] as u32,
                                channels: input@[1] as u32,
                                kernel_size: kernel@[1] as u32,
                                stride: stride as u32,
                                padding: padding as u32,
                                out_time: n as u32,
                                has_bias: if bias is Some {
                                    1
                                } else {
                                    0
                                },
                            },
                            (
                                groups(input@[1] as int, ROW_WORKGROUP_X as int),
                                groups(n, ROW_WORKGROUP_Y as int),
                                1,
                            ),
                        ),
                    }
                }
            },
        },
{
    if let Err(e) = check_conv(input, kernel, bias, stride) {
        return Err(e);
    }
    let positions: usize = count_positions(input[0], kernel[1], stride, padding);
    let mut shape: Vec<usize> = Vec::new();
    shape.push(positions);
    shape.push(input[1]);
    assert(shape@ =~= seq![positions, input@[1]]);
    let elements: usize = match checked_num_elements(&shape) {
        Ok(n) => n,
        Err(e) => {
            return Err(e);
        },
    };
    if elements == 0 {
        return Ok(GpuPlan::Empty { shape });
    }
    let time: u32 = match usize_to_u32(input[0], "conv1d_dw time") {
        Ok(n) => n,
        Err(e) => {
            return Err(e);
        },
    };
    let channels: u32 = match usize_to_u32(input[1], "conv1d_dw channels") {
        Ok(n) => n,
        Err(e) => {
            return Err(e);
        },
    };
    let kernel_size: u32 = match usize_to_u32(kernel[1], "conv1d_dw kernel size") {
        Ok(n) => n,
        Err(e) => {
            return Err(e);
        },
    };
    let stride: u32 = match usize_to_u32(stride, "conv1d_dw stride") {
        Ok(n) => n,
        Err(e) => {
            return Err(e);
        },
    };
    let padding: u32 = match usize_to_u32(padding, "conv1d_dw padding") {
        Ok(n) => n,
        Err(e) => {
            return Err(e);
        },
    };
    let out_time: u32 = match usize_to_u32(positions, "conv1d_dw output time") {
        Ok(n) => n,
        Err(e) => {
            return Err(e);
        },
    };
    let has_bias: u32 = if bias.is_some() {
        1
    } else {
        0
    };
    let params = Conv1dDwParams {
        time,
        channels,
        kernel_size,
        stride,
        padding,
        out_time,
        has_bias,
    };
    let workgroups: (u32, u32, u32) = (
        div_ceil_u32(params.channels, ROW_WORKGROUP_X),
        div_ceil_u32(params.out_time, ROW_WORKGROUP_Y),
        1,
    );
    Ok(GpuPlan::Run { shape, elements, params, workgroups })
}

// ---------------------------------------------------------------------------
// Lookup and repetition
// ---------------------------------------------------------------------------
/// Plans a lookup of rows of a table.
pub fn plan_embedding(table: &[usize], indices: &[i32]) -> (r: Result<
    GpuPlan<EmbeddingParams>,
    Error,
>)
    ensures
        if table.len() != 2 {
            r matches Err(e) && e@ == "embedding table must have shape [rows, dim], got "@
                + list_text(table@)
        } else {
            match indices_error(indices@, table@[0] as int, indices.len() as int) {
                Some(text) => r matches Err(e) && e@ == text,
                None => {
                    let out = seq![indices@.len() as usize, table@[1]];
                    if !fits(out) {
                        r matches Err(e) && e@ == too_large_text(out)
                    } else if size(out) == 0 {
                        r matches Ok(plan) && is_empty_plan(plan, out)
                    } else {
                        match first_of(
                            wide(size(out), "embedding output length"@),
                            wide(table@[1] as int, "embedding dim"@),
                        ) {
                            Some(text) => r matches Err(e) && e@ == text,
                            None => r matches Ok(plan) && runs(
                                plan,
                                out,
                                EmbeddingParams { out_len: size(out) as u32, dim: table@[1] as u32 },
                                element_groups(size(out)),
                            ),
                        }
                    }
                },
            }
        },
{
    if table.len() != 2 {
        let mut text = String::from_str("embedding table must have shape [rows, dim], got ");
        push_list(&mut text, table);
        return Err(Error::from_text(text));
    }
    if let Err(e) = check_indices(indices, table[0]) {
        return Err(e);
    }
    let mut shape: Vec<usize> = Vec::new();
    shape.push(indices.len());
    shape.push(table[1]);
    assert(shape@ =~= seq![indices@.len() as usize, table@[1]]);
    let elements: usize = match checked_num_elements(&shape) {
        Ok(n) => n,
        Err(e) => {
            return Err(e);
        },
    };
    if elements == 0 {
        return Ok(GpuPlan::Empty { shape });
    }
    let out_len: u32 = match usize_to_u32(elements, "embedding output length") {
        Ok(n) => n,
        Err(e) => {
            return Err(e);
        },
    };
    let dim: u32 = match usize_to_u32(table[1], "embedding dim") {
        Ok(n) => n,
        Err(e) => {
            return Err(e);
        },
    };
    let params = EmbeddingParams { out_len, dim };
    let workgroups: (u32, u32, u32) = elementwise_workgroups(out_len);
    Ok(GpuPlan::Run { shape, elements, params, workgroups })
}

pub open spec fn repeat_wide(shape: Seq<usize>, axis: int, n: int) -> Option<Seq<char>> {
    first_of(
        wide(size(shape.update(axis, (shape[axis] * n) as usize)), "repeat output length"@),
        first_of(
            wide(outer_size(shape, axis), "repeat outer"@),
            first_of(
                wide(shape[axis] as int, "repeat axis length"@),
                first_of(wide(inner_size(shape, axis), "repeat inner"@), wide(n, "repeat count"@)),
            ),
        ),
    )
}

/// What lies before an axis and behind it is no larger than the whole.
proof fn lemma_sides(shape: Seq<usize>, axis: int)
    requires
        0 <= axis < shape.len(),
        0 < size(shape) <= usize::MAX,
    ensures
        0 < outer_size(shape, axis) <= usize::MAX,
        0 < inner_size(shape, axis) <= usize::MAX,
        shape[axis] > 0,
{
    lemma_size_split(shape, axis);
    lemma_size_nonnegative(shape.take(axis));
    lemma_size_nonnegative(shape.skip(axis + 1));
    let (x, y, z) = (size(shape.take(axis)), shape[axis] as int, size(shape.skip(axis + 1)));
    assert(0 < x <= usize::MAX && 0 < z <= usize::MAX && y > 0) by (nonlinear_arith)
        requires
            0 < x * (y * z) <= usize::MAX,
            x >= 0,
            y >= 0,
            z >= 0,
    ;
}

/// Counts what lies before an axis and behind it.
fn count_sides(shape: &[usize], axis: usize) -> (sides: (usize, usize))
    requires
        axis < shape.len(),
        outer_size(shape@, axis as int) <= usize::MAX,
        inner_size(shape@, axis as int) <= usize::MAX,
    ensures
        sides.0 == outer_size(shape@, axis as int),
        sides.1 == inner_size(shape@, axis as int),
{
    let front: Vec<usize> = copy_range(shape, 0, axis);
    let back: Vec<usize> = copy_range(shape, axis + 1, shape.len());
    assert(front@ =~= shape@.take(axis as int));
    assert(back@ =~= shape@.skip(axis as int + 1));
    (count_elements(&front), count_elements(&back))
}

/// Plans a repetition along an axis.
pub fn plan_repeat(input: &[usize], axis: usize, n: usize) -> (r: Result<
    GpuPlan<RepeatParams>,
    Error,
>)
    ensures
        if axis >= input.len() {
            r matches Err(e) && e@ == axis_text("repeat"@, axis as int, input.len() as int)
        } else if input@[axis as int] * n > usize::MAX {
            r matches Err(e) && e@ == "repeat axis size overflow"@
        } else {
            let a = axis as int;
            let out = input@.update(a, (input@[a] * n) as usize);
            if !fits(out) {
                r matches Err(e) && e@ == too_large_text(out)
            } else if size(out) == 0 {
                r matches Ok(plan) && is_empty_plan(plan, out)
            } else {
                match repeat_wide(input@, a, n as int) {
                    Some(text) => r matches Err(e) && e@ == text,
                    None => r matches Ok(plan) && runs(
                        plan,
                        out,
                        RepeatParams {
                            out_len: size(out) as u32,
                            outer: outer_size(input@, a) as u32,
                            axis_len: input@[a] as u32,
                            inner: inner_size(input@, a) as u32,
                            repeat_n: n as u32,
                        },
                        element_groups(size(out)),
                    ),
                }
            }
        },
{
    if let Err(e) = validate_axis(axis, input.len(), "repeat") {
        return Err(e);
    }
    let mut shape: Vec<usize> = copy_all(input);
    match input[axis].checked_mul(n) {
        Some(m) => shape.set(axis, m),
        None => {
            return Err(Error::message("repeat axis size overflow"));
        },
    }
    let elements: usize = match checked_num_elements(&shape) {
        Ok(n) => n,
        Err(e) => {
            return Err(e);
        },
    };
    if elements == 0 {
        return Ok(GpuPlan::Empty { shape });
    }
    proof {
        lemma_size_nonnegative(shape@);
        lemma_sides(shape@, axis as int);
        assert(shape@.take(axis as int) =~= input@.take(axis as int));
        assert(shape@.skip(axis as int + 1) =~= input@.skip(axis as int + 1));
    }
    let (before, behind): (usize, usize) = count_sides(input, axis);
    let out_len: u32 = match usize_to_u32(elements, "repeat output length") {
        Ok(n) => n,
        Err(e) => {
            return Err(e);
        },
    };
    let outer: u32 = match usize_to_u32(before, "repeat outer") {
        Ok(n) => n,
        Err(e) => {
            return Err(e);
        },
    };
    let axis_len: u32 = match usize_to_u32(input[axis], "repeat axis length") {
        Ok(n) => n,
        Err(e) => {
            return Err(e);
        },
    };
    let inner: u32 = match usize_to_u32(behind, "repeat inner") {
        Ok(n) => n,
        Err(e) => {
            return Err(e);
        },
    };
    let repeat_n: u32 = match usize_to_u32(n, "repeat count") {
        Ok(n) => n,
        Err(e) => {
            return Err(e);
        },
    };
    let params = RepeatParams { out_len, outer, axis_len, inner, repeat_n };
    let workgroups: (u32, u32, u32) = elementwise_workgroups(out_len);
    Ok(GpuPlan::Run { shape, elements, params, workgroups })
}

// ---------------------------------------------------------------------------
// Softmax and norms
// ---------------------------------------------------------------------------
pub open spec fn softmax_wide(shape: Seq<usize>, axis: int) -> Option<Seq<char>> {
    first_of(
        wide(outer_size(shape, axis), "softmax outer dimension"@),
        first_of(
            wide(shape[axis] as int, "softmax axis length"@),
            wide(inner_size(shape, axis), "softmax inner dimension"@),
        ),
    )
}

/// Plans a softmax along an axis, which may be counted from the end.
pub fn plan_softmax(input: &[usize], axis: isize) -> (r: Result<GpuPlan<SoftmaxParams>, Error>)
    requires
        input.len() <= isize::MAX,
        size(input@) <= usize::MAX,
    ensures
        ({
            let a = resolved_axis(axis as int, input.len() as int);
            if input.len() == 0 {
                r matches Err(e) && e@ == "softmax expects a tensor with at least one dimension"@
            } else if !(0 <= a < input.len()) {
                r matches Err(e) && e@ == axis_text("softmax"@, axis as int, input.len() as int)
            } else if size(input@) == 0 {
                if fits(input@) {
                    r matches Ok(plan) && is_empty_plan(plan, input@)
                } else {
                    r matches Err(e) && e@ == too_large_text(input@)
                }
            } else {
                match softmax_wide(input@, a) {
                    Some(text) => r matches Err(e) && e@ == text,
                    None => r matches Ok(plan) && runs(
                        plan,
                        input@,
                        SoftmaxParams {
                            outer: outer_size(input@, a) as u32,
                            axis_len: input@[a] as u32,
                            inner: inner_size(input@, a) as u32,
                        },
                        (
                            groups(inner_size(input@, a), ROW_WORKGROUP_X as int),
                            groups(outer_size(input@, a), ROW_WORKGROUP_Y as int),
                            1,
                        ),
                    ),
                }
            }
        }),
{
    if input.len() == 0 {
        return Err(Error::message("softmax expects a tensor with at least one dimension"));
    }
    let a: usize = match normalize_axis(axis, input.len(), "softmax") {
        Ok(a) => a,
        Err(e) => {
            return Err(e);
        },
    };
    let shape: Vec<usize> = copy_all(input);
    let elements: usize = count_elements(input);
    if elements == 0 {
        return match checked_num_elements(input) {
            Ok(_) => Ok(GpuPlan::Empty { shape }),
            Err(e) => Err(e),
        };
    }
    proof {
        lemma_size_nonnegative(input@);
        lemma_sides(input@, a as int);
    }
    let (before, behind): (usize, usize) = count_sides(input, a);
    let outer: u32 = match usize_to_u32(before, "softmax outer dimension") {
        Ok(n) => n,
        Err(e) => {
            return Err(e);
        },
    };
    let axis_len: u32 = match usize_to_u32(input[a], "softmax axis length") {
        Ok(n) => n,
        Err(e) => {
            return Err(e);
        },
    };
    let inner: u32 = match usize_to_u32(behind, "softmax inner dimension") {
        Ok(n) => n,
        Err(e) => {
            return Err(e);
        },
    };
    let params = SoftmaxParams { outer, axis_len, inner };
    let workgroups: (u32, u32, u32) = (
        div_ceil_u32(inner, ROW_WORKGROUP_X),
        div_ceil_u32(outer, ROW_WORKGROUP_Y),
        1,
    );
    Ok(GpuPlan::Run { shape, elements, params, workgroups })
}

pub open spec fn rms_norm_wide(rows: int, dim: int) -> Option<Seq<char>> {
    first_of(wide(rows, "rms_norm rows"@), wide(dim, "rms_norm feature dimension"@))
}

/// Plans a norm of every row along the last axis. Rows of no elements stay.
pub fn plan_rms_norm(input: &[usize], weight: &[usize], eps: u32) -> (r: Result<
    GpuPlan<RmsNormParams>,
    Error,
>)
    requires
        size(input@) <= usize::MAX,
    ensures
        if input.len() == 0 {
            r matches Err(e) && e@
                == "rms_norm expects an input tensor with at least one dimension"@
        } else {
            let dim = input@[input.len() - 1];
            let rows = size(input@) / (dim as int);
            if weight@ != seq![dim] {
                r matches Err(e) && e@ == "rms_norm weight must have shape ["@ + decimal(dim as nat)
                    + "], got "@ + list_text(weight@)
            } else if dim == 0 {
                r matches Ok(plan) && plan is Operand
            } else {
                match rms_norm_wide(rows, dim as int) {
                    Some(text) => r matches Err(e) && e@ == text,
                    None => r matches Ok(plan) && runs(
                        plan,
                        input@,
                        RmsNormParams { rows: rows as u32, feature_dim: dim as u32, eps },
                        (rows, 1, 1),
                    ),
                }
            }
        },
{
    if input.len() == 0 {
        return Err(
            Error::message("rms_norm expects an input tensor with at least one dimension"),
        );
    }
    let dim: usize = input[input.len() - 1];
    if !(weight.len() == 1 && weight[0] == dim) {
        let mut text = String::from_str("rms_norm weight must have shape [");
        push_decimal(&mut text, dim as u64);
        text.append("], got ");
        push_list(&mut text, weight);
        assert(weight@ != seq![dim]);
        return Err(Error::from_text(text));
    }
    assert(weight@ =~= seq![dim]);
    if dim == 0 {
        return Ok(GpuPlan::Operand);
    }
    let elements: usize = count_elements(input);
    let count: usize = elements / dim;
    let rows: u32 = match usize_to_u32(count, "rms_norm rows") {
        Ok(n) => n,
        Err(e) => {
            return Err(e);
        },
    };
    let feature_dim: u32 = match usize_to_u32(dim, "rms_norm feature dimension") {
        Ok(n) => n,
        Err(e) => {
            return Err(e);
        },
    };
    let shape: Vec<usize> = copy_all(input);
    let params = RmsNormParams { rows, feature_dim, eps };
    Ok(GpuPlan::Run { shape, elements, params, workgroups: (rows, 1, 1) })
}

// ---------------------------------------------------------------------------
// Rotations
// ---------------------------------------------------------------------------
pub open spec fn rotation_wide(op: Seq<char>, shape: Seq<usize>, dims: int) -> Option<Seq<char>> {
    first_of(
        wide(shape[0] as int, op + " num_heads"@),
        first_of(
            wide(shape[1] as int, op + " sequence length"@),
            first_of(
                wide(shape[2] as int, op + " head dimension"@),
                wide(dims, op + "_dims"@),
            ),
        ),
    )
}

/// What comes of planning a rotation.
pub open spec fn is_rotation_plan(
    op: Seq<char>,
    mixed: bool,
    input: Seq<usize>,
    positions: int,
    head_dim: int,
    num_heads: int,
    rope_dims: int,
    theta: u32,
    r: Result<GpuPlan<RopeParams>, Error>,
) -> bool {
    match rope_shape_error(input, positions, head_dim, num_heads, op) {
        Some(text) => r matches Err(e) && e@ == text,
        None => match rope_dims_result(head_dim, rope_dims, op, mixed) {
            Err(text) => r matches Err(e) && e@ == text,
            Ok(dims) => if size(input) == 0 {
                r matches Ok(plan) && plan is Operand
            } else {
                match rotation_wide(op, input, dims) {
                    Some(text) => r matches Err(e) && e@ == text,
                    None => r matches Ok(plan) && runs(
                        plan,
                        input,
                        RopeParams {
                            num_heads: num_heads as u32,
                            seq_len: positions as u32,
                            head_dim: head_dim as u32,
                            rope_dims: dims as u32,
                            theta,
                        },
                        (
                            groups(dims / 2, ROPE_WORKGROUP_X as int),
                            groups(positions, ROPE_WORKGROUP_Y as int),
                            num_heads,
                        ),
                    ),
                }
            },
        },
    }
}

fn labelled_u32(value: usize, op: &str, rest: &str) -> (r: Result<u32, Error>)
    ensures
        match r {
            Ok(n) => wide(value as int, op@ + rest@) is None && n == value,
            Err(e) => wide(value as int, op@ + rest@) == Some(e@),
        },
{
    let mut label = String::from_str(op);
    label.append(rest);
    usize_to_u32(value, label.as_str())
}

fn plan_rotation(
    op: &str,
    mixed: bool,
    input: &[usize],
    positions: usize,
    head_dim: usize,
    num_heads: usize,
    rope_dims: usize,
    theta: u32,
) -> (r: Result<GpuPlan<RopeParams>, Error>)
    requires
        size(input@) <= usize::MAX,
    ensures
        is_rotation_plan(
            op@,
            mixed,
            input@,
            positions as int,
            head_dim as int,
            num_heads as int,
            rope_dims as int,
            theta,
            r,
        ),
{
    if let Err(e) = validate_rope_shape(input, positions, head_dim, num_heads, op) {
        return Err(e);
    }
    let dims: usize = match normalize_rope_dims(head_dim, rope_dims, op, mixed) {
        Ok(dims) => dims,
        Err(e) => {
            return Err(e);
        },
    };
    let elements: usize = count_elements(input);
    if elements == 0 {
        return Ok(GpuPlan::Operand);
    }
    let heads: u32 = match labelled_u32(num_heads, op, " num_heads") {
        Ok(n) => n,
        Err(e) => {
            return Err(e);
        },
    };
    let seq_len: u32 = match labelled_u32(positions, op, " sequence length") {
        Ok(n) => n,
        Err(e) => {
            return Err(e);
        },
    };
    let width: u32 = match labelled_u32(head_dim, op, " head dimension") {
        Ok(n) => n,
        Err(e) => {
            return Err(e);
        },
    };
    let rotated: u32 = match labelled_u32(dims, op, "_dims") {
        Ok(n) => n,
        Err(e) => {
            return Err(e);
        },
    };
    let shape: Vec<usize> = copy_all(input);
    let params = RopeParams {
        num_heads: heads,
        seq_len,
        head_dim: width,
        rope_dims: rotated,
        theta,
    };
    let workgroups: (u32, u32, u32) = (
        div_ceil_u32(rotated / 2, ROPE_WORKGROUP_X),
        div_ceil_u32(seq_len, ROPE_WORKGROUP_Y),
        heads,
    );
    Ok(GpuPlan::Run { shape, elements, params, workgroups })
}

/// Plans a rotation by the places of the tokens.
pub fn plan_rope(
    input: &[usize],
    positions: &[i32],
    head_dim: usize,
    num_heads: usize,
    rope_dims: usize,
    theta: u32,
) -> (r: Result<GpuPlan<RopeParams>, Error>)
    requires
        size(input@) <= usize::MAX,
    ensures
        is_rotation_plan(
            "rope"@,
            false,
            input@,
            positions.len() as int,
            head_dim as int,
            num_heads as int,
            rope_dims as int,
            theta,
            r,
        ),
{
    plan_rotation("rope", false, input, positions.len(), head_dim, num_heads, rope_dims, theta)
}

/// Plans a rotation by the places of the tokens and those of their regions.
pub fn plan_region_rope(
    input: &[usize],
    global_pos: &[i32],
    region_ids: &[i32],
    head_dim: usize,
    num_heads: usize,
    rope_dims: usize,
    theta: u32,
) -> (r: Result<GpuPlan<RopeParams>, Error>)
    requires
        size(input@) <= usize::MAX,
    ensures
        if global_pos.len() != region_ids.len() {
            r matches Err(e) && e@
                == "region_rope expects matching global_pos and region_ids lengths, got "@
                + decimal(global_pos@.len()) + " and "@ + decimal(region_ids@.len())
        } else {
            is_rotation_plan(
                "region_rope"@,
                true,
                input@,
                global_pos.len() as int,
                head_dim as int,
                num_heads as int,
                rope_dims as int,
                theta,
                r,
            )
        },
{
    if global_pos.len() != region_ids.len() {
        let mut text = String::from_str(
            "region_rope expects matching global_pos and region_ids lengths, got ",
        );
        push_decimal(&mut text, global_pos.len() as u64);
        text.append(" and ");
        push_decimal(&mut text, region_ids.len() as u64);
        return Err(Error::from_text(text));
    }
    plan_rotation(
        "region_rope",
        true,
        input,
        global_pos.len(),
        head_dim,
        num_heads,
        rope_dims,
        theta,
    )
}

// ---------------------------------------------------------------------------
// Single elements
// ---------------------------------------------------------------------------
/// The parameters speak of these operands.
pub open spec fn is_arithmetic(
    p: ArithmeticParams,
    out: Seq<usize>,
    lhs: Seq<usize>,
    rhs: Seq<usize>,
) -> bool {
    &&& p.out_len == size(out)
    &&& p.out_rank == out.len() && p.lhs_rank == lhs.len() && p.rhs_rank == rhs.len()
    &&& p.scalar == 0
    &&& p.out_shape@ == packed(out) && p.out_strides@ == packed(dense_strides(out))
    &&& p.lhs_shape@ == packed(lhs) && p.lhs_strides@ == packed(dense_strides(lhs))
    &&& p.rhs_shape@ == packed(rhs) && p.rhs_strides@ == packed(dense_strides(rhs))
}

pub open spec fn arithmetic_wide(
    out: Seq<usize>,
    lhs: Seq<usize>,
    rhs: Seq<usize>,
) -> Option<Seq<char>> {
    first_of(
        pack_error(out, dense_strides(out)),
        first_of(
            pack_error(lhs, dense_strides(lhs)),
            first_of(
                pack_error(rhs, dense_strides(rhs)),
                wide(size(out), "output element count"@),
            ),
        ),
    )
}

/// Plans an operation on two dense tensors that are stretched to each other.
pub fn plan_arithmetic(lhs: &[usize], rhs: &[usize]) -> (r: Result<
    GpuPlan<ArithmeticParams>,
    Error,
>)
    ensures
        if !broadcastable(lhs@, rhs@) {
            r matches Err(e) && e@ == broadcast_text(lhs@, rhs@)
        } else {
            let out = broadcast_result(lhs@, rhs@);
            if !fits(out) {
                r matches Err(e) && e@ == too_large_text(out)
            } else if size(out) == 0 {
                r matches Ok(plan) && is_empty_plan(plan, out)
            } else {
                match arithmetic_wide(out, lhs@, rhs@) {
                    Some(text) => r matches Err(e) && e@ == text,
                    None => r matches Ok(GpuPlan::Run { shape, elements, params, workgroups })
                        && shape@ == out && elements == size(out) && is_arithmetic(
                        params,
                        out,
                        lhs@,
                        rhs@,
                    ) && group_view(workgroups) == element_groups(size(out)),
                }
            }
        },
{
    let shape: Vec<usize> = match broadcast_shape(lhs, rhs) {
        Ok(shape) => shape,
        Err(e) => {
            return Err(e);
        },
    };
    let elements: usize = match checked_num_elements(&shape) {
        Ok(n) => n,
        Err(e) => {
            return Err(e);
        },
    };
    if elements == 0 {
        return Ok(GpuPlan::Empty { shape });
    }
    let strides: Vec<usize> = contiguous_strides(&shape);
    let lhs_dense: Vec<usize> = contiguous_strides(lhs);
    let rhs_dense: Vec<usize> = contiguous_strides(rhs);
    let (out_shape, out_strides): (Vec<u32>, Vec<u32>) = match pack_dims(&shape, &strides) {
        Ok(packed) => packed,
        Err(e) => {
            return Err(e);
        },
    };
    let (lhs_shape, lhs_strides): (Vec<u32>, Vec<u32>) = match pack_dims(lhs, &lhs_dense) {
        Ok(packed) => packed,
        Err(e) => {
            return Err(e);
        },
    };
    let (rhs_shape, rhs_strides): (Vec<u32>, Vec<u32>) = match pack_dims(rhs, &rhs_dense) {
        Ok(packed) => packed,
        Err(e) => {
            return Err(e);
        },
    };
    let out_len: u32 = match usize_to_u32(elements, "output element count") {
        Ok(n) => n,
        Err(e) => {
            return Err(e);
        },
    };
    let params = ArithmeticParams {
        out_len,
        out_rank: shape.len() as u32,
        lhs_rank: lhs.len() as u32,
        rhs_rank: rhs.len() as u32,
        scalar: 0,
        out_shape,
        out_strides,
        lhs_shape,
        lhs_strides,
        rhs_shape,
        rhs_strides,
    };
    let workgroups: (u32, u32, u32) = elementwise_workgroups(out_len);
    Ok(GpuPlan::Run { shape, elements, params, workgroups })
}

/// The parameters speak of one operand and a number.
pub open spec fn is_unary(p: ArithmeticParams, input: Seq<usize>, scalar: u32) -> bool {
    &&& p.out_len == size(input)
    &&& p.out_rank == input.len() && p.lhs_rank == input.len() && p.rhs_rank == 0
    &&& p.scalar == scalar
    &&& p.out_shape@ == packed(input) && p.out_strides@ == packed(dense_strides(input))
    &&& p.lhs_shape@ == packed(input) && p.lhs_strides@ == packed(dense_strides(input))
    &&& p.rhs_shape@ == packed(Seq::empty()) && p.rhs_strides@ == packed(Seq::empty())
}

pub open spec fn unary_wide(input: Seq<usize>) -> Option<Seq<char>> {
    first_of(
        wide(size(input), "output element count"@),
        first_of(
            wide(input.len() as int, "output rank"@),
            pack_error(input, dense_strides(input)),
        ),
    )
}

/// Plans an operation on the elements of one dense tensor.
pub fn plan_unary(input: &[usize], scalar: u32) -> (r: Result<GpuPlan<ArithmeticParams>, Error>)
    requires
        size(input@) <= usize::MAX,
    ensures
        if size(input@) == 0 {
            if fits(input@) {
                r matches Ok(plan) && is_empty_plan(plan, input@)
            } else {
                r matches Err(e) && e@ == too_large_text(input@)
            }
        } else {
            match unary_wide(input@) {
                Some(text) => r matches Err(e) && e@ == text,
                None => r matches Ok(GpuPlan::Run { shape, elements, params, workgroups })
                    && shape@ == input@ && elements == size(input@) && is_unary(
                    params,
                    input@,
                    scalar,
                ) && group_view(workgroups) == element_groups(size(input@)),
            }
        },
{
    let shape: Vec<usize> = copy_all(input);
    let elements: usize = count_elements(input);
    if elements == 0 {
        return match checked_num_elements(input) {
            Ok(_) => Ok(GpuPlan::Empty { shape }),
            Err(e) => Err(e),
        };
    }
    let out_len: u32 = match usize_to_u32(elements, "output element count") {
        Ok(n) => n,
        Err(e) => {
            return Err(e);
        },
    };
    let out_rank: u32 = match usize_to_u32(input.len(), "output rank") {
        Ok(n) => n,
        Err(e) => {
            return Err(e);
        },
    };
    let dense: Vec<usize> = contiguous_strides(input);
    let (out_shape, out_strides): (Vec<u32>, Vec<u32>) = match pack_dims(input, &dense) {
        Ok(packed) => packed,
        Err(e) => {
            return Err(e);
        },
    };
    let (lhs_shape, lhs_strides): (Vec<u32>, Vec<u32>) = match pack_dims(input, &dense) {
        Ok(packed) => packed,
        Err(e) => {
            return Err(e);
        },
    };
    let none: Vec<usize> = Vec::new();
    let (rhs_shape, rhs_strides): (Vec<u32>, Vec<u32>) = match pack_dims(&none, &none) {
        Ok(packed) => packed,
        Err(e) => {
            return Err(e);
        },
    };
    let params = ArithmeticParams {
        out_len,
        out_rank,
        lhs_rank: out_rank,
        rhs_rank: 0,
        scalar,
        out_shape,
        out_strides,
        lhs_shape,
        lhs_strides,
        rhs_shape,
        rhs_strides,
    };
    let workgroups: (u32, u32, u32) = elementwise_workgroups(out_len);
    Ok(GpuPlan::Run { shape, elements, params, workgroups })
}

// ---------------------------------------------------------------------------
// Layout
// ---------------------------------------------------------------------------
/// What has to be done for a tensor that takes up a buffer of its own.
#[derive(Debug)]
pub enum ContiguousPlan {
    /// It does already.
    Keep,
    /// Its elements are taken from the downloaded buffer one by one.
    OnCpu,
    /// It has no elements.
    Empty,
    /// A program moves them.
    Run { elements: usize, params: LayoutParams, workgroups: (u32, u32, u32) },
}

/// The parameters speak of this view.
pub open spec fn is_layout(p: LayoutParams, t: GpuTensor) -> bool {
    &&& p.out_len == size(t.shape@)
    &&& p.rank == t.shape.len()
    &&& p.offset == t.offset
    &&& p.shape@ == packed(t.shape@)
    &&& p.out_strides@ == packed(dense_strides(t.shape@))
    &&& p.src_strides@ == packed(t.strides@)
}

pub open spec fn layout_wide(t: GpuTensor) -> Option<Seq<char>> {
    first_of(
        wide(size(t.shape@), "output element count"@),
        first_of(
            wide(t.offset as int, "tensor offset"@),
            first_of(
                pack_error(t.shape@, t.strides@),
                pack_error(t.shape@, dense_strides(t.shape@)),
            ),
        ),
    )
}

/// Plans the move of a view to a buffer of its own.
pub fn plan_contiguous(t: &GpuTensor) -> (r: Result<ContiguousPlan, Error>)
    requires
        t.well_formed(),
    ensures
        if t.compact() {
            r matches Ok(plan) && plan is Keep
        } else if t.shape.len() > MAX_DIMS {
            r matches Ok(plan) && plan is OnCpu
        } else if size(t.shape@) == 0 {
            if fits(t.shape@) {
                r matches Ok(plan) && plan is Empty
            } else {
                r matches Err(e) && e@ == too_large_text(t.shape@)
            }
        } else {
            match layout_wide(*t) {
                Some(text) => r matches Err(e) && e@ == text,
                None => r matches Ok(ContiguousPlan::Run { elements, params, workgroups })
                    && elements == size(t.shape@) && is_layout(params, *t) && group_view(workgroups)
                    == element_groups(size(t.shape@)),
            }
        },
{
    if t.has_compact_storage() {
        return Ok(ContiguousPlan::Keep);
    }
    if t.shape.len() > MAX_DIMS {
        return Ok(ContiguousPlan::OnCpu);
    }
    let elements: usize = t.num_elements();
    if elements == 0 {
        return match checked_num_elements(&t.shape) {
            Ok(_) => Ok(ContiguousPlan::Empty),
            Err(e) => Err(e),
        };
    }
    let out_len: u32 = match usize_to_u32(elements, "output element count") {
        Ok(n) => n,
        Err(e) => {
            return Err(e);
        },
    };
    let offset: u32 = match usize_to_u32(t.offset, "tensor offset") {
        Ok(n) => n,
        Err(e) => {
            return Err(e);
        },
    };
    let (shape, src_strides): (Vec<u32>, Vec<u32>) = match pack_dims(&t.shape, &t.strides) {
        Ok(packed) => packed,
        Err(e) => {
            return Err(e);
        },
    };
    let dense: Vec<usize> = contiguous_strides(&t.shape);
    let out_strides: Vec<u32> = match pack_dims(&t.shape, &dense) {
        Ok(packed) => packed.1,
        Err(e) => {
            return Err(e);
        },
    };
    let rank: u32 = t.shape.len() as u32;
    let params = LayoutParams { out_len, rank, offset, shape, out_strides, src_strides };
    let workgroups: (u32, u32, u32) = elementwise_workgroups(out_len);
    Ok(ContiguousPlan::Run { elements, params, workgroups })
}

// ---------------------------------------------------------------------------
// Concatenation
// ---------------------------------------------------------------------------
/// What has to be done to put tensors together.
#[derive(Debug)]
pub enum ConcatPlan {
    /// The result has no elements.
    Empty { shape: Vec<usize> },
    /// A program runs once for every part.
    Run { shape: Vec<usize>, elements: usize, steps: Vec<(ConcatParams, (u32, u32, u32))> },
}

pub open spec fn shapes_of(parts: Seq<Vec<usize>>) -> Seq<Seq<usize>> {
    parts.map_values(|v: Vec<usize>| v@)
}

/// The complaint about the first of the leading `n` shapes that does not fit.
pub open spec fn shapes_error(shapes: Seq<Seq<usize>>, axis: int, n: int) -> Option<Seq<char>>
    decreases n,
{
    if n <= 0 {
        None
    } else {
        first_of(shapes_error(shapes, axis, n - 1), part_error(shapes[0], shapes[n - 1], axis))
    }
}

/// The lengths along an axis.
pub open spec fn lengths(shapes: Seq<Seq<usize>>, axis: int) -> Seq<int> {
    Seq::new(shapes.len(), |p: int| shapes[p][axis] as int)
}

/// The shape of the parts together.
pub open spec fn joined_shape(shapes: Seq<Seq<usize>>, axis: int) -> Seq<usize> {
    shapes[0].update(axis, part_offset(lengths(shapes, axis), shapes.len() as int) as usize)
}

/// The complaint about the numbers of one part.
pub open spec fn part_wide(shapes: Seq<Seq<usize>>, axis: int, p: int) -> Option<Seq<char>> {
    let out = joined_shape(shapes, axis);
    first_of(
        wide(size(shapes[p]), "concat part length"@),
        first_of(
            wide(inner_size(out, axis), "concat inner span"@),
            first_of(
                wide(shapes[p][axis] as int, "concat part axis length"@),
                first_of(
                    wide(out[axis] as int, "concat output axis length"@),
                    wide(part_offset(lengths(shapes, axis), p), "concat axis offset"@),
                ),
            ),
        ),
    )
}

/// The complaint about the numbers of the first of the leading `n` parts that has one.
pub open spec fn parts_wide(shapes: Seq<Seq<usize>>, axis: int, n: int) -> Option<Seq<char>>
    decreases n,
{
    if n <= 0 {
        None
    } else {
        first_of(parts_wide(shapes, axis, n - 1), part_wide(shapes, axis, n - 1))
    }
}

/// What the program is told of part `p`.
pub open spec fn concat_step(shapes: Seq<Seq<usize>>, axis: int, p: int) -> ConcatParams {
    let out = joined_shape(shapes, axis);
    ConcatParams {
        part_len: size(shapes[p]) as u32,
        inner: inner_size(out, axis) as u32,
        part_axis_len: shapes[p][axis] as u32,
        out_axis_len: out[axis] as u32,
        axis_offset: part_offset(lengths(shapes, axis), p) as u32,
    }
}

proof fn lemma_complaints_stay(shapes: Seq<Seq<usize>>, axis: int, n: int, m: int)
    requires
        0 <= n <= m,
    ensures
        shapes_error(shapes, axis, n) is Some ==> shapes_error(shapes, axis, m) == shapes_error(
            shapes,
            axis,
            n,
        ),
        parts_wide(shapes, axis, n) is Some ==> parts_wide(shapes, axis, m) == parts_wide(
            shapes,
            axis,
            n,
        ),
    decreases m - n,
{
    if n < m {
        lemma_complaints_stay(shapes, axis, n, m - 1);
    }
}

proof fn lemma_shapes_agree(shapes: Seq<Seq<usize>>, axis: int, n: int)
    requires
        0 <= n <= shapes.len(),
        shapes_error(shapes, axis, n) is None,
    ensures
        forall|p: int| 0 <= p < n ==> same_but(shapes[0], #[trigger] shapes[p], axis),
    decreases n,
{
    if n > 0 {
        lemma_shapes_agree(shapes, axis, n - 1);
    }
}

/// A part of a result that has elements is no larger than the result.
proof fn lemma_part_fits(shapes: Seq<Seq<usize>>, axis: int, p: int)
    requires
        0 <= p < shapes.len(),
        0 <= axis < shapes[0].len(),
        same_but(shapes[0], shapes[p], axis),
        shapes[p][axis] <= joined_shape(shapes, axis)[axis],
        0 < size(joined_shape(shapes, axis)) <= usize::MAX,
    ensures
        0 <= size(shapes[p]) <= usize::MAX,
{
    let out = joined_shape(shapes, axis);
    lemma_sides(out, axis);
    lemma_size_split(out, axis);
    lemma_size_split(shapes[p], axis);
    assert(out.take(axis) =~= shapes[p].take(axis));
    assert(out.skip(axis + 1) =~= shapes[p].skip(axis + 1));
    let (x, y, w, z) = (
        size(out.take(axis)),
        shapes[p][axis] as int,
        out[axis] as int,
        size(out.skip(axis + 1)),
    );
    assert(0 <= x * (y * z) <= x * (w * z)) by (nonlinear_arith)
        requires
            x >= 0,
            z >= 0,
            0 <= y <= w,
    ;
}

/// Plans the concatenation of dense tensors.
pub fn plan_concat(parts: &Vec<Vec<usize>>, axis: usize) -> (r: Result<ConcatPlan, Error>)
    requires
        parts.len() > 0 && axis < parts@[0].len() && shapes_error(
            shapes_of(parts@),
            axis as int,
            parts.len() as int,
        ) is None ==> part_offset(lengths(shapes_of(parts@), axis as int), parts.len() as int)
            <= usize::MAX,
    ensures
        if parts.len() == 0 {
            r matches Err(e) && e@ == "concat requires at least one tensor"@
        } else if axis >= parts@[0].len() {
            r matches Err(e) && e@ == axis_text("concat"@, axis as int, parts@[0].len() as int)
        } else {
            let shapes = shapes_of(parts@);
            let out = joined_shape(shapes, axis as int);
            match shapes_error(shapes, axis as int, parts.len() as int) {
                Some(text) => r matches Err(e) && e@ == text,
                None => if !fits(out) {
                    r matches Err(e) && e@ == too_large_text(out)
                } else if size(out) == 0 {
                    r matches Ok(ConcatPlan::Empty { shape }) && shape@ == out
                } else {
                    match parts_wide(shapes, axis as int, parts.len() as int) {
                        Some(text) => r matches Err(e) && e@ == text,
                        None => r matches Ok(ConcatPlan::Run { shape, elements, steps })
                            && shape@ == out && elements == size(out) && steps.len() == parts.len()
                            && forall|p: int|
                            0 <= p < parts.len() ==> (#[trigger] steps@[p]).0 == concat_step(
                                shapes,
                                axis as int,
                                p,
                            ) && group_view(steps@[p].1) == element_groups(size(shapes[p])),
                    }
                },
            }
        },
{
    if parts.len() == 0 {
        return Err(Error::message("concat requires at least one tensor"));
    }
    let first: &Vec<usize> = &parts[0];
    if let Err(e) = validate_axis(axis, first.len(), "concat") {
        return Err(e);
    }
    let ghost a = axis as int;
    let ghost shapes = shapes_of(parts@);
    let ghost dims = lengths(shapes, a);
    let mut p: usize = 0;
    while p < parts.len()
        invariant
            p <= parts.len(),
            parts.len() > 0,
            shapes == shapes_of(parts@),
            first@ == shapes[0],
            a == axis,
            axis < first.len(),
            shapes_error(shapes, a, p as int) is None,
        decreases parts.len() - p,
    {
        if let Err(e) = part_check(first, &parts[p], axis) {
            proof {
                lemma_complaints_stay(shapes, a, p as int + 1, parts.len() as int);
            }
            return Err(e);
        }
        p += 1;
    }
    proof {
        lemma_shapes_agree(shapes, a, parts.len() as int);
    }
    let mut whole: usize = 0;
    p = 0;
    while p < parts.len()
        invariant
            p <= parts.len(),
            shapes == shapes_of(parts@),
            shapes.len() == parts.len(),
            dims == lengths(shapes, a),
            a == axis,
            axis < shapes[0].len(),
            forall|i: int| 0 <= i < parts.len() ==> same_but(shapes[0], #[trigger] shapes[i], a),
            part_offset(dims, parts.len() as int) <= usize::MAX,
            whole == part_offset(dims, p as int),
        decreases parts.len() - p,
    {
        proof {
            lemma_offsets_grow(dims, p as int + 1, parts.len() as int);
            assert(same_but(shapes[0], shapes[p as int], a));
        }
        whole = whole + parts[p][axis];
        p += 1;
    }
    let mut shape: Vec<usize> = copy_all(first);
    shape.set(axis, whole);
    assert(shape@ =~= joined_shape(shapes, a));
    let elements: usize = match checked_num_elements(&shape) {
        Ok(n) => n,
        Err(e) => {
            return Err(e);
        },
    };
    if elements == 0 {
        return Ok(ConcatPlan::Empty { shape });
    }
    proof {
        lemma_size_nonnegative(shape@);
        lemma_sides(shape@, a);
    }
    let span: usize = count_sides(&shape, axis).1;
    let mut steps: Vec<(ConcatParams, (u32, u32, u32))> = Vec::new();
    let mut from: usize = 0;
    p = 0;
    while p < parts.len()
        invariant
            p <= parts.len(),
            shapes == shapes_of(parts@),
            shapes.len() == parts.len(),
            dims == lengths(shapes, a),
            a == axis,
            axis < shapes[0].len(),
            shape@ == joined_shape(shapes, a),
            shape.len() == shapes[0].len(),
            shape@[a] == part_offset(dims, parts.len() as int),
            0 < size(shape@) <= usize::MAX,
            fits(shape@),
            shapes_error(shapes, a, parts.len() as int) is None,
            span == inner_size(shape@, a),
            forall|i: int| 0 <= i < parts.len() ==> same_but(shapes[0], #[trigger] shapes[i], a),
            from == part_offset(dims, p as int),
            parts_wide(shapes, a, p as int) is None,
            steps.len() == p,
            forall|i: int|
                0 <= i < p ==> (#[trigger] steps@[i]).0 == concat_step(shapes, a, i) && group_view(
                    steps@[i].1,
                ) == element_groups(size(shapes[i])),
        decreases parts.len() - p,
    {
        proof {
            lemma_offsets_grow(dims, p as int + 1, parts.len() as int);
            lemma_offsets_grow(dims, 0, p as int);
            assert(same_but(shapes[0], shapes[p as int], a));
            lemma_part_fits(shapes, a, p as int);
            lemma_complaints_stay(shapes, a, p as int + 1, parts.len() as int);
        }
        let part: &Vec<usize> = &parts[p];
        let count: usize = count_elements(part);
        let part_len: u32 = match usize_to_u32(count, "concat part length") {
            Ok(n) => n,
            Err(e) => {
                return Err(e);
            },
        };
        let inner: u32 = match usize_to_u32(span, "concat inner span") {
            Ok(n) => n,
            Err(e) => {
                return Err(e);
            },
        };
        let part_axis_len: u32 = match usize_to_u32(part[axis], "concat part axis length") {
            Ok(n) => n,
            Err(e) => {
                return Err(e);
            },
        };
        let out_axis_len: u32 = match usize_to_u32(shape[axis], "concat output axis length") {
            Ok(n) => n,
            Err(e) => {
                return Err(e);
            },
        };
        let axis_offset: u32 = match usize_to_u32(from, "concat axis offset") {
            Ok(n) => n,
            Err(e) => {
                return Err(e);
            },
        };
        let params = ConcatParams { part_len, inner, part_axis_len, out_axis_len, axis_offset };
        steps.push((params, elementwise_workgroups(part_len)));
        from = from + part[axis];
        p += 1;
    }
    Ok(ConcatPlan::Run { shape, elements, steps })
}

// ---------------------------------------------------------------------------
// Running and reading back
// ---------------------------------------------------------------------------
/// Whether a program has anything to do: it runs in at least one workgroup.
pub fn needs_dispatch(workgroups: (u32, u32, u32)) -> (b: bool)
    ensures
        b == (workgroups.0 > 0 && workgroups.1 > 0 && workgroups.2 > 0),
{
    workgroups.0 > 0 && workgroups.1 > 0 && workgroups.2 > 0
}

/// The bytes to read for a run of elements: where they begin and how many they are.
/// There are none for no elements.
pub fn plan_readback(offset: usize, elements: usize) -> (r: Result<Option<(u64, u64)>, Error>)
    ensures
        match r {
            Ok(None) => elements == 0,
            Ok(Some((from, len))) => elements > 0 && from == 4 * offset && len == 4 * elements,
            Err(e) => elements > 0 && if 4 * elements > usize::MAX {
                e@ == "buffer size overflow"@
            } else {
                4 * offset > usize::MAX && e@ == "buffer offset overflow"@
            },
        },
{
    if elements == 0 {
        return Ok(None);
    }
    let len: u64 = match bytes_for_elements(elements) {
        Ok(n) => n,
        Err(e) => {
            return Err(e);
        },
    };
    match bytes_for_offset(offset) {
        Ok(from) => Ok(Some((from, len))),
        Err(e) => Err(e),
    }
}

/// The complaint about tensors on two devices.
pub fn check_same_device(same: bool, op_name: &str) -> (r: Result<(), Error>)
    ensures
        match r {
            Ok(_) => same,
            Err(e) => !same && e@ == op_name@ + " requires tensors on the same GPU device"@,
        },
{
    if same {
        return Ok(());
    }
    let mut text = String::from_str(op_name);
    text.append(" requires tensors on the same GPU device");
    Err(Error::from_text(text))
}

/// Groups cover everything that is to be computed, and the last one is not idle.
pub proof fn law_groups_cover_the_work(n: int, size: int)
    requires
        0 <= n,
        0 < size,
    ensures
        groups(n, size) * size >= n,
        groups(n, size) * size < n + size,
{
    let t = n + size - 1;
    let q = t / size;
    vstd::arithmetic::div_mod::lemma_fundamental_div_mod(t, size);
    let r = t % size;
    assert(0 <= r < size) by (nonlinear_arith)
        requires
            r == t % size,
            size > 0,
    ;
    assert(q * size == size * q) by (nonlinear_arith);
}

/// A kernel is refused exactly where one of the numbers that it is told does not fit in
/// thirty-two bits.
pub proof fn law_wide_numbers_are_refused(
    s: (int, int, int, int),
    input: Seq<usize>,
    kernel: Seq<usize>,
    stride: int,
    padding: int,
    axis: int,
    label: Seq<char>,
)
    ensures
        wide(s.0, label) is None <==> s.0 < 0x1_0000_0000,
        matmul_wide(s) is None <==> {
            &&& s.0 < 0x1_0000_0000
            &&& s.1 < 0x1_0000_0000
            &&& s.2 < 0x1_0000_0000
            &&& s.3 < 0x1_0000_0000
        },
        linear_wide(input, kernel) is None <==> {
            &&& size(input.take(input.len() - 1)) < 0x1_0000_0000
            &&& input[input.len() - 1] < 0x1_0000_0000
            &&& kernel[0] < 0x1_0000_0000
        },
        conv_wide(input, kernel, stride, padding) is None <==> {
            &&& input[0] < 0x1_0000_0000
            &&& input[1] < 0x1_0000_0000
            &&& kernel[1] < 0x1_0000_0000
            &&& stride < 0x1_0000_0000
            &&& padding < 0x1_0000_0000
            &&& conv_time(input[0] as int, kernel[1] as int, stride, padding) < 0x1_0000_0000
        },
        softmax_wide(input, axis) is None <==> {
            &&& outer_size(input, axis) < 0x1_0000_0000
            &&& input[axis] < 0x1_0000_0000
            &&& inner_size(input, axis) < 0x1_0000_0000
        },
        repeat_wide(input, axis, s.0) is None <==> {
            &&& size(input.update(axis, (input[axis] * s.0) as usize)) < 0x1_0000_0000
            &&& outer_size(input, axis) < 0x1_0000_0000
            &&& input[axis] < 0x1_0000_0000
            &&& inner_size(input, axis) < 0x1_0000_0000
            &&& s.0 < 0x1_0000_0000
        },
        rms_norm_wide(s.0, s.1) is None <==> s.0 < 0x1_0000_0000 && s.1 < 0x1_0000_0000,
{
}

/// Shapes and strides are handed over number by number, and filled up with zeros; they are
/// refused exactly where there are more than eight of them or one is too large.
pub proof fn law_dimensions_are_packed(shape: Seq<usize>, strides: Seq<usize>)
    requires
        strides.len() == shape.len(),
    ensures
        pack_error(shape, strides) is None <==> {
            &&& shape.len() <= 8
            &&& forall|i: int| 0 <= i < shape.len() ==> #[trigger] shape[i] < 0x1_0000_0000
            &&& forall|i: int| 0 <= i < strides.len() ==> #[trigger] strides[i] < 0x1_0000_0000
        },
        pack_error(shape, strides) is None ==> {
            &&& packed(shape).len() == 8
            &&& packed(strides).len() == 8
            &&& forall|i: int| 0 <= i < shape.len() ==> #[trigger] packed(shape)[i] == shape[i]
            &&& forall|i: int|
                0 <= i < strides.len() ==> #[trigger] packed(strides)[i] == strides[i]
            &&& forall|i: int| shape.len() <= i < 8 ==> #[trigger] packed(shape)[i] == 0
            &&& forall|i: int| strides.len() <= i < 8 ==> #[trigger] packed(strides)[i] == 0
        },
{
    lemma_wide_from(shape, "tensor dimension"@, 0);
    lemma_wide_from(strides, "tensor stride"@, 0);
}

proof fn lemma_wide_from(values: Seq<usize>, label: Seq<char>, i: int)
    requires
        0 <= i <= values.len(),
    ensures
        wide_from(values, label, i) is None <==> forall|k: int|
            i <= k < values.len() ==> #[trigger] values[k] < 0x1_0000_0000,
    decreases values.len() - i,
{
    if i < values.len() {
        lemma_wide_from(values, label, i + 1);
    }
}

} // verus!
