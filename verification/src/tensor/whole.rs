//! Whole numbers: arithmetic without rounding, on which networks can be run to exact
//! results. A softmax chooses the first of the largest numbers, and positions turn pairs
//! of channels by quarters of a circle.
use vstd::prelude::*;

use crate::tensor::cpu_kernels::{lies_within, Product};
use crate::tensor::cpu_ops::lane;
use crate::tensor::numbers::{product_at, row_product_at, Algebra, Number};

verus! {

/// A whole number modulo 2^32.
#[derive(Debug, Clone, Copy, PartialEq, Eq, Structural)]
pub struct Whole(pub u32);

/// The sum of the products of the first `n` numbers of two rows.
pub open spec fn dot_to(a: Seq<Whole>, b: Seq<Whole>, n: int) -> u32
    decreases n,
{
    if n <= 0 {
        0
    } else {
        dot_to(a, b, n - 1).wrapping_add(a[n - 1].0.wrapping_mul(b[n - 1].0))
    }
}

/// The place of the first of the largest of the leading `n` numbers.
pub open spec fn largest(row: Seq<Whole>, n: int) -> int
    decreases n,
{
    if n <= 1 {
        0
    } else {
        let before = largest(row, n - 1);
        if row[n - 1].0 > row[before].0 {
            n - 1
        } else {
            before
        }
    }
}

impl Algebra for Whole {
    open spec fn plus(self, other: Self) -> Self {
        Whole(self.0.wrapping_add(other.0))
    }

    open spec fn times(self, other: Self) -> Self {
        Whole(self.0.wrapping_mul(other.0))
    }

    open spec fn times_bits(self, factor: u32) -> Self {
        Whole(self.0.wrapping_mul(factor))
    }

    open spec fn dot(a: Seq<Self>, b: Seq<Self>) -> Self {
        Whole(dot_to(a, b, a.len() as int))
    }

    open spec fn softmax_at(row: Seq<Self>, i: int) -> Self {
        if i == largest(row, row.len() as int) {
            Whole(1)
        } else {
            Whole(0)
        }
    }

    open spec fn norm_at(row: Seq<Self>, weight: Seq<Self>, eps: u32, i: int) -> Self {
        if i < weight.len() {
            Whole(row[i].0.wrapping_mul(weight[i].0))
        } else {
            row[i]
        }
    }

    open spec fn turned(
        x: Self,
        y: Self,
        position: i32,
        offset: usize,
        dims: usize,
        theta: u32,
    ) -> (Self, Self) {
        let quarter = position as int % 4;
        if quarter == 0 {
            (x, y)
        } else if quarter == 1 {
            (Whole(0u32.wrapping_sub(y.0)), x)
        } else if quarter == 2 {
            (Whole(0u32.wrapping_sub(x.0)), Whole(0u32.wrapping_sub(y.0)))
        } else {
            (y, Whole(0u32.wrapping_sub(x.0)))
        }
    }

    open spec fn plus_product(self, x: Self, y: Self) -> Self {
        Whole(self.0.wrapping_add(x.0.wrapping_mul(y.0)))
    }

    open spec fn zero() -> Self {
        Whole(0)
    }

    open spec fn score_factor(head_dim: int) -> u32 {
        1
    }
}

/// The sum of the products of two lanes.
fn lane_dot(
    lhs: &Vec<Whole>,
    from: usize,
    rhs: &Vec<Whole>,
    base: usize,
    stride: usize,
    n: usize,
) -> (r: Whole)
    requires
        from + n <= lhs.len(),
        n > 0 ==> base + (n - 1) * stride < rhs.len(),
    ensures
        r == Whole::dot(
            lane(lhs@, from as int, 1, n as int),
            lane(rhs@, base as int, stride as int, n as int),
        ),
{
    let ghost a = lane(lhs@, from as int, 1, n as int);
    let ghost b = lane(rhs@, base as int, stride as int, n as int);
    let mut sum: u32 = 0;
    let mut j: usize = 0;
    while j < n
        invariant
            j <= n,
            from + n <= lhs.len(),
            n > 0 ==> base + (n - 1) * stride < rhs.len(),
            a == lane(lhs@, from as int, 1, n as int),
            b == lane(rhs@, base as int, stride as int, n as int),
            sum == dot_to(a, b, j as int),
        decreases n - j,
    {
        assert(0 <= j * stride <= (n - 1) * stride) by (nonlinear_arith)
            requires
                0 <= j <= n - 1,
                stride >= 0,
        ;
        let x: Whole = lhs[from + j];
        let y: Whole = rhs[base + j * stride];
        sum = sum.wrapping_add(x.0.wrapping_mul(y.0));
        j += 1;
    }
    Whole(sum)
}

impl Number for Whole {
    fn add(self, other: Self) -> Self {
        Whole(self.0.wrapping_add(other.0))
    }

    fn mul(self, other: Self) -> Self {
        Whole(self.0.wrapping_mul(other.0))
    }

    fn scale(self, factor: u32) -> Self {
        Whole(self.0.wrapping_mul(factor))
    }

    fn product(lhs: &Vec<Self>, rhs: &Vec<Self>, p: Product) -> Vec<Self> {
        let mut v: Vec<Whole> = Vec::new();
        let total: usize = p.rows * p.cols;
        let mut i: usize = 0;
        while i < total
            invariant
                i <= total,
                total == p.rows * p.cols,
                lies_within(p, lhs.len() as int, rhs.len() as int),
                v.len() == i,
                forall|j: int| 0 <= j < i ==> #[trigger] v@[j] == product_at(lhs@, rhs@, p, j),
            decreases total - i,
        {
            proof {
                lemma_place(i as int, p);
            }
            let row: usize = i / p.cols;
            let col: usize = i % p.cols;
            let from: usize = p.lhs_offset + row * p.inner;
            if p.inner > 0 {
                assert(col + (p.inner - 1) * p.cols < p.inner * p.cols) by (nonlinear_arith)
                    requires
                        0 <= col < p.cols,
                        p.inner >= 1,
                ;
                let x = lane_dot(lhs, from, rhs, p.rhs_offset + col, p.cols, p.inner);
                v.push(x);
            } else {
                v.push(Whole(0));
            }
            i += 1;
        }
        v
    }

    fn row_product(lhs: &Vec<Self>, rhs: &Vec<Self>, p: Product) -> Vec<Self> {
        let mut v: Vec<Whole> = Vec::new();
        let total: usize = p.rows * p.cols;
        let mut i: usize = 0;
        while i < total
            invariant
                i <= total,
                total == p.rows * p.cols,
                lies_within(p, lhs.len() as int, rhs.len() as int),
                v.len() == i,
                forall|j: int| 0 <= j < i ==> #[trigger] v@[j] == row_product_at(lhs@, rhs@, p, j),
            decreases total - i,
        {
            proof {
                lemma_place(i as int, p);
            }
            let row: usize = i / p.cols;
            let col: usize = i % p.cols;
            let from: usize = p.lhs_offset + row * p.inner;
            assert(0 <= col * p.inner && col * p.inner + p.inner <= p.inner * p.cols)
                by (nonlinear_arith)
                requires
                    0 <= col,
                    col + 1 <= p.cols,
                    p.inner >= 0,
            ;
            assert((p.inner - 1) * 1 == p.inner - 1);
            let x = lane_dot(lhs, from, rhs, p.rhs_offset + col * p.inner, 1, p.inner);
            v.push(x);
            i += 1;
        }
        v
    }

    fn softmax(row: &Vec<Self>) -> Vec<Self> {
        let mut at: usize = 0;
        let mut i: usize = 1;
        while i < row.len()
            invariant
                1 <= i,
                i <= row.len() || i == 1,
                at < i,
                at == largest(row@, i as int),
            decreases row.len() - i,
        {
            if row[i].0 > row[at].0 {
                at = i;
            }
            i += 1;
        }
        let mut v: Vec<Whole> = Vec::new();
        let mut j: usize = 0;
        while j < row.len()
            invariant
                j <= row.len(),
                v.len() == j,
                row.len() > 0 ==> at == largest(row@, row.len() as int),
                forall|k: int| 0 <= k < j ==> #[trigger] v@[k] == Whole::softmax_at(row@, k),
            decreases row.len() - j,
        {
            v.push(
                if j == at {
                    Whole(1)
                } else {
                    Whole(0)
                },
            );
            j += 1;
        }
        v
    }

    fn norm(row: &Vec<Self>, weight: &Vec<Self>, eps: u32) -> Vec<Self> {
        let mut v: Vec<Whole> = Vec::new();
        let mut i: usize = 0;
        while i < row.len()
            invariant
                i <= row.len(),
                v.len() == i,
                forall|j: int|
                    0 <= j < i ==> #[trigger] v@[j] == Whole::norm_at(row@, weight@, eps, j),
            decreases row.len() - i,
        {
            v.push(
                if i < weight.len() {
                    Whole(row[i].0.wrapping_mul(weight[i].0))
                } else {
                    row[i]
                },
            );
            i += 1;
        }
        v
    }

    fn turn(x: Self, y: Self, position: i32, offset: usize, dims: usize, theta: u32) -> (
        Self,
        Self,
    ) {
        let quarter: u64 = (position as i64 + 0x8000_0000) as u64 % 4;
        assert(quarter == position as int % 4);
        if quarter == 0 {
            (x, y)
        } else if quarter == 1 {
            (Whole(0u32.wrapping_sub(y.0)), x)
        } else if quarter == 2 {
            (Whole(0u32.wrapping_sub(x.0)), Whole(0u32.wrapping_sub(y.0)))
        } else {
            (y, Whole(0u32.wrapping_sub(x.0)))
        }
    }

    fn add_product(self, x: Self, y: Self) -> Self {
        Whole(self.0.wrapping_add(x.0.wrapping_mul(y.0)))
    }

    fn nothing() -> Self {
        Whole(0)
    }

    fn attention_scale(head_dim: usize) -> u32 {
        1
    }

    fn layer_rows(rows: usize, in_dim: usize, out_dim: usize) -> usize {
        if rows == 0 {
            1
        } else {
            rows
        }
    }
}

/// The row and the column of a place in a product.
proof fn lemma_place(i: int, p: Product)
    requires
        0 <= i < p.rows * p.cols,
    ensures
        p.cols > 0,
        0 <= i / p.cols as int,
        0 <= i % p.cols as int,
        i % (p.cols as int) < p.cols,
        0 <= (i / p.cols as int) * p.inner,
        (i / p.cols as int) * p.inner + p.inner <= p.rows * p.inner,
{
    let (rows, cols, inner) = (p.rows as int, p.cols as int, p.inner as int);
    assert(cols > 0) by (nonlinear_arith)
        requires
            0 < rows * cols,
            rows >= 0,
            cols >= 0,
    ;
    let row = i / cols;
    vstd::arithmetic::div_mod::lemma_fundamental_div_mod(i, cols);
    assert(0 <= row < rows) by (nonlinear_arith)
        requires
            0 <= i < rows * cols,
            i == cols * row + i % cols,
            0 <= i % cols < cols,
    ;
    assert(0 <= row * inner && row * inner + inner <= rows * inner) by (nonlinear_arith)
        requires
            0 <= row,
            row + 1 <= rows,
            inner >= 0,
    ;
}

} // verus!
