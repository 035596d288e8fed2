//! The numbers that tensors are made of: what is computed on single numbers, on rows of
//! them and on blocks of matrices.
use vstd::prelude::*;

use crate::tensor::cpu_kernels::{lies_within, Product};
use crate::tensor::cpu_ops::lane;
use crate::tensor::ops::named;

verus! {

/// What operations on numbers give. Nothing is said of it but that the same numbers give
/// the same result: rounding is left to the kind of number.
pub trait Algebra: Copy {
    open spec fn plus(self, other: Self) -> Self {
        named("plus"@, (self, other))
    }

    open spec fn times(self, other: Self) -> Self {
        named("times"@, (self, other))
    }

    /// The product with a single-precision number, given by its bits.
    open spec fn times_bits(self, factor: u32) -> Self {
        named("times_bits"@, (self, factor))
    }

    /// The sum of the products of two rows.
    open spec fn dot(a: Seq<Self>, b: Seq<Self>) -> Self {
        named("dot"@, (a, b))
    }

    /// What element `i` of a row is after a softmax of the row.
    open spec fn softmax_at(row: Seq<Self>, i: int) -> Self {
        named("softmax_at"@, (row, i))
    }

    /// What element `i` of a row is after the row is normed.
    open spec fn norm_at(row: Seq<Self>, weight: Seq<Self>, eps: u32, i: int) -> Self {
        named("norm_at"@, (row, weight, eps, i))
    }

    /// A pair of channels turned by a position.
    open spec fn turned(
        x: Self,
        y: Self,
        position: i32,
        offset: usize,
        dims: usize,
        theta: u32,
    ) -> (Self, Self) {
        named("turned"@, (x, y, position, offset, dims, theta))
    }

    /// The sum with the product of two numbers taken in.
    open spec fn plus_product(self, x: Self, y: Self) -> Self {
        named("plus_product"@, (self, x, y))
    }

    open spec fn zero() -> Self {
        named("zero"@, ())
    }

    /// The factor that attention scores are scaled by, as bits.
    open spec fn score_factor(head_dim: int) -> u32 {
        named("score_factor"@, (head_dim,))
    }
}

/// Element `i` of a product of two blocks: a row of the first by a column of the second.
pub open spec fn product_at<E: Algebra>(lhs: Seq<E>, rhs: Seq<E>, p: Product, i: int) -> E {
    let row = i / p.cols as int;
    let col = i % p.cols as int;
    E::dot(
        lane(lhs, p.lhs_offset + row * p.inner, 1, p.inner as int),
        lane(rhs, p.rhs_offset + col, p.cols as int, p.inner as int),
    )
}

/// Element `i` of a product with a block that is held by columns: a row of the first by
/// a row of the second.
pub open spec fn row_product_at<E: Algebra>(lhs: Seq<E>, rhs: Seq<E>, p: Product, i: int) -> E {
    let row = i / p.cols as int;
    let col = i % p.cols as int;
    E::dot(
        lane(lhs, p.lhs_offset + row * p.inner, 1, p.inner as int),
        lane(rhs, p.rhs_offset + col * p.inner, 1, p.inner as int),
    )
}

/// Numbers of some kind. A product may be taken of a whole matrix or of blocks of it: an
/// element is what its row and its column give, whatever the block. For numbers whose
/// sums depend on the order in which they are taken, such as those with a fraction, this
/// holds up to rounding.
pub trait Number: Algebra {
    fn add(self, other: Self) -> (r: Self)
        ensures
            r == self.plus(other),
    ;

    fn mul(self, other: Self) -> (r: Self)
        ensures
            r == self.times(other),
    ;

    fn scale(self, factor: u32) -> (r: Self)
        ensures
            r == self.times_bits(factor),
    ;

    /// The product of two blocks of matrices.
    fn product(lhs: &Vec<Self>, rhs: &Vec<Self>, p: Product) -> (v: Vec<Self>)
        requires
            lies_within(p, lhs.len() as int, rhs.len() as int),
        ensures
            v.len() == p.rows * p.cols,
            forall|i: int| 0 <= i < v.len() ==> #[trigger] v@[i] == product_at(lhs@, rhs@, p, i),
    ;

    /// The product of a block with one that is held by columns.
    fn row_product(lhs: &Vec<Self>, rhs: &Vec<Self>, p: Product) -> (v: Vec<Self>)
        requires
            lies_within(p, lhs.len() as int, rhs.len() as int),
        ensures
            v.len() == p.rows * p.cols,
            forall|i: int|
                0 <= i < v.len() ==> #[trigger] v@[i] == row_product_at(lhs@, rhs@, p, i),
    ;

    fn softmax(row: &Vec<Self>) -> (v: Vec<Self>)
        ensures
            v.len() == row.len(),
            forall|i: int| 0 <= i < v.len() ==> #[trigger] v@[i] == Self::softmax_at(row@, i),
    ;

    fn norm(row: &Vec<Self>, weight: &Vec<Self>, eps: u32) -> (v: Vec<Self>)
        ensures
            v.len() == row.len(),
            forall|i: int|
                0 <= i < v.len() ==> #[trigger] v@[i] == Self::norm_at(row@, weight@, eps, i),
    ;

    fn turn(x: Self, y: Self, position: i32, offset: usize, dims: usize, theta: u32) -> (r: (
        Self,
        Self,
    ))
        ensures
            r == Self::turned(x, y, position, offset, dims, theta),
    ;

    fn add_product(self, x: Self, y: Self) -> (r: Self)
        ensures
            r == self.plus_product(x, y),
    ;

    fn nothing() -> (r: Self)
        ensures
            r == Self::zero(),
    ;

    fn attention_scale(head_dim: usize) -> (factor: u32)
        ensures
            factor == Self::score_factor(head_dim as int),
    ;

    /// How many rows of a linear layer are worked on at a time. What the layer gives
    /// does not depend on it.
    fn layer_rows(rows: usize, in_dim: usize, out_dim: usize) -> (n: usize)
        ensures
            n >= 1,
    ;
}

} // verus!
