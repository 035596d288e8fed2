//! Operations on tensors, of whatever kind: each is named, so that what is built from
//! them can be stated over the names.
use vstd::prelude::*;

use crate::error::Error;

verus! {

/// What the operation of this name gives on these operands, where nothing else is said
/// of it: the same whenever they are the same.
pub open spec fn named<A, R>(operation: Seq<char>, operands: A) -> R {
    vstd::pervasive::arbitrary::<spec_fn(Seq<char>, A) -> R>()(operation, operands)
}

/// What tensors of some kind hold, and what each operation makes of it. Fractions are bit
/// patterns of single-precision numbers.
pub trait TensorModel: Sized {
    open spec fn dims(&self) -> Seq<usize> {
        named("dims"@, (*self,))
    }

    open spec fn reshaped(&self, shape: Seq<usize>) -> Result<Self, Seq<char>> {
        named("reshaped"@, (*self, shape))
    }

    open spec fn transposed(&self, dim0: int, dim1: int) -> Result<Self, Seq<char>> {
        named("transposed"@, (*self, dim0, dim1))
    }

    open spec fn sliced(&self, axis: int, start: int, end: int) -> Result<Self, Seq<char>> {
        named("sliced"@, (*self, axis, start, end))
    }

    open spec fn joined(parts: Seq<Self>, axis: int) -> Result<Self, Seq<char>> {
        named("joined"@, (parts, axis))
    }

    open spec fn halves(&self) -> Result<(Self, Self), Seq<char>> {
        named("halves"@, (*self,))
    }

    open spec fn thirds(&self) -> Result<(Self, Self, Self), Seq<char>> {
        named("thirds"@, (*self,))
    }

    open spec fn sum(&self, rhs: Self) -> Result<Self, Seq<char>> {
        named("sum"@, (*self, rhs))
    }

    open spec fn product(&self, rhs: Self) -> Result<Self, Seq<char>> {
        named("product"@, (*self, rhs))
    }

    open spec fn scaled(&self, factor: u32) -> Result<Self, Seq<char>> {
        named("scaled"@, (*self, factor))
    }

    open spec fn matrix_product(&self, rhs: Self) -> Result<Self, Seq<char>> {
        named("matrix_product"@, (*self, rhs))
    }

    open spec fn linear_image(&self, weight: Self, bias: Option<Self>) -> Result<Self, Seq<char>> {
        named("linear_image"@, (*self, weight, bias))
    }

    open spec fn rms_normed(&self, weight: Self, eps: u32) -> Result<Self, Seq<char>> {
        named("rms_normed"@, (*self, weight, eps))
    }

    open spec fn softmaxed(&self, axis: int) -> Result<Self, Seq<char>> {
        named("softmaxed"@, (*self, axis))
    }

    open spec fn rotated(
        &self,
        positions: Seq<i32>,
        head_dim: int,
        num_heads: int,
        theta: u32,
    ) -> Result<Self, Seq<char>> {
        named("rotated"@, (*self, positions, head_dim, num_heads, theta))
    }

    open spec fn region_rotated(
        &self,
        positions: Seq<i32>,
        region_ids: Seq<i32>,
        head_dim: int,
        num_heads: int,
        theta: u32,
    ) -> Result<Self, Seq<char>> {
        named("region_rotated"@, (*self, positions, region_ids, head_dim, num_heads, theta))
    }

    open spec fn convolved(
        &self,
        kernel: Self,
        bias: Option<Self>,
        stride: int,
        padding: int,
    ) -> Result<Self, Seq<char>> {
        named("convolved"@, (*self, kernel, bias, stride, padding))
    }

    /// The factor that attention scores are scaled by.
    open spec fn score_factor(head_dim: int) -> u32 {
        named("score_factor"@, (head_dim,))
    }
}

/// A value that stands for what a tensor holds.
pub trait Modelled: Sized {
    type Model: TensorModel;

    /// What the tensor holds.
    open spec fn model(&self) -> Self::Model {
        named("model"@, (*self,))
    }
}

/// A result with what the tensor holds, and the error as its text.
pub open spec fn modelled<T: Modelled>(r: Result<T, Error>) -> Result<T::Model, Seq<char>> {
    match r {
        Ok(t) => Ok(t.model()),
        Err(e) => Err(e@),
    }
}

pub open spec fn modelled_pair<T: Modelled>(r: Result<(T, T), Error>) -> Result<
    (T::Model, T::Model),
    Seq<char>,
> {
    match r {
        Ok(t) => Ok((t.0.model(), t.1.model())),
        Err(e) => Err(e@),
    }
}

pub open spec fn modelled_triple<T: Modelled>(r: Result<(T, T, T), Error>) -> Result<
    (T::Model, T::Model, T::Model),
    Seq<char>,
> {
    match r {
        Ok(t) => Ok((t.0.model(), t.1.model(), t.2.model())),
        Err(e) => Err(e@),
    }
}

/// What each of the tensors holds.
pub open spec fn models<T: Modelled>(parts: Seq<T>) -> Seq<T::Model> {
    Seq::new(parts.len(), |i: int| parts[i].model())
}

/// What the tensor holds, where there is one.
pub open spec fn optional_model<T: Modelled>(t: Option<&T>) -> Option<T::Model> {
    match t {
        Some(t) => Some(t.model()),
        None => None,
    }
}

/// Tensors of some kind. What an operation gives is determined by what the tensors that
/// it is given hold.
pub trait Tensor: Modelled {
    fn shape(&self) -> (s: Vec<usize>)
        ensures
            s@ == self.model().dims(),
    ;

    fn reshape(&self, shape: &Vec<usize>) -> (r: Result<Self, Error>)
        ensures
            modelled(r) == self.model().reshaped(shape@),
    ;

    fn transpose(&self, dim0: usize, dim1: usize) -> (r: Result<Self, Error>)
        ensures
            modelled(r) == self.model().transposed(dim0 as int, dim1 as int),
    ;

    fn slice(&self, axis: usize, start: usize, end: usize) -> (r: Result<Self, Error>)
        ensures
            modelled(r) == self.model().sliced(axis as int, start as int, end as int),
    ;

    fn concat(parts: &Vec<Self>, axis: usize) -> (r: Result<Self, Error>)
        ensures
            modelled(r) == Self::Model::joined(models(parts@), axis as int),
    ;

    fn split_last_dim_two(&self) -> (r: Result<(Self, Self), Error>)
        ensures
            modelled_pair(r) == self.model().halves(),
    ;

    fn split_last_dim_three(&self) -> (r: Result<(Self, Self, Self), Error>)
        ensures
            modelled_triple(r) == self.model().thirds(),
    ;

    fn add(&self, rhs: &Self) -> (r: Result<Self, Error>)
        ensures
            modelled(r) == self.model().sum(rhs.model()),
    ;

    fn mul(&self, rhs: &Self) -> (r: Result<Self, Error>)
        ensures
            modelled(r) == self.model().product(rhs.model()),
    ;

    fn scale(&self, factor: u32) -> (r: Result<Self, Error>)
        ensures
            modelled(r) == self.model().scaled(factor),
    ;

    fn matmul(&self, rhs: &Self) -> (r: Result<Self, Error>)
        ensures
            modelled(r) == self.model().matrix_product(rhs.model()),
    ;

    fn linear(&self, weight: &Self, bias: Option<&Self>) -> (r: Result<Self, Error>)
        ensures
            modelled(r) == self.model().linear_image(
                weight.model(),
                optional_model(bias),
            ),
    ;

    fn rms_norm(&self, weight: &Self, eps: u32) -> (r: Result<Self, Error>)
        ensures
            modelled(r) == self.model().rms_normed(weight.model(), eps),
    ;

    fn softmax(&self, axis: isize) -> (r: Result<Self, Error>)
        ensures
            modelled(r) == self.model().softmaxed(axis as int),
    ;

    fn rope(&self, positions: &Vec<i32>, head_dim: usize, num_heads: usize, theta: u32) -> (r:
        Result<Self, Error>)
        ensures
            modelled(r) == self.model().rotated(
                positions@,
                head_dim as int,
                num_heads as int,
                theta,
            ),
    ;

    fn region_rope(
        &self,
        positions: &Vec<i32>,
        region_ids: &Vec<i32>,
        head_dim: usize,
        num_heads: usize,
        theta: u32,
    ) -> (r: Result<Self, Error>)
        ensures
            modelled(r) == self.model().region_rotated(
                positions@,
                region_ids@,
                head_dim as int,
                num_heads as int,
                theta,
            ),
    ;

    fn conv1d_dw(&self, kernel: &Self, bias: Option<&Self>, stride: usize, padding: usize) -> (r:
        Result<Self, Error>)
        ensures
            modelled(r) == self.model().convolved(
                kernel.model(),
                optional_model(bias),
                stride as int,
                padding as int,
            ),
    ;

    fn attention_scale(head_dim: usize) -> (factor: u32)
        ensures
            factor == Self::Model::score_factor(head_dim as int),
    ;
}

/// What a layer makes of what tensors hold.
pub trait LayerModel<M>: Sized {
    open spec fn image(&self, x: M) -> Result<M, Seq<char>> {
        named("image"@, (*self, x))
    }
}

/// A layer that maps a tensor to another.
pub trait Layer<T: Tensor>: LayerModel<T::Model> {
    fn apply(&self, x: &T) -> (r: Result<T, Error>)
        ensures
            modelled(r) == self.image(x.model()),
    ;
}

} // verus!
