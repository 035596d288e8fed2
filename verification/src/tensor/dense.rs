//! Dense tensors of numbers, on which the networks run.
use vstd::prelude::*;

use crate::error::Error;
use crate::slices::copy_all;
use crate::tensor::contents::Contents;
use crate::tensor::cpu::{length_text, CpuTensor};
use crate::tensor::dense_ops::{
    self, check_split, contents_of, contents_of_bias, contents_of_parts, share_of,
};
use crate::tensor::numbers::Number;
use crate::tensor::ops::{models, optional_model, Modelled, Tensor, TensorModel};
use crate::tensor::shape::{fits, size, too_large_text};

verus! {

/// A dense tensor with one number for each position of its shape.
pub struct DenseTensor<E: Number> {
    inner: CpuTensor<E>,
}

impl<E: Number> DenseTensor<E> {
    #[verifier::type_invariant]
    spec fn is_full(self) -> bool {
        self.inner.well_formed()
    }

    /// A tensor of the given numbers and shape.
    pub fn from_data(data: &[E], shape: &[usize]) -> (r: Result<DenseTensor<E>, Error>)
        ensures
            match r {
                Ok(t) => {
                    &&& fits(shape@) && data.len() == size(shape@)
                    &&& t.model() == (Contents { shape: shape@, values: data@ })
                },
                Err(e) => if !fits(shape@) {
                    e@ == too_large_text(shape@)
                } else {
                    data.len() != size(shape@) && e@ == length_text(data.len() as nat, shape@)
                },
            },
    {
        match CpuTensor::from_data(data, shape) {
            Ok(inner) => Ok(DenseTensor { inner }),
            Err(e) => Err(e),
        }
    }

    /// The numbers, in row-major order.
    pub fn to_vec(&self) -> (v: Vec<E>)
        ensures
            v@ == self.model().values,
            v.len() == size(self.model().shape),
    {
        proof {
            use_type_invariant(self);
        }
        self.inner.to_vec()
    }

    fn of(r: Result<CpuTensor<E>, Error>) -> (t: Result<Self, Error>)
        requires
            r is Ok ==> r->Ok_0.well_formed(),
        ensures
            match r {
                Ok(x) => t is Ok && t->Ok_0.model() == contents_of(x),
                Err(e) => t == Err::<Self, Error>(e),
            },
    {
        match r {
            Ok(inner) => Ok(DenseTensor { inner }),
            Err(e) => Err(e),
        }
    }
}

impl<E: Number> Modelled for DenseTensor<E> {
    type Model = Contents<E>;

    closed spec fn model(&self) -> Contents<E> {
        contents_of(self.inner)
    }
}

/// The tensor inside, where there is one.
fn inner_of<'a, E: Number>(t: Option<&'a DenseTensor<E>>) -> (r: Option<&'a CpuTensor<E>>)
    ensures
        contents_of_bias(r) == optional_model(t),
        r is Some ==> r->0.well_formed(),
{
    match t {
        Some(t) => {
            proof {
                use_type_invariant(t);
            }
            Some(&t.inner)
        },
        None => None,
    }
}

impl<E: Number> Tensor for DenseTensor<E> {
    fn shape(&self) -> Vec<usize> {
        copy_all(&self.inner.shape)
    }

    fn reshape(&self, shape: &Vec<usize>) -> Result<Self, Error> {
        proof {
            use_type_invariant(self);
        }
        Self::of(dense_ops::reshape(&self.inner, shape))
    }

    fn transpose(&self, dim0: usize, dim1: usize) -> Result<Self, Error> {
        proof {
            use_type_invariant(self);
        }
        Self::of(dense_ops::transpose(&self.inner, dim0, dim1))
    }

    fn slice(&self, axis: usize, start: usize, end: usize) -> Result<Self, Error> {
        proof {
            use_type_invariant(self);
        }
        Self::of(dense_ops::slice(&self.inner, axis, start, end))
    }

    fn concat(parts: &Vec<Self>, axis: usize) -> Result<Self, Error> {
        let mut inner: Vec<&CpuTensor<E>> = Vec::new();
        let mut p: usize = 0;
        while p < parts.len()
            invariant
                p <= parts.len(),
                inner.len() == p,
                forall|q: int| 0 <= q < p ==> (#[trigger] inner@[q]).well_formed(),
                forall|q: int|
                    0 <= q < p ==> contents_of(*#[trigger] inner@[q]) == parts@[q].model(),
            decreases parts.len() - p,
        {
            let part: &Self = &parts[p];
            proof {
                use_type_invariant(part);
            }
            inner.push(&part.inner);
            p += 1;
        }
        assert(contents_of_parts(inner@) =~= models(parts@));
        Self::of(dense_ops::concat(&inner, axis))
    }

    fn split_last_dim_two(&self) -> Result<(Self, Self), Error> {
        proof {
            use_type_invariant(self);
        }
        if let Err(e) = check_split(&self.inner.shape, 2) {
            return Err(e);
        }
        let a = share_of(&self.inner, 2, 0);
        let b = share_of(&self.inner, 2, 1);
        Ok((DenseTensor { inner: a }, DenseTensor { inner: b }))
    }

    fn split_last_dim_three(&self) -> Result<(Self, Self, Self), Error> {
        proof {
            use_type_invariant(self);
        }
        if let Err(e) = check_split(&self.inner.shape, 3) {
            return Err(e);
        }
        let a = share_of(&self.inner, 3, 0);
        let b = share_of(&self.inner, 3, 1);
        let c = share_of(&self.inner, 3, 2);
        Ok((DenseTensor { inner: a }, DenseTensor { inner: b }, DenseTensor { inner: c }))
    }

    fn add(&self, rhs: &Self) -> Result<Self, Error> {
        proof {
            use_type_invariant(self);
            use_type_invariant(rhs);
        }
        Self::of(dense_ops::add(&self.inner, &rhs.inner))
    }

    fn mul(&self, rhs: &Self) -> Result<Self, Error> {
        proof {
            use_type_invariant(self);
            use_type_invariant(rhs);
        }
        Self::of(dense_ops::mul(&self.inner, &rhs.inner))
    }

    fn scale(&self, factor: u32) -> Result<Self, Error> {
        proof {
            use_type_invariant(self);
        }
        Self::of(Ok(dense_ops::scale(&self.inner, factor)))
    }

    fn matmul(&self, rhs: &Self) -> Result<Self, Error> {
        proof {
            use_type_invariant(self);
            use_type_invariant(rhs);
        }
        Self::of(dense_ops::matmul(&self.inner, &rhs.inner))
    }

    fn linear(&self, weight: &Self, bias: Option<&Self>) -> Result<Self, Error> {
        proof {
            use_type_invariant(self);
            use_type_invariant(weight);
        }
        Self::of(dense_ops::linear(&self.inner, &weight.inner, inner_of(bias)))
    }

    fn rms_norm(&self, weight: &Self, eps: u32) -> Result<Self, Error> {
        proof {
            use_type_invariant(self);
            use_type_invariant(weight);
        }
        Self::of(dense_ops::rms_norm(&self.inner, &weight.inner, eps))
    }

    fn softmax(&self, axis: isize) -> Result<Self, Error> {
        proof {
            use_type_invariant(self);
        }
        Self::of(dense_ops::softmax(&self.inner, axis))
    }

    fn rope(
        &self,
        positions: &Vec<i32>,
        head_dim: usize,
        num_heads: usize,
        theta: u32,
    ) -> Result<Self, Error> {
        proof {
            use_type_invariant(self);
        }
        Self::of(dense_ops::rope(&self.inner, positions, head_dim, num_heads, theta))
    }

    fn region_rope(
        &self,
        positions: &Vec<i32>,
        region_ids: &Vec<i32>,
        head_dim: usize,
        num_heads: usize,
        theta: u32,
    ) -> Result<Self, Error> {
        proof {
            use_type_invariant(self);
        }
        Self::of(
            dense_ops::region_rope(
                &self.inner,
                positions,
                region_ids,
                head_dim,
                num_heads,
                theta,
            ),
        )
    }

    fn conv1d_dw(
        &self,
        kernel: &Self,
        bias: Option<&Self>,
        stride: usize,
        padding: usize,
    ) -> Result<Self, Error> {
        proof {
            use_type_invariant(self);
            use_type_invariant(kernel);
        }
        Self::of(
            dense_ops::conv1d_dw(&self.inner, &kernel.inner, inner_of(bias), stride, padding),
        )
    }

    fn attention_scale(head_dim: usize) -> u32 {
        E::attention_scale(head_dim)
    }
}

} // verus!
