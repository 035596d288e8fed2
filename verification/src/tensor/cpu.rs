//! Dense tensors and the operations that move their elements.
//!
//! What an operation gives is stated by coordinates: the element of the result
//! at some coordinates is the element of an operand at other coordinates.
use vstd::prelude::*;
use vstd::string::*;

use crate::error::Error;
use crate::slices::copy_all;
use crate::tensor::shape::{
    axis_text, checked_num_elements, coords, coords_vec, fits, flat, flat_index, in_bounds, ints,
    law_coords_then_flat, law_flat_then_coords, lemma_fits_positive, lemma_flat_bounds,
    lemma_size_nonnegative, plain_num_elements, size, too_large_text, validate_axis,
};
use crate::text::{decimal, list_text, push_decimal, push_list};

verus! {

/// A dense tensor in row-major order.
#[derive(Debug, Clone)]
pub struct CpuTensor<T> {
    pub data: Vec<T>,
    pub shape: Vec<usize>,
}

impl<T> CpuTensor<T> {
    /// There is one element for each position of the shape.
    pub open spec fn well_formed(&self) -> bool {
        self.data.len() == size(self.shape@)
    }

    /// The element at the given coordinates.
    pub open spec fn at(&self, c: Seq<int>) -> T {
        self.data@[flat(self.shape@, c)]
    }

    /// The element in row `i` and column `j` of a matrix.
    pub open spec fn at2(&self, i: int, j: int) -> T {
        self.at(seq![i, j])
    }

    /// The element in row `j` and column `k` of matrix `i` of a stack.
    pub open spec fn at3(&self, i: int, j: int, k: int) -> T {
        self.at(seq![i, j, k])
    }
}

/// The message on data of the wrong length.
pub open spec fn length_text(len: nat, shape: Seq<usize>) -> Seq<char> {
    if shape.len() == 0 {
        "scalar tensor requires exactly one element, got "@ + decimal(len)
    } else {
        "tensor data length "@ + decimal(len) + " does not match shape "@ + list_text(shape) + " ("@
            + decimal(size(shape) as nat) + " elements)"@
    }
}

/// The message on a change of shape that changes the number of elements.
pub open spec fn reshape_text(from: Seq<usize>, to: Seq<usize>) -> Seq<char> {
    "cannot reshape tensor "@ + list_text(from) + " into "@ + list_text(to)
        + ": element count mismatch"@
}

/// `s` with the entries at `a` and `b` exchanged.
pub open spec fn swapped<A>(s: Seq<A>, a: int, b: int) -> Seq<A> {
    s.update(a, s[b]).update(b, s[a])
}

/// The message on a range outside an axis.
pub open spec fn slice_text(axis: nat, start: nat, end: nat, shape: Seq<usize>) -> Seq<char> {
    "slice axis "@ + decimal(axis) + " with range "@ + decimal(start) + ".."@ + decimal(end)
        + " is out of bounds for shape "@ + list_text(shape)
}

/// `t` is `x` with two axes exchanged.
pub open spec fn is_transposed<T>(x: CpuTensor<T>, a: int, b: int, t: CpuTensor<T>) -> bool {
    &&& t.well_formed()
    &&& t.shape@ == swapped(x.shape@, a, b)
    &&& forall|c: Seq<int>| #[trigger]
        in_bounds(t.shape@, c) ==> t.at(c) == x.at(swapped(c, a, b))
}

/// `t` is the part of `x` from `start` to `end` of an axis.
pub open spec fn is_slice<T>(
    x: CpuTensor<T>,
    axis: int,
    start: int,
    end: int,
    t: CpuTensor<T>,
) -> bool {
    &&& t.well_formed()
    &&& t.shape@ == x.shape@.update(axis, (end - start) as usize)
    &&& forall|c: Seq<int>| #[trigger]
        in_bounds(t.shape@, c) ==> t.at(c) == x.at(c.update(axis, c[axis] + start))
}

/// Positions of a dense tensor and coordinates tell the same story.
pub proof fn lemma_by_coords<T>(data: Seq<T>, shape: Seq<usize>, f: spec_fn(Seq<int>) -> T)
    requires
        data.len() == size(shape),
        forall|k: int| 0 <= k < data.len() ==> #[trigger] data[k] == f(coords(shape, k)),
    ensures
        forall|c: Seq<int>| #[trigger] in_bounds(shape, c) ==> data[flat(shape, c)] == f(c),
{
    assert forall|c: Seq<int>| #[trigger] in_bounds(shape, c) implies data[flat(shape, c)] == f(
        c,
    ) by {
        lemma_flat_bounds(shape, c);
        law_flat_then_coords(shape, c);
    }
}

impl<T: Copy> CpuTensor<T> {
    /// A tensor of the given elements and shape.
    pub fn from_data(data: &[T], shape: &[usize]) -> (r: Result<CpuTensor<T>, Error>)
        ensures
            match r {
                Ok(t) => t.well_formed() && fits(shape@) && t.data@ == data@ && t.shape@ == shape@,
                Err(e) => if !fits(shape@) {
                    e@ == too_large_text(shape@)
                } else {
                    data.len() != size(shape@) && e@ == length_text(data.len() as nat, shape@)
                },
            },
    {
        Self::from_owned(copy_all(data), shape)
    }

    /// A tensor of the given elements and shape.
    pub fn from_owned(data: Vec<T>, shape: &[usize]) -> (r: Result<CpuTensor<T>, Error>)
        ensures
            match r {
                Ok(t) => t.well_formed() && fits(shape@) && t.data@ == data@ && t.shape@ == shape@,
                Err(e) => if !fits(shape@) {
                    e@ == too_large_text(shape@)
                } else {
                    data.len() != size(shape@) && e@ == length_text(data.len() as nat, shape@)
                },
            },
    {
        let expected: usize = match checked_num_elements(shape) {
            Ok(n) => n,
            Err(e) => {
                return Err(e);
            },
        };
        if data.len() != expected {
            if shape.len() == 0 {
                let mut text = String::from_str(
                    "scalar tensor requires exactly one element, got ",
                );
                push_decimal(&mut text, data.len() as u64);
                return Err(Error::from_text(text));
            }
            let mut text = String::from_str("tensor data length ");
            push_decimal(&mut text, data.len() as u64);
            text.append(" does not match shape ");
            push_list(&mut text, shape);
            text.append(" (");
            push_decimal(&mut text, expected as u64);
            text.append(" elements)");
            return Err(Error::from_text(text));
        }
        Ok(CpuTensor { data, shape: copy_all(shape) })
    }

    /// A tensor with the same value everywhere.
    pub fn filled(shape: &[usize], value: T) -> (r: Result<CpuTensor<T>, Error>)
        ensures
            match r {
                Ok(t) => t.well_formed() && fits(t.shape@) && t.shape@ == shape@ && forall|k: int|
                    0 <= k < t.data.len() ==> #[trigger] t.data@[k] == value,
                Err(e) => !fits(shape@) && e@ == too_large_text(shape@),
            },
    {
        let n: usize = match checked_num_elements(shape) {
            Ok(n) => n,
            Err(e) => {
                return Err(e);
            },
        };
        let mut data: Vec<T> = Vec::new();
        let mut i: usize = 0;
        while i < n
            invariant
                i <= n,
                data.len() == i,
                forall|k: int| 0 <= k < i ==> #[trigger] data@[k] == value,
            decreases n - i,
        {
            data.push(value);
            i += 1;
        }
        Ok(CpuTensor { data, shape: copy_all(shape) })
    }

    /// The number of elements.
    pub fn num_elements(&self) -> (n: usize)
        requires
            self.well_formed(),
        ensures
            n == size(self.shape@),
    {
        self.data.len()
    }

    /// The elements in row-major order.
    pub fn to_vec(&self) -> (v: Vec<T>)
        ensures
            v@ == self.data@,
    {
        copy_all(&self.data)
    }

    /// The shape.
    pub fn shape(&self) -> (s: &Vec<usize>)
        ensures
            s@ == self.shape@,
    {
        &self.shape
    }

    /// A tensor with the same elements and shape.
    pub fn duplicate(&self) -> (t: CpuTensor<T>)
        ensures
            t.data@ == self.data@,
            t.shape@ == self.shape@,
    {
        CpuTensor { data: copy_all(&self.data), shape: copy_all(&self.shape) }
    }

    /// Copies the elements into a buffer of the same length.
    pub fn export(&self, buf: &mut Vec<T>) -> (r: Result<(), Error>)
        requires
            self.well_formed(),
        ensures
            match r {
                Ok(_) => old(buf).len() == size(self.shape@) && final(buf)@ == self.data@,
                Err(e) => old(buf).len() != size(self.shape@) && final(buf)@ == old(buf)@ && e@
                    == "export buffer length "@ + decimal(old(buf).len() as nat)
                    + " does not match tensor shape "@ + list_text(self.shape@) + " ("@ + decimal(
                    size(self.shape@) as nat,
                ) + " elements)"@,
            },
    {
        if buf.len() != self.data.len() {
            let mut text = String::from_str("export buffer length ");
            push_decimal(&mut text, buf.len() as u64);
            text.append(" does not match tensor shape ");
            push_list(&mut text, &self.shape);
            text.append(" (");
            push_decimal(&mut text, self.data.len() as u64);
            text.append(" elements)");
            return Err(Error::from_text(text));
        }
        let mut i: usize = 0;
        while i < self.data.len()
            invariant
                i <= self.data.len() == buf.len(),
                forall|k: int| 0 <= k < i ==> #[trigger] buf@[k] == self.data@[k],
            decreases self.data.len() - i,
        {
            buf.set(i, self.data[i]);
            i += 1;
        }
        assert(buf@ =~= self.data@);
        Ok(())
    }

    /// The same elements in row-major order under another shape.
    pub fn reshape(self, shape: &[usize]) -> (r: Result<CpuTensor<T>, Error>)
        requires
            self.well_formed(),
        ensures
            match r {
                Ok(t) => t.well_formed() && fits(shape@) && t.shape@ == shape@ && t.data@
                    == self.data@,
                Err(e) => if !fits(shape@) {
                    e@ == too_large_text(shape@)
                } else {
                    size(shape@) != size(self.shape@) && e@ == reshape_text(self.shape@, shape@)
                },
            },
    {
        let expected: usize = match checked_num_elements(shape) {
            Ok(n) => n,
            Err(e) => {
                return Err(e);
            },
        };
        if expected != self.data.len() {
            let mut text = String::from_str("cannot reshape tensor ");
            push_list(&mut text, &self.shape);
            text.append(" into ");
            push_list(&mut text, shape);
            text.append(": element count mismatch");
            return Err(Error::from_text(text));
        }
        Ok(CpuTensor { data: self.data, shape: copy_all(shape) })
    }

    /// A dense tensor is laid out densely already.
    pub fn contiguous(self) -> (t: CpuTensor<T>)
        ensures
            t == self,
    {
        self
    }

    /// Exchanges two axes.
    pub fn transpose(self, dim0: usize, dim1: usize) -> (r: Result<CpuTensor<T>, Error>)
        requires
            self.well_formed(),
        ensures
            match r {
                Ok(t) => {
                    &&& dim0 < self.shape.len() && dim1 < self.shape.len()
                    &&& is_transposed(self, dim0 as int, dim1 as int, t)
                },
                Err(e) => if dim0 >= self.shape.len() {
                    e@ == axis_text("transpose"@, dim0 as int, self.shape.len() as int)
                } else {
                    dim1 >= self.shape.len() && e@ == axis_text(
                        "transpose"@,
                        dim1 as int,
                        self.shape.len() as int,
                    )
                },
            },
    {
        let rank: usize = self.shape.len();
        if let Err(e) = validate_axis(dim0, rank, "transpose") {
            return Err(e);
        }
        if let Err(e) = validate_axis(dim1, rank, "transpose") {
            return Err(e);
        }
        let mut shape: Vec<usize> = copy_all(&self.shape);
        let first: usize = shape[dim0];
        let second: usize = shape[dim1];
        shape.set(dim0, second);
        shape.set(dim1, first);
        let ghost d0 = dim0 as int;
        let ghost d1 = dim1 as int;
        assert(shape@ =~= swapped(self.shape@, d0, d1));
        let n: usize = self.data.len();
        proof {
            lemma_size_swapped(self.shape@, d0, d1);
            if n > 0 {
                lemma_fits_positive(self.shape@);
            }
        }
        let mut data: Vec<T> = Vec::new();
        let mut k: usize = 0;
        let ghost f = |c: Seq<int>| self.at(swapped(c, d0, d1));
        while k < n
            invariant
                k <= n,
                n == size(shape@),
                n == size(self.shape@),
                self.well_formed(),
                n > 0 ==> fits(self.shape@),
                rank == self.shape.len() == shape.len(),
                dim0 < rank,
                dim1 < rank,
                d0 == dim0,
                d1 == dim1,
                shape@ == swapped(self.shape@, d0, d1),
                data.len() == k,
                f == (|c: Seq<int>| self.at(swapped(c, d0, d1))),
                forall|j: int| 0 <= j < k ==> #[trigger] data@[j] == f(coords(shape@, j)),
            decreases n - k,
        {
            let mut c: Vec<usize> = coords_vec(&shape, k);
            let ghost before = ints(c@);
            let x: usize = c[dim0];
            let y: usize = c[dim1];
            c.set(dim0, y);
            c.set(dim1, x);
            proof {
                assert(ints(c@) =~= swapped(before, d0, d1));
                assert forall|i: int| 0 <= i < rank implies 0 <= #[trigger] ints(c@)[i]
                    < self.shape@[i] by {
                    assert(before[d0] < shape@[d0] && before[d1] < shape@[d1]);
                    assert(before[i] < shape@[i]);
                }
            }
            let source: usize = flat_index(&self.shape, &c);
            data.push(self.data[source]);
            k += 1;
        }
        proof {
            lemma_by_coords(data@, shape@, f);
        }
        Ok(CpuTensor { data, shape })
    }

    /// The part of the tensor whose coordinate on an axis lies in a range.
    pub fn slice(self, axis: usize, start: usize, end: usize) -> (r: Result<CpuTensor<T>, Error>)
        requires
            self.well_formed(),
        ensures
            match r {
                Ok(t) => {
                    &&& axis < self.shape.len() && start <= end <= self.shape@[axis as int]
                    &&& is_slice(self, axis as int, start as int, end as int, t)
                },
                Err(e) => if axis >= self.shape.len() {
                    e@ == axis_text("slice"@, axis as int, self.shape.len() as int)
                } else if end < start {
                    e@ == "slice end "@ + decimal(end as nat) + " is less than start "@ + decimal(
                        start as nat,
                    )
                } else {
                    end > self.shape@[axis as int] && e@ == slice_text(
                        axis as nat,
                        start as nat,
                        end as nat,
                        self.shape@,
                    )
                },
            },
    {
        let rank: usize = self.shape.len();
        if let Err(e) = validate_axis(axis, rank, "slice") {
            return Err(e);
        }
        if end < start {
            let mut text = String::from_str("slice end ");
            push_decimal(&mut text, end as u64);
            text.append(" is less than start ");
            push_decimal(&mut text, start as u64);
            return Err(Error::from_text(text));
        }
        if end > self.shape[axis] {
            let mut text = String::from_str("slice axis ");
            push_decimal(&mut text, axis as u64);
            text.append(" with range ");
            push_decimal(&mut text, start as u64);
            text.append("..");
            push_decimal(&mut text, end as u64);
            text.append(" is out of bounds for shape ");
            push_list(&mut text, &self.shape);
            return Err(Error::from_text(text));
        }
        let mut shape: Vec<usize> = copy_all(&self.shape);
        shape.set(axis, end - start);
        let ghost a = axis as int;
        proof {
            lemma_size_monotone(self.shape@, shape@);
            lemma_size_nonnegative(shape@);
            if self.data.len() > 0 {
                lemma_fits_positive(self.shape@);
                lemma_fits_smaller(self.shape@, shape@);
            }
        }
        let n: usize = if self.data.len() == 0 {
            0
        } else {
            plain_num_elements(&shape)
        };
        let mut data: Vec<T> = Vec::new();
        let mut k: usize = 0;
        let ghost f = |c: Seq<int>| self.at(c.update(a, c[a] + start));
        while k < n
            invariant
                k <= n,
                n == size(shape@),
                self.well_formed(),
                n > 0 ==> fits(self.shape@),
                rank == self.shape.len() == shape.len(),
                axis < rank,
                a == axis,
                start <= end <= self.shape@[a],
                shape@ == self.shape@.update(a, (end - start) as usize),
                data.len() == k,
                f == (|c: Seq<int>| self.at(c.update(a, c[a] + start))),
                forall|j: int| 0 <= j < k ==> #[trigger] data@[j] == f(coords(shape@, j)),
            decreases n - k,
        {
            let mut c: Vec<usize> = coords_vec(&shape, k);
            let ghost before = ints(c@);
            assert(before[a] < shape@[a]);
            let x: usize = c[axis];
            c.set(axis, x + start);
            proof {
                assert(ints(c@) =~= before.update(a, before[a] + start));
                assert forall|i: int| 0 <= i < rank implies 0 <= #[trigger] ints(c@)[i]
                    < self.shape@[i] by {
                    assert(before[i] < shape@[i]);
                }
            }
            let source: usize = flat_index(&self.shape, &c);
            data.push(self.data[source]);
            k += 1;
        }
        proof {
            lemma_by_coords(data@, shape@, f);
        }
        Ok(CpuTensor { data, shape })
    }
}

/// Exchanging two axes keeps the number of elements.
pub proof fn lemma_size_swapped(shape: Seq<usize>, a: int, b: int)
    requires
        0 <= a < shape.len(),
        0 <= b < shape.len(),
    ensures
        size(swapped(shape, a, b)) == size(shape),
{
    if a == b {
        assert(swapped(shape, a, b) =~= shape);
    } else {
        let (i, j) = if a < b {
            (a, b)
        } else {
            (b, a)
        };
        let t = swapped(shape, a, b);
        assert(t =~= swapped(shape, i, j));
        let p = shape.take(i);
        let m = shape.subrange(i + 1, j);
        let q = shape.skip(j + 1);
        assert(shape =~= p + seq![shape[i]] + m + seq![shape[j]] + q);
        assert(t =~= p + seq![shape[j]] + m + seq![shape[i]] + q);
        lemma_size_five(p, shape[i], m, shape[j], q);
        lemma_size_five(p, shape[j], m, shape[i], q);
        let x = shape[i] as int;
        let y = shape[j] as int;
        assert(size(p) * x * size(m) * y * size(q) == size(p) * y * size(m) * x * size(q))
            by (nonlinear_arith);
    }
}

proof fn lemma_size_five(p: Seq<usize>, x: usize, m: Seq<usize>, y: usize, q: Seq<usize>)
    ensures
        size(p + seq![x] + m + seq![y] + q) == size(p) * x * size(m) * y * size(q),
{
    crate::tensor::shape::lemma_size_one(x);
    crate::tensor::shape::lemma_size_one(y);
    crate::tensor::shape::lemma_size_append(p, seq![x]);
    crate::tensor::shape::lemma_size_append(p + seq![x], m);
    crate::tensor::shape::lemma_size_append(p + seq![x] + m, seq![y]);
    crate::tensor::shape::lemma_size_append(p + seq![x] + m + seq![y], q);
}

/// A shape with smaller dimensions has no more elements.
pub proof fn lemma_size_monotone(big: Seq<usize>, small: Seq<usize>)
    requires
        big.len() == small.len(),
        forall|i: int| 0 <= i < big.len() ==> #[trigger] small[i] <= big[i],
    ensures
        size(small) <= size(big),
    decreases big.len(),
{
    if big.len() > 0 {
        let b = big.drop_last();
        let s = small.drop_last();
        assert forall|i: int| 0 <= i < b.len() implies #[trigger] s[i] <= b[i] by {
            assert(small[i] <= big[i]);
        }
        lemma_size_monotone(b, s);
        lemma_size_nonnegative(s);
        assert(small[big.len() - 1] <= big[big.len() - 1]);
        assert(size(s) * small.last() <= size(b) * big.last()) by (nonlinear_arith)
            requires
                0 <= size(s) <= size(b),
                0 <= small.last() <= big.last(),
        ;
    }
}

/// A shape with smaller dimensions fits where the larger one does.
pub proof fn lemma_fits_smaller(big: Seq<usize>, small: Seq<usize>)
    requires
        fits(big),
        big.len() == small.len(),
        forall|i: int| 0 <= i < big.len() ==> #[trigger] small[i] <= big[i],
    ensures
        fits(small),
{
    assert forall|n: int| 0 <= n <= small.len() implies #[trigger] size(small.take(n))
        <= usize::MAX by {
        assert forall|i: int| 0 <= i < n implies #[trigger] small.take(n)[i] <= big.take(n)[i] by {
            assert(small[i] <= big[i]);
        }
        lemma_size_monotone(big.take(n), small.take(n));
        assert(size(big.take(n)) <= usize::MAX);
    }
}

/// Two tensors of one shape with the same elements hold the same data.
pub proof fn lemma_same_elements<T>(x: CpuTensor<T>, y: CpuTensor<T>)
    requires
        x.well_formed(),
        y.well_formed(),
        x.shape@ == y.shape@,
        forall|c: Seq<int>| #[trigger] in_bounds(x.shape@, c) ==> x.at(c) == y.at(c),
    ensures
        x.data@ == y.data@,
{
    assert forall|k: int| 0 <= k < x.data.len() implies x.data@[k] == y.data@[k] by {
        law_coords_then_flat(x.shape@, k);
        assert(x.at(coords(x.shape@, k)) == y.at(coords(x.shape@, k)));
    }
    assert(x.data@ =~= y.data@);
}

/// Exchanging two axes and exchanging them again gives back the tensor.
pub proof fn law_transposing_twice_restores<T>(
    x: CpuTensor<T>,
    a: int,
    b: int,
    t: CpuTensor<T>,
    u: CpuTensor<T>,
)
    requires
        x.well_formed(),
        0 <= a < x.shape.len(),
        0 <= b < x.shape.len(),
        is_transposed(x, a, b, t),
        is_transposed(t, a, b, u),
    ensures
        u.shape@ == x.shape@,
        u.data@ == x.data@,
{
    assert(u.shape@ =~= x.shape@);
    assert forall|c: Seq<int>| #[trigger] in_bounds(u.shape@, c) implies u.at(c) == x.at(c) by {
        let d = swapped(c, a, b);
        assert(in_bounds(t.shape@, d)) by {
            assert forall|i: int| 0 <= i < t.shape.len() implies 0 <= #[trigger] d[i]
                < t.shape@[i] by {
                assert(c[i] < u.shape@[i]);
                assert(c[a] < u.shape@[a]);
                assert(c[b] < u.shape@[b]);
            }
        }
        assert(swapped(d, a, b) =~= c);
    }
    lemma_same_elements(u, x);
}

} // verus!
