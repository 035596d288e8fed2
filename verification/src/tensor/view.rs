//! Strided views into a buffer: which element of the buffer each element of a tensor
//! is, and when elements have to be moved.
use vstd::prelude::*;
use vstd::string::*;

use crate::error::Error;
use crate::slices::{copy_all, same_sizes};
use crate::tensor::cpu::{lemma_size_monotone, lemma_size_swapped, slice_text, swapped};
use crate::tensor::shape::{
    axis_text, checked_num_elements, contiguous_strides, coords, coords_vec, dense_strides, fits,
    flat, in_bounds, ints, law_coords_then_flat, lemma_fits_positive, lemma_flat_bounds,
    lemma_size_nonnegative, plain_num_elements, size, too_large_text, validate_axis,
};
use crate::text::{decimal, list_text, push_decimal, push_list};

verus! {

/// How far into the buffer the first `n` coordinates lead.
pub open spec fn reach(coords: Seq<int>, strides: Seq<usize>, n: int) -> int
    decreases n,
{
    if n <= 0 {
        0
    } else {
        reach(coords, strides, n - 1) + coords[n - 1] * strides[n - 1]
    }
}

/// A tensor that stands in a buffer of `storage_elements` elements.
#[derive(Debug)]
pub struct GpuTensor {
    pub storage_elements: usize,
    pub shape: Vec<usize>,
    pub strides: Vec<usize>,
    pub offset: usize,
}

impl GpuTensor {
    /// The place in the buffer of an element.
    pub open spec fn place(&self, c: Seq<int>) -> int {
        self.offset + reach(c, self.strides@, self.shape.len() as int)
    }

    /// Every element stands within the buffer.
    pub open spec fn well_formed(&self) -> bool {
        &&& self.strides.len() == self.shape.len()
        &&& size(self.shape@) <= usize::MAX
        &&& forall|c: Seq<int>|
            in_bounds(self.shape@, c) ==> 0 <= #[trigger] self.place(c) < self.storage_elements
    }

    pub open spec fn dense(&self) -> bool {
        self.strides@ == dense_strides(self.shape@)
    }

    /// The buffer holds the elements in row-major order and nothing else.
    pub open spec fn compact(&self) -> bool {
        self.offset == 0 && self.dense() && self.storage_elements == size(self.shape@)
    }

    /// The tensor takes up a buffer of its own in row-major order.
    pub open spec fn is_compact_of(&self, shape: Seq<usize>) -> bool {
        self.shape@ == shape && self.compact()
    }
}

// ---------------------------------------------------------------------------
// Dense tensors
// ---------------------------------------------------------------------------
proof fn lemma_size_tail(shape: Seq<usize>, i: int)
    requires
        0 <= i < shape.len(),
    ensures
        size(shape.skip(i)) == if i < shape.len() - 1 {
            size(shape.drop_last().skip(i)) * shape.last()
        } else {
            shape.last() as int
        },
{
    let tail = shape.skip(i);
    assert(tail.last() == shape.last());
    if i < shape.len() - 1 {
        assert(tail.drop_last() =~= shape.drop_last().skip(i));
    } else {
        assert(tail.drop_last() =~= Seq::empty());
        assert(size(Seq::<usize>::empty()) == 1);
    }
    assert(size(tail) == size(tail.drop_last()) * tail.last());
}

/// The exact distance between neighbours along an axis.
pub open spec fn distance(shape: Seq<usize>, i: int) -> int {
    size(shape.skip(i + 1))
}

/// How far the first `n` coordinates lead in row-major order.
pub open spec fn exact_reach(shape: Seq<usize>, c: Seq<int>, n: int) -> int
    decreases n,
{
    if n <= 0 {
        0
    } else {
        exact_reach(shape, c, n - 1) + c[n - 1] * distance(shape, n - 1)
    }
}

proof fn lemma_exact_reach_front(shape: Seq<usize>, c: Seq<int>, n: int)
    requires
        shape.len() > 0,
        c.len() == shape.len(),
        0 <= n < shape.len(),
    ensures
        exact_reach(shape, c, n) == exact_reach(shape.drop_last(), c.drop_last(), n)
            * shape.last(),
    decreases n,
{
    if n > 0 {
        lemma_exact_reach_front(shape, c, n - 1);
        lemma_size_tail(shape, n);
        let front = exact_reach(shape.drop_last(), c.drop_last(), n - 1);
        let d = distance(shape.drop_last(), n - 1);
        let last = shape.last() as int;
        let x = c[n - 1];
        assert(c.drop_last()[n - 1] == x);
        assert(distance(shape, n - 1) == d * last);
        assert(front * last + x * (d * last) == (front + x * d) * last) by (nonlinear_arith);
    }
}

proof fn lemma_exact_reach(shape: Seq<usize>, c: Seq<int>)
    requires
        c.len() == shape.len(),
    ensures
        exact_reach(shape, c, shape.len() as int) == flat(shape, c),
    decreases shape.len(),
{
    if shape.len() > 0 {
        let n = shape.len() as int;
        lemma_exact_reach(shape.drop_last(), c.drop_last());
        lemma_exact_reach_front(shape, c, n - 1);
        assert(shape.skip(n) =~= Seq::empty());
        assert(distance(shape, n - 1) == 1);
        assert(c[n - 1] * 1 == c[n - 1]);
    }
}

proof fn lemma_distance_bounded(shape: Seq<usize>, i: int)
    requires
        0 <= i < shape.len(),
        forall|j: int| 0 <= j < shape.len() ==> #[trigger] shape[j] >= 1,
    ensures
        0 <= distance(shape, i) <= size(shape),
{
    crate::tensor::shape::lemma_size_append(shape.take(i + 1), shape.skip(i + 1));
    assert(shape =~= shape.take(i + 1) + shape.skip(i + 1));
    lemma_size_nonnegative(shape.skip(i + 1));
    lemma_size_positive(shape.take(i + 1));
    let (a, b) = (size(shape.take(i + 1)), size(shape.skip(i + 1)));
    assert(b <= a * b) by (nonlinear_arith)
        requires
            a >= 1,
            b >= 0,
    ;
}

proof fn lemma_size_positive(shape: Seq<usize>)
    requires
        forall|j: int| 0 <= j < shape.len() ==> #[trigger] shape[j] >= 1,
    ensures
        size(shape) >= 1,
    decreases shape.len(),
{
    if shape.len() > 0 {
        let front = shape.drop_last();
        assert forall|j: int| 0 <= j < front.len() implies #[trigger] front[j] >= 1 by {
            assert(shape[j] >= 1);
        }
        lemma_size_positive(front);
        assert(shape[shape.len() - 1] >= 1);
        assert(size(front) * shape.last() >= 1) by (nonlinear_arith)
            requires
                size(front) >= 1,
                shape.last() >= 1,
        ;
    }
}

proof fn lemma_dense_reach(shape: Seq<usize>, c: Seq<int>, n: int)
    requires
        in_bounds(shape, c),
        size(shape) <= usize::MAX,
        0 <= n <= shape.len(),
    ensures
        reach(c, dense_strides(shape), n) == exact_reach(shape, c, n),
    decreases n,
{
    if n > 0 {
        lemma_dense_reach(shape, c, n - 1);
        assert forall|j: int| 0 <= j < shape.len() implies #[trigger] shape[j] >= 1 by {
            assert(c[j] < shape[j]);
        }
        lemma_distance_bounded(shape, n - 1);
        assert(dense_strides(shape)[n - 1] == distance(shape, n - 1));
    }
}

/// In a dense tensor, elements stand in row-major order.
pub proof fn lemma_dense_place(t: GpuTensor, c: Seq<int>)
    requires
        t.dense(),
        in_bounds(t.shape@, c),
        size(t.shape@) <= usize::MAX,
    ensures
        t.place(c) == t.offset + flat(t.shape@, c),
{
    lemma_dense_reach(t.shape@, c, t.shape.len() as int);
    lemma_exact_reach(t.shape@, c);
}

/// A compact tensor is well formed.
proof fn lemma_compact_well_formed(t: GpuTensor)
    requires
        t.compact(),
        t.strides.len() == t.shape.len(),
    ensures
        t.well_formed(),
{
    assert forall|c: Seq<int>| in_bounds(t.shape@, c) implies 0 <= #[trigger] t.place(c)
        < t.storage_elements by {
        lemma_dense_place(t, c);
        lemma_flat_bounds(t.shape@, c);
    }
}

// ---------------------------------------------------------------------------
// Making tensors
// ---------------------------------------------------------------------------
pub open spec fn length_text(len: nat, shape: Seq<usize>, expected: nat) -> Seq<char> {
    "tensor data length "@ + decimal(len) + " does not match shape "@ + list_text(shape) + " ("@
        + decimal(expected) + " elements)"@
}

pub open spec fn export_text(len: nat, shape: Seq<usize>, expected: nat) -> Seq<char> {
    "export buffer length "@ + decimal(len) + " does not match tensor shape "@ + list_text(shape)
        + " ("@ + decimal(expected) + " elements)"@
}

fn length_message(before: &str, between: &str, len: usize, shape: &[usize], expected: usize) -> (s:
    String)
    ensures
        s@ == before@ + decimal(len as nat) + between@ + list_text(shape@) + " ("@ + decimal(
            expected as nat,
        ) + " elements)"@,
{
    let mut s = String::from_str(before);
    push_decimal(&mut s, len as u64);
    s.append(between);
    push_list(&mut s, shape);
    s.append(" (");
    push_decimal(&mut s, expected as u64);
    s.append(" elements)");
    s
}

/// What a view has to do before its elements can be read off in row-major order.
#[derive(Debug, Clone, Copy, PartialEq, Eq, Structural)]
pub enum ExportPlan {
    /// The buffer is read from the offset on.
    Read { offset: usize },
    /// The elements are moved to a buffer of their own first.
    MoveFirst,
}

/// A tensor in another shape.
#[derive(Debug)]
pub enum ReshapePlan {
    /// It stands in the same buffer.
    SameBuffer(GpuTensor),
    /// Its elements are moved to a buffer of their own first.
    MoveFirst(GpuTensor),
}

pub open spec fn reshape_text(from: Seq<usize>, to: Seq<usize>) -> Seq<char> {
    "cannot reshape tensor "@ + list_text(from) + " into "@ + list_text(to)
        + ": element count mismatch"@
}

/// Counts the elements of a shape whose number fits; a dimension of zero leaves none.
pub fn count_elements(shape: &[usize]) -> (n: usize)
    requires
        size(shape@) <= usize::MAX,
    ensures
        n == size(shape@),
{
    let mut i: usize = 0;
    while i < shape.len()
        invariant
            i <= shape.len(),
            forall|j: int| 0 <= j < i ==> #[trigger] shape@[j] >= 1,
        decreases shape.len() - i,
    {
        if shape[i] == 0 {
            proof {
                lemma_size_zero(shape@, i as int);
            }
            return 0;
        }
        i += 1;
    }
    proof {
        lemma_size_positive(shape@);
        lemma_fits_positive(shape@);
    }
    plain_num_elements(shape)
}

proof fn lemma_size_zero(shape: Seq<usize>, i: int)
    requires
        0 <= i < shape.len(),
        shape[i] == 0,
    ensures
        size(shape) == 0,
    decreases shape.len(),
{
    let front = size(shape.drop_last());
    if i < shape.len() - 1 {
        lemma_size_zero(shape.drop_last(), i);
    }
    assert(front == 0 || shape.last() == 0 ==> front * shape.last() == 0) by (nonlinear_arith);
}

/// A tensor in a buffer of its own.
pub fn compact_tensor(shape: &[usize]) -> (r: Result<GpuTensor, Error>)
    ensures
        match r {
            Ok(t) => fits(shape@) && t.is_compact_of(shape@) && t.well_formed(),
            Err(e) => !fits(shape@) && e@ == too_large_text(shape@),
        },
{
    let expected: usize = match checked_num_elements(shape) {
        Ok(n) => n,
        Err(e) => {
            return Err(e);
        },
    };
    let t = GpuTensor {
        storage_elements: expected,
        shape: copy_all(shape),
        strides: contiguous_strides(shape),
        offset: 0,
    };
    proof {
        lemma_compact_well_formed(t);
    }
    Ok(t)
}

impl GpuTensor {
    /// The tensor that data of some length is uploaded as.
    pub fn from_owned(data_len: usize, shape: &[usize]) -> (r: Result<GpuTensor, Error>)
        ensures
            match r {
                Ok(t) => fits(shape@) && data_len == size(shape@) && t.is_compact_of(shape@)
                    && t.well_formed(),
                Err(e) => if !fits(shape@) {
                    e@ == too_large_text(shape@)
                } else {
                    data_len != size(shape@) && e@ == length_text(
                        data_len as nat,
                        shape@,
                        size(shape@) as nat,
                    )
                },
            },
    {
        let t = match compact_tensor(shape) {
            Ok(t) => t,
            Err(e) => {
                return Err(e);
            },
        };
        if data_len != t.storage_elements {
            return Err(
                Error::from_text(
                    length_message(
                        "tensor data length ",
                        " does not match shape ",
                        data_len,
                        shape,
                        t.storage_elements,
                    ),
                ),
            );
        }
        Ok(t)
    }

    /// The number of elements.
    pub fn num_elements(&self) -> (n: usize)
        requires
            self.well_formed(),
        ensures
            n == size(self.shape@),
    {
        count_elements(&self.shape)
    }

    /// Whether elements that follow each other stand next to each other.
    pub fn is_dense_contiguous_view(&self) -> (b: bool)
        ensures
            b == self.dense(),
    {
        let strides = contiguous_strides(&self.shape);
        same_sizes(&self.strides, &strides)
    }

    /// Whether the buffer holds the elements in order and nothing else.
    pub fn has_compact_storage(&self) -> (b: bool)
        requires
            self.well_formed(),
        ensures
            b == self.compact(),
    {
        self.offset == 0 && self.is_dense_contiguous_view() && self.storage_elements
            == self.num_elements()
    }

    /// How the elements are read off into a buffer of some length.
    pub fn export(&self, buffer_len: usize) -> (r: Result<ExportPlan, Error>)
        requires
            self.well_formed(),
        ensures
            match r {
                Ok(plan) => buffer_len == size(self.shape@) && plan == if self.dense() {
                    ExportPlan::Read { offset: self.offset }
                } else {
                    ExportPlan::MoveFirst
                },
                Err(e) => buffer_len != size(self.shape@) && e@ == export_text(
                    buffer_len as nat,
                    self.shape@,
                    size(self.shape@) as nat,
                ),
            },
    {
        let expected: usize = self.num_elements();
        if buffer_len != expected {
            return Err(
                Error::from_text(
                    length_message(
                        "export buffer length ",
                        " does not match tensor shape ",
                        buffer_len,
                        &self.shape,
                        expected,
                    ),
                ),
            );
        }
        if self.is_dense_contiguous_view() {
            Ok(ExportPlan::Read { offset: self.offset })
        } else {
            Ok(ExportPlan::MoveFirst)
        }
    }

    /// The tensor in another shape with as many elements.
    pub fn reshape(&self, shape: &[usize]) -> (r: Result<ReshapePlan, Error>)
        requires
            self.well_formed(),
        ensures
            match r {
                Ok(plan) => fits(shape@) && size(shape@) == size(self.shape@) && match plan {
                    ReshapePlan::SameBuffer(t) => self.dense() && t.well_formed() && t.dense()
                        && t.shape@ == shape@ && t.offset == self.offset && t.storage_elements
                        == self.storage_elements,
                    ReshapePlan::MoveFirst(t) => !self.dense() && t.is_compact_of(shape@)
                        && t.well_formed(),
                },
                Err(e) => if !fits(shape@) {
                    e@ == too_large_text(shape@)
                } else {
                    size(shape@) != size(self.shape@) && e@ == reshape_text(self.shape@, shape@)
                },
            },
    {
        let expected: usize = match checked_num_elements(shape) {
            Ok(n) => n,
            Err(e) => {
                return Err(e);
            },
        };
        if expected != self.num_elements() {
            let mut text = String::from_str("cannot reshape tensor ");
            push_list(&mut text, &self.shape);
            text.append(" into ");
            push_list(&mut text, shape);
            text.append(": element count mismatch");
            return Err(Error::from_text(text));
        }
        if self.is_dense_contiguous_view() {
            let t = GpuTensor {
                storage_elements: self.storage_elements,
                shape: copy_all(shape),
                strides: contiguous_strides(shape),
                offset: self.offset,
            };
            proof {
                assert forall|c: Seq<int>| in_bounds(shape@, c) implies 0 <= #[trigger] t.place(c)
                    < t.storage_elements by {
                    lemma_dense_place(t, c);
                    lemma_flat_bounds(shape@, c);
                    let k = flat(shape@, c);
                    law_coords_then_flat(self.shape@, k);
                    let d = coords(self.shape@, k);
                    lemma_dense_place(*self, d);
                    assert(0 <= self.place(d) < self.storage_elements);
                }
            }
            return Ok(ReshapePlan::SameBuffer(t));
        }
        match compact_tensor(shape) {
            Ok(t) => Ok(ReshapePlan::MoveFirst(t)),
            Err(e) => Err(e),
        }
    }
}

// ---------------------------------------------------------------------------
// Views of views
// ---------------------------------------------------------------------------
/// The sum of the first `n` terms.
pub open spec fn total(terms: Seq<int>, n: int) -> int
    decreases n,
{
    if n <= 0 {
        0
    } else {
        total(terms, n - 1) + terms[n - 1]
    }
}

pub open spec fn products(c: Seq<int>, strides: Seq<usize>) -> Seq<int> {
    Seq::new(strides.len(), |i: int| c[i] * strides[i])
}

proof fn lemma_reach_is_total(c: Seq<int>, strides: Seq<usize>, n: int)
    requires
        n <= strides.len(),
    ensures
        reach(c, strides, n) == total(products(c, strides), n),
    decreases n,
{
    if n > 0 {
        lemma_reach_is_total(c, strides, n - 1);
    }
}

proof fn lemma_total_update(terms: Seq<int>, i: int, x: int, n: int)
    requires
        0 <= i < terms.len(),
        n <= terms.len(),
    ensures
        total(terms.update(i, x), n) == total(terms, n) + if i < n {
            x - terms[i]
        } else {
            0
        },
    decreases n,
{
    if n > 0 {
        lemma_total_update(terms, i, x, n - 1);
    }
}

/// Exchanging two axes and exchanging the same two coordinates lead to the same place.
proof fn lemma_reach_swapped(c: Seq<int>, strides: Seq<usize>, a: int, b: int)
    requires
        c.len() == strides.len(),
        0 <= a < c.len(),
        0 <= b < c.len(),
    ensures
        reach(c, swapped(strides, a, b), c.len() as int) == reach(
            swapped(c, a, b),
            strides,
            c.len() as int,
        ),
{
    let n = c.len() as int;
    let p = products(swapped(c, a, b), strides);
    let q = products(c, swapped(strides, a, b));
    lemma_reach_is_total(c, swapped(strides, a, b), n);
    lemma_reach_is_total(swapped(c, a, b), strides, n);
    assert(q =~= p.update(a, p[b]).update(b, p[a]));
    lemma_total_update(p, a, p[b], n);
    lemma_total_update(p.update(a, p[b]), b, p[a], n);
}

/// Moving on along an axis leads as many strides further.
proof fn lemma_reach_moved(c: Seq<int>, strides: Seq<usize>, a: int, by: int)
    requires
        c.len() == strides.len(),
        0 <= a < c.len(),
    ensures
        reach(c.update(a, c[a] + by), strides, c.len() as int) == reach(
            c,
            strides,
            c.len() as int,
        ) + by * strides[a],
{
    let n = c.len() as int;
    let p = products(c, strides);
    let moved = c.update(a, c[a] + by);
    lemma_reach_is_total(c, strides, n);
    lemma_reach_is_total(moved, strides, n);
    assert((c[a] + by) * strides[a] == c[a] * strides[a] + by * strides[a]) by (nonlinear_arith);
    assert(products(moved, strides) =~= p.update(a, p[a] + by * strides[a]));
    lemma_total_update(p, a, p[a] + by * strides[a], n);
}

impl GpuTensor {
    /// The tensor with two axes exchanged, in the same buffer.
    pub fn transpose(&self, dim0: usize, dim1: usize) -> (r: Result<GpuTensor, Error>)
        requires
            self.well_formed(),
        ensures
            match r {
                Ok(t) => {
                    &&& dim0 < self.shape.len() && dim1 < self.shape.len()
                    &&& t.well_formed()
                    &&& t.shape@ == swapped(self.shape@, dim0 as int, dim1 as int)
                    &&& t.storage_elements == self.storage_elements
                    &&& forall|c: Seq<int>|
                        in_bounds(t.shape@, c) ==> #[trigger] t.place(c) == self.place(
                            swapped(c, dim0 as int, dim1 as int),
                        )
                },
                Err(e) => if dim0 >= self.shape.len() {
                    e@ == axis_text("transpose"@, dim0 as int, self.shape.len() as int)
                } else {
                    dim1 >= self.shape.len() && e@ == axis_text(
                        "transpose"@,
                        dim1 as int,
                        self.shape.len() as int,
                    )
                },
            },
    {
        let rank: usize = self.shape.len();
        if let Err(e) = validate_axis(dim0, rank, "transpose") {
            return Err(e);
        }
        if let Err(e) = validate_axis(dim1, rank, "transpose") {
            return Err(e);
        }
        let mut shape: Vec<usize> = copy_all(&self.shape);
        let (first, second): (usize, usize) = (shape[dim0], shape[dim1]);
        shape.set(dim0, second);
        shape.set(dim1, first);
        let mut strides: Vec<usize> = copy_all(&self.strides);
        let (first, second): (usize, usize) = (strides[dim0], strides[dim1]);
        strides.set(dim0, second);
        strides.set(dim1, first);
        let t = GpuTensor {
            storage_elements: self.storage_elements,
            shape,
            strides,
            offset: self.offset,
        };
        proof {
            let (a, b) = (dim0 as int, dim1 as int);
            assert(t.shape@ =~= swapped(self.shape@, a, b));
            assert(t.strides@ =~= swapped(self.strides@, a, b));
            lemma_size_swapped(self.shape@, a, b);
            assert forall|c: Seq<int>| in_bounds(t.shape@, c) implies #[trigger] t.place(c)
                == self.place(swapped(c, a, b)) && in_bounds(self.shape@, swapped(c, a, b)) by {
                lemma_reach_swapped(c, self.strides@, a, b);
                let d = swapped(c, a, b);
                assert forall|i: int| 0 <= i < self.shape.len() implies 0 <= #[trigger] d[i]
                    < self.shape@[i] by {
                    assert(0 <= c[a] < t.shape@[a]);
                    assert(0 <= c[b] < t.shape@[b]);
                    assert(0 <= c[i] < t.shape@[i]);
                }
            }
        }
        Ok(t)
    }

    /// The part of the tensor within a range of an axis, in the same buffer.
    pub fn slice(&self, axis: usize, start: usize, end: usize) -> (r: Result<GpuTensor, Error>)
        requires
            self.well_formed(),
            axis < self.shape.len() && start <= end <= self.shape@[axis as int] ==> self.offset
                + start * self.strides@[axis as int] <= usize::MAX,
        ensures
            match r {
                Ok(t) => {
                    &&& axis < self.shape.len() && start <= end <= self.shape@[axis as int]
                    &&& t.well_formed()
                    &&& t.shape@ == self.shape@.update(axis as int, (end - start) as usize)
                    &&& t.storage_elements == self.storage_elements
                    &&& forall|c: Seq<int>|
                        in_bounds(t.shape@, c) ==> #[trigger] t.place(c) == self.place(
                            c.update(axis as int, c[axis as int] + start),
                        )
                },
                Err(e) => if axis >= self.shape.len() {
                    e@ == axis_text("slice"@, axis as int, self.shape.len() as int)
                } else {
                    !(start <= end <= self.shape@[axis as int]) && e@ == slice_text(
                        axis as nat,
                        start as nat,
                        end as nat,
                        self.shape@,
                    )
                },
            },
    {
        let rank: usize = self.shape.len();
        if let Err(e) = validate_axis(axis, rank, "slice") {
            return Err(e);
        }
        if start > end || end > self.shape[axis] {
            let mut text = String::from_str("slice axis ");
            push_decimal(&mut text, axis as u64);
            text.append(" with range ");
            push_decimal(&mut text, start as u64);
            text.append("..");
            push_decimal(&mut text, end as u64);
            text.append(" is out of bounds for shape ");
            push_list(&mut text, &self.shape);
            return Err(Error::from_text(text));
        }
        proof {
            let s = self.strides@[axis as int];
            assert(start * s >= 0) by (nonlinear_arith);
        }
        let offset: usize = self.offset + start * self.strides[axis];
        let mut shape: Vec<usize> = copy_all(&self.shape);
        shape.set(axis, end - start);
        let t = GpuTensor {
            storage_elements: self.storage_elements,
            shape,
            strides: copy_all(&self.strides),
            offset,
        };
        proof {
            let a = axis as int;
            assert forall|i: int| 0 <= i < self.shape.len() implies #[trigger] t.shape@[i]
                <= self.shape@[i] by {}
            lemma_size_monotone(self.shape@, t.shape@);
            assert forall|c: Seq<int>| in_bounds(t.shape@, c) implies #[trigger] t.place(c)
                == self.place(c.update(a, c[a] + start)) && in_bounds(
                self.shape@,
                c.update(a, c[a] + start),
            ) by {
                lemma_reach_moved(c, self.strides@, a, start as int);
                let d = c.update(a, c[a] + start);
                assert forall|i: int| 0 <= i < self.shape.len() implies 0 <= #[trigger] d[i]
                    < self.shape@[i] by {
                    assert(0 <= c[i] < t.shape@[i]);
                    assert(0 <= c[a] < t.shape@[a]);
                }
            }
        }
        Ok(t)
    }

    /// The elements in row-major order, picked from what the buffer holds.
    pub fn materialize_view_on_cpu<T: Copy>(&self, backing: &Vec<T>) -> (out: Vec<T>)
        requires
            self.well_formed(),
            backing.len() == self.storage_elements,
        ensures
            out.len() == size(self.shape@),
            forall|k: int|
                0 <= k < out.len() ==> #[trigger] out@[k] == backing@[self.place(
                    coords(self.shape@, k),
                )],
    {
        let n: usize = self.num_elements();
        let mut out: Vec<T> = Vec::new();
        let mut k: usize = 0;
        while k < n
            invariant
                k <= n,
                n == size(self.shape@),
                self.well_formed(),
                backing.len() == self.storage_elements,
                out.len() == k,
                forall|j: int|
                    0 <= j < k ==> #[trigger] out@[j] == backing@[self.place(
                        coords(self.shape@, j),
                    )],
            decreases n - k,
        {
            proof {
                law_coords_then_flat(self.shape@, k as int);
                lemma_fits_positive(self.shape@);
            }
            let c = coords_vec(&self.shape, k);
            let at: usize = self.index_of(&c);
            out.push(backing[at]);
            k += 1;
        }
        out
    }

    /// Finds the place in the buffer of an element.
    pub fn index_of(&self, c: &Vec<usize>) -> (at: usize)
        requires
            self.well_formed(),
            in_bounds(self.shape@, ints(c@)),
        ensures
            at == self.place(ints(c@)),
    {
        let ghost all = ints(c@);
        let ghost n = self.shape.len() as int;
        assert(0 <= self.place(all) < self.storage_elements);
        let mut at: usize = self.offset;
        let mut i: usize = 0;
        while i < self.shape.len()
            invariant
                i <= self.shape.len(),
                n == self.shape.len(),
                all == ints(c@),
                c.len() == self.shape.len(),
                self.strides.len() == self.shape.len(),
                in_bounds(self.shape@, all),
                0 <= self.place(all) < self.storage_elements,
                at == self.offset + reach(all, self.strides@, i as int),
            decreases self.shape.len() - i,
        {
            proof {
                lemma_reach_grows(all, self.strides@, i + 1, n);
                assert(all[i as int] == c@[i as int]);
                let (x, s) = (c@[i as int], self.strides@[i as int]);
                assert(x * s >= 0) by (nonlinear_arith);
                lemma_reach_grows(all, self.strides@, 0, i as int);
            }
            at = at + c[i] * self.strides[i];
            i += 1;
        }
        at
    }
}

proof fn lemma_reach_grows(c: Seq<int>, strides: Seq<usize>, n: int, m: int)
    requires
        0 <= n <= m <= strides.len(),
        c.len() == strides.len(),
        forall|i: int| 0 <= i < c.len() ==> 0 <= #[trigger] c[i],
    ensures
        0 <= reach(c, strides, n) <= reach(c, strides, m),
    decreases m,
{
    if n < m {
        lemma_reach_grows(c, strides, n, m - 1);
        let (x, s) = (c[m - 1], strides[m - 1]);
        assert(x * s >= 0) by (nonlinear_arith)
            requires
                x >= 0,
                s >= 0,
        ;
    } else if n > 0 {
        lemma_reach_grows(c, strides, n - 1, m - 1);
        let (x, s) = (c[m - 1], strides[m - 1]);
        assert(x * s >= 0) by (nonlinear_arith)
            requires
                x >= 0,
                s >= 0,
        ;
    }
}

/// A dense tensor in another shape keeps its elements in order: the element at a
/// position of the one stands where the element at the same position of the other does.
pub proof fn law_reshaping_keeps_order(a: GpuTensor, b: GpuTensor, k: int)
    requires
        a.dense() && b.dense(),
        a.offset == b.offset,
        size(a.shape@) == size(b.shape@),
        size(a.shape@) <= usize::MAX,
        0 <= k < size(a.shape@),
    ensures
        a.place(coords(a.shape@, k)) == b.place(coords(b.shape@, k)),
{
    law_coords_then_flat(a.shape@, k);
    law_coords_then_flat(b.shape@, k);
    lemma_dense_place(a, coords(a.shape@, k));
    lemma_dense_place(b, coords(b.shape@, k));
}

/// What is read off a compact tensor is what its buffer holds.
pub proof fn law_compact_tensor_is_its_buffer(t: GpuTensor, k: int)
    requires
        t.compact(),
        0 <= k < size(t.shape@),
    ensures
        t.place(coords(t.shape@, k)) == k,
{
    law_coords_then_flat(t.shape@, k);
    lemma_dense_place(t, coords(t.shape@, k));
}

} // verus!
