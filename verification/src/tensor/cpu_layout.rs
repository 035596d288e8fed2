//! Joining, repeating and looking up parts of dense tensors, and the layout of
//! attention heads.
use vstd::prelude::*;
use vstd::string::*;

use crate::error::Error;
use crate::slices::copy_all;
use crate::tensor::cpu::{is_slice, lemma_by_coords, lemma_same_elements, CpuTensor};
use crate::tensor::shape::{
    axis_text, checked_num_elements, coords, coords_vec, fits, flat, flat_index, in_bounds, ints,
    law_coords_then_flat, law_flat_then_coords, lemma_fits_positive, lemma_flat_bounds,
    lemma_size_three, lemma_size_two, size, too_large_text, validate_axis,
};
use crate::text::{decimal, list_text, push_decimal, push_list, push_signed, signed_decimal};

verus! {

// ---------------------------------------------------------------------------
// Positions in matrices and stacks of matrices
// ---------------------------------------------------------------------------
pub proof fn lemma_flat_two(a: usize, b: usize, i: int, j: int)
    ensures
        flat(seq![a, b], seq![i, j]) == i * b + j,
        in_bounds(seq![a, b], seq![i, j]) <==> 0 <= i < a && 0 <= j < b,
{
    assert(seq![a, b].drop_last() =~= seq![a]);
    assert(seq![i, j].drop_last() =~= seq![i]);
    assert(seq![a].drop_last() =~= Seq::<usize>::empty());
    assert(seq![i].drop_last() =~= Seq::<int>::empty());
    reveal_with_fuel(flat, 3);
    assert(0 * a + i == i);
    if in_bounds(seq![a, b], seq![i, j]) {
        assert(0 <= seq![i, j][0] < seq![a, b][0]);
        assert(0 <= seq![i, j][1] < seq![a, b][1]);
    }
}

pub proof fn lemma_flat_three(a: usize, b: usize, c: usize, i: int, j: int, k: int)
    ensures
        flat(seq![a, b, c], seq![i, j, k]) == (i * b + j) * c + k,
        in_bounds(seq![a, b, c], seq![i, j, k]) <==> 0 <= i < a && 0 <= j < b && 0 <= k < c,
{
    assert(seq![a, b, c].drop_last() =~= seq![a, b]);
    assert(seq![i, j, k].drop_last() =~= seq![i, j]);
    lemma_flat_two(a, b, i, j);
    if in_bounds(seq![a, b, c], seq![i, j, k]) {
        assert(0 <= seq![i, j, k][0] < seq![a, b, c][0]);
        assert(0 <= seq![i, j, k][1] < seq![a, b, c][1]);
        assert(0 <= seq![i, j, k][2] < seq![a, b, c][2]);
    }
}

// ---------------------------------------------------------------------------
// Concatenation
// ---------------------------------------------------------------------------
/// The lengths of the parts along an axis.
pub open spec fn part_dims<T>(parts: Seq<&CpuTensor<T>>, axis: int) -> Seq<int> {
    Seq::new(parts.len(), |p: int| parts[p].shape@[axis] as int)
}

/// Where part `p` begins: the sum of the lengths before it.
pub open spec fn part_offset(dims: Seq<int>, p: int) -> int
    decreases p,
{
    if p <= 0 {
        0
    } else {
        part_offset(dims, p - 1) + dims[p - 1]
    }
}

pub proof fn lemma_offsets_grow(dims: Seq<int>, p: int, q: int)
    requires
        0 <= p <= q <= dims.len(),
        forall|i: int| 0 <= i < dims.len() ==> #[trigger] dims[i] >= 0,
    ensures
        0 <= part_offset(dims, p) <= part_offset(dims, q),
    decreases q,
{
    if q > 0 {
        if p < q {
            lemma_offsets_grow(dims, p, q - 1);
        } else {
            lemma_offsets_grow(dims, p - 1, q - 1);
        }
        assert(dims[q - 1] >= 0);
    }
}

/// `shape` equals `first` on every axis but one.
pub open spec fn same_but(first: Seq<usize>, shape: Seq<usize>, axis: int) -> bool {
    shape.len() == first.len() && forall|d: int|
        0 <= d < first.len() && d != axis ==> #[trigger] shape[d] == first[d]
}

/// What is wrong with the shape of a part.
pub open spec fn part_error(first: Seq<usize>, shape: Seq<usize>, axis: int) -> Option<Seq<char>> {
    if shape.len() != first.len() {
        Some(
            "concat rank mismatch: expected rank "@ + decimal(first.len()) + ", got shape "@
                + list_text(shape),
        )
    } else if !same_but(first, shape, axis) {
        Some(
            "concat shape mismatch on axis "@ + decimal(axis as nat)
                + ": expected non-concat dims "@ + list_text(first) + ", got "@ + list_text(shape),
        )
    } else {
        None
    }
}

/// What is wrong with the first of the leading `n` parts that does not fit.
pub open spec fn parts_error<T>(parts: Seq<&CpuTensor<T>>, axis: int, n: int) -> Option<Seq<char>>
    decreases n,
{
    if n <= 0 {
        None
    } else {
        match parts_error(parts, axis, n - 1) {
            Some(e) => Some(e),
            None => part_error(parts[0].shape@, parts[n - 1].shape@, axis),
        }
    }
}

pub proof fn lemma_parts_error_stays<T>(parts: Seq<&CpuTensor<T>>, axis: int, n: int, m: int)
    requires
        0 <= n <= m,
        parts_error(parts, axis, n) is Some,
    ensures
        parts_error(parts, axis, m) == parts_error(parts, axis, n),
    decreases m - n,
{
    if n < m {
        lemma_parts_error_stays(parts, axis, n, m - 1);
    }
}

pub proof fn lemma_parts_agree<T>(parts: Seq<&CpuTensor<T>>, axis: int, n: int)
    requires
        0 <= n <= parts.len(),
        parts_error(parts, axis, n) is None,
    ensures
        forall|p: int|
            0 <= p < n ==> same_but(parts[0].shape@, (#[trigger] parts[p]).shape@, axis),
    decreases n,
{
    if n > 0 {
        lemma_parts_agree(parts, axis, n - 1);
    }
}

/// The shape of the parts joined along an axis.
pub open spec fn concat_shape<T>(parts: Seq<&CpuTensor<T>>, axis: int) -> Seq<usize> {
    parts[0].shape@.update(
        axis,
        part_offset(part_dims(parts, axis), parts.len() as int) as usize,
    )
}

/// `value` is the element at `c` of the parts joined along an axis: it comes from
/// the part that covers the coordinate.
pub open spec fn is_joined<T>(parts: Seq<&CpuTensor<T>>, axis: int, c: Seq<int>, p: int, value: T) -> bool {
    let dims = part_dims(parts, axis);
    &&& 0 <= p < parts.len()
    &&& part_offset(dims, p) <= c[axis] < part_offset(dims, p + 1)
    &&& value == parts[p].at(c.update(axis, c[axis] - part_offset(dims, p)))
}

/// `value` is the element at `c` of the joined parts.
pub open spec fn joined_value<T>(parts: Seq<&CpuTensor<T>>, axis: int, c: Seq<int>, value: T) -> bool {
    exists|p: int| #[trigger] is_joined(parts, axis, c, p, value)
}

/// `t` is the parts joined along an axis.
pub open spec fn is_concat<T>(parts: Seq<&CpuTensor<T>>, axis: int, t: CpuTensor<T>) -> bool {
    &&& t.well_formed()
    &&& t.shape@ == concat_shape(parts, axis)
    &&& forall|p: int, c: Seq<int>|
        0 <= p < parts.len() && #[trigger] in_bounds(parts[p].shape@, c) ==> t.at(
            c.update(axis, c[axis] + part_offset(part_dims(parts, axis), p)),
        ) == parts[p].at(c)
}

/// Checks the shape of a part.
pub fn part_check(first: &[usize], shape: &[usize], axis: usize) -> (r: Result<(), Error>)
    requires
        axis < first.len(),
    ensures
        match r {
            Ok(_) => part_error(first@, shape@, axis as int) is None,
            Err(e) => part_error(first@, shape@, axis as int) == Some(e@),
        },
{
    if shape.len() != first.len() {
        let mut text = String::from_str("concat rank mismatch: expected rank ");
        push_decimal(&mut text, first.len() as u64);
        text.append(", got shape ");
        push_list(&mut text, shape);
        return Err(Error::from_text(text));
    }
    let mut d: usize = 0;
    while d < first.len()
        invariant
            d <= first.len() == shape.len(),
            axis < first.len(),
            forall|j: int| 0 <= j < d && j != axis ==> #[trigger] shape@[j] == first@[j],
        decreases first.len() - d,
    {
        if d != axis && shape[d] != first[d] {
            let mut text = String::from_str("concat shape mismatch on axis ");
            push_decimal(&mut text, axis as u64);
            text.append(": expected non-concat dims ");
            push_list(&mut text, first);
            text.append(", got ");
            push_list(&mut text, shape);
            return Err(Error::from_text(text));
        }
        d += 1;
    }
    Ok(())
}

impl<T: Copy> CpuTensor<T> {
    /// Joins tensors along an axis. Their other dimensions have to agree.
    pub fn concat(parts: &Vec<&CpuTensor<T>>, axis: usize) -> (r: Result<CpuTensor<T>, Error>)
        requires
            forall|p: int| 0 <= p < parts.len() ==> (#[trigger] parts@[p]).well_formed(),
            parts.len() > 0 && axis < parts@[0].shape.len() && parts_error(
                parts@,
                axis as int,
                parts.len() as int,
            ) is None ==> part_offset(part_dims(parts@, axis as int), parts.len() as int)
                <= usize::MAX,
        ensures
            match r {
                Ok(t) => {
                    &&& parts.len() > 0 && axis < parts@[0].shape.len()
                    &&& parts_error(parts@, axis as int, parts.len() as int) is None
                    &&& fits(t.shape@)
                    &&& is_concat(parts@, axis as int, t)
                },
                Err(e) => if parts.len() == 0 {
                    e@ == "concat requires at least one tensor"@
                } else if axis >= parts@[0].shape.len() {
                    e@ == axis_text("concat"@, axis as int, parts@[0].shape.len() as int)
                } else {
                    match parts_error(parts@, axis as int, parts.len() as int) {
                        Some(text) => e@ == text,
                        None => !fits(concat_shape(parts@, axis as int)) && e@ == too_large_text(
                            concat_shape(parts@, axis as int),
                        ),
                    }
                },
            },
    {
        if parts.len() == 0 {
            return Err(Error::message("concat requires at least one tensor"));
        }
        let first: &CpuTensor<T> = parts[0];
        let rank: usize = first.shape.len();
        if let Err(e) = validate_axis(axis, rank, "concat") {
            return Err(e);
        }
        let ghost a = axis as int;
        let ghost dims = part_dims(parts@, a);
        let mut p: usize = 0;
        while p < parts.len()
            invariant
                p <= parts.len(),
                parts.len() > 0,
                *first == *parts@[0],
                a == axis,
                axis < first.shape.len(),
                parts_error(parts@, a, p as int) is None,
            decreases parts.len() - p,
        {
            let part: &CpuTensor<T> = parts[p];
            if let Err(e) = part_check(&first.shape, &part.shape, axis) {
                proof {
                    lemma_parts_error_stays(parts@, a, p as int + 1, parts.len() as int);
                }
                return Err(e);
            }
            p += 1;
        }
        proof {
            lemma_parts_agree(parts@, a, parts.len() as int);
            assert forall|i: int| 0 <= i < dims.len() implies #[trigger] dims[i] >= 0 by {}
        }
        let mut total: usize = 0;
        let mut p: usize = 0;
        while p < parts.len()
            invariant
                p <= parts.len(),
                a == axis,
                rank == parts@[0].shape.len(),
                axis < rank,
                dims == part_dims(parts@, a),
                forall|i: int| 0 <= i < dims.len() ==> #[trigger] dims[i] >= 0,
                part_offset(dims, parts.len() as int) <= usize::MAX,
                total == part_offset(dims, p as int),
                forall|i: int|
                    0 <= i < parts.len() ==> same_but(
                        parts@[0].shape@,
                        (#[trigger] parts@[i]).shape@,
                        a,
                    ),
            decreases parts.len() - p,
        {
            proof {
                lemma_offsets_grow(dims, p as int + 1, parts.len() as int);
                assert(same_but(parts@[0].shape@, parts@[p as int].shape@, a));
            }
            total = total + parts[p].shape[axis];
            p += 1;
        }
        let mut shape: Vec<usize> = copy_all(&first.shape);
        shape.set(axis, total);
        assert(shape@ =~= concat_shape(parts@, a));
        let n: usize = match checked_num_elements(&shape) {
            Ok(n) => n,
            Err(e) => {
                return Err(e);
            },
        };
        let data = join_parts(parts, axis, &shape, n);
        let t = CpuTensor { data, shape };
        proof {
            assert forall|q: int, c: Seq<int>|
                0 <= q < parts.len() && #[trigger] in_bounds(parts@[q].shape@, c) implies t.at(
                c.update(a, c[a] + part_offset(dims, q)),
            ) == parts@[q].at(c) by {
                lemma_joined_at(parts@, a, t, q, c);
            }
        }
        Ok(t)
    }
}

proof fn lemma_joined_at<T>(
    parts: Seq<&CpuTensor<T>>,
    a: int,
    t: CpuTensor<T>,
    q: int,
    c: Seq<int>,
)
    requires
        0 <= q < parts.len(),
        0 <= a < parts[0].shape@.len(),
        in_bounds(parts[q].shape@, c),
        t.well_formed(),
        t.shape@ == concat_shape(parts, a),
        part_offset(part_dims(parts, a), parts.len() as int) <= usize::MAX,
        forall|i: int|
            0 <= i < parts.len() ==> same_but(parts[0].shape@, (#[trigger] parts[i]).shape@, a),
        forall|k: int|
            0 <= k < t.data.len() ==> joined_value(
                parts,
                a,
                coords(t.shape@, k),
                #[trigger] t.data@[k],
            ),
    ensures
        t.at(c.update(a, c[a] + part_offset(part_dims(parts, a), q))) == parts[q].at(c),
{
    let dims = part_dims(parts, a);
    let off = part_offset(dims, q);
    let d = c.update(a, c[a] + off);
    assert forall|i: int| 0 <= i < dims.len() implies #[trigger] dims[i] >= 0 by {}
    lemma_offsets_grow(dims, 0, q);
    lemma_offsets_grow(dims, q + 1, parts.len() as int);
    assert(same_but(parts[0].shape@, parts[q].shape@, a));
    assert(c[a] < parts[q].shape@[a]);
    assert(dims[q] == parts[q].shape@[a]);
    assert forall|i: int| 0 <= i < t.shape@.len() implies 0 <= #[trigger] d[i] < t.shape@[i] by {
        assert(c[i] < parts[q].shape@[i]);
        if i != a {
            assert(parts[q].shape@[i] == parts[0].shape@[i]);
        }
    }
    assert(in_bounds(t.shape@, d));
    lemma_flat_bounds(t.shape@, d);
    law_flat_then_coords(t.shape@, d);
    let k = flat(t.shape@, d);
    assert(joined_value(parts, a, coords(t.shape@, k), t.data@[k]));
    let p = choose|p: int| #[trigger] is_joined(parts, a, coords(t.shape@, k), p, t.data@[k]);
    assert(is_joined(parts, a, d, p, t.data@[k]));
    if p < q {
        lemma_offsets_grow(dims, p + 1, q);
    } else if q < p {
        lemma_offsets_grow(dims, q + 1, p);
    }
    assert(p == q);
    assert(d.update(a, d[a] - off) =~= c);
}

fn join_parts<T: Copy>(parts: &Vec<&CpuTensor<T>>, axis: usize, shape: &Vec<usize>, n: usize) -> (data:
    Vec<T>)
    requires
        parts.len() > 0,
        axis < parts@[0].shape.len(),
        forall|p: int| 0 <= p < parts.len() ==> (#[trigger] parts@[p]).well_formed(),
        forall|p: int|
            0 <= p < parts.len() ==> same_but(
                parts@[0].shape@,
                (#[trigger] parts@[p]).shape@,
                axis as int,
            ),
        part_offset(part_dims(parts@, axis as int), parts.len() as int) <= usize::MAX,
        shape@ == concat_shape(parts@, axis as int),
        n == size(shape@),
    ensures
        data.len() == n,
        forall|k: int|
            0 <= k < n ==> joined_value(
                parts@,
                axis as int,
                coords(shape@, k),
                #[trigger] data@[k],
            ),
{
    let ghost a = axis as int;
    let ghost dims = part_dims(parts@, a);
    let mut data: Vec<T> = Vec::new();
    let mut k: usize = 0;
    assert forall|i: int| 0 <= i < dims.len() implies #[trigger] dims[i] >= 0 by {}
    while k < n
        invariant
            k <= n,
            parts.len() > 0,
            a == axis,
            dims == part_dims(parts@, a),
            axis < parts@[0].shape.len(),
            forall|i: int| 0 <= i < dims.len() ==> #[trigger] dims[i] >= 0,
            forall|p: int| 0 <= p < parts.len() ==> (#[trigger] parts@[p]).well_formed(),
            forall|p: int|
                0 <= p < parts.len() ==> same_but(
                    parts@[0].shape@,
                    (#[trigger] parts@[p]).shape@,
                    a,
                ),
            part_offset(dims, parts.len() as int) <= usize::MAX,
            shape@ == concat_shape(parts@, a),
            n == size(shape@),
            data.len() == k,
            forall|j: int|
                0 <= j < k ==> joined_value(parts@, a, coords(shape@, j), #[trigger] data@[j]),
        decreases n - k,
    {
        let mut c: Vec<usize> = coords_vec(shape, k);
        let ghost full = ints(c@);
        let mut rest: usize = c[axis];
        let mut p: usize = 0;
        proof {
            lemma_offsets_grow(dims, 0, parts.len() as int);
            assert(full[a] < shape@[a]);
        }
        while rest >= parts[p].shape[axis]
            invariant
                p < parts.len(),
                a == axis,
                dims == part_dims(parts@, a),
                axis < parts@[0].shape.len(),
                forall|i: int| 0 <= i < dims.len() ==> #[trigger] dims[i] >= 0,
                forall|i: int|
                    0 <= i < parts.len() ==> same_but(
                        parts@[0].shape@,
                        (#[trigger] parts@[i]).shape@,
                        a,
                    ),
                full[a] == part_offset(dims, p as int) + rest,
                full[a] < part_offset(dims, parts.len() as int),
            decreases parts.len() - p,
        {
            proof {
                assert(same_but(parts@[0].shape@, parts@[p as int].shape@, a));
                assert(dims[p as int] == parts@[p as int].shape@[a]);
                assert(part_offset(dims, p as int + 1) == part_offset(dims, p as int)
                    + dims[p as int]);
            }
            rest = rest - parts[p].shape[axis];
            p += 1;
        }
        c.set(axis, rest);
        proof {
            assert(same_but(parts@[0].shape@, parts@[p as int].shape@, a));
            assert(dims[p as int] == parts@[p as int].shape@[a]);
            assert(ints(c@) =~= full.update(a, rest as int));
            let s = parts@[p as int].shape@;
            assert forall|i: int| 0 <= i < s.len() implies 0 <= #[trigger] ints(c@)[i] < s[i] by {
                assert(full[i] < shape@[i]);
                if i != a {
                    assert(s[i] == parts@[0].shape@[i]);
                }
            }
            assert(in_bounds(s, ints(c@)));
            lemma_flat_bounds(s, ints(c@));
            assert(parts@[p as int].well_formed());
            lemma_fits_positive(s);
        }
        let source: usize = flat_index(&parts[p].shape, &c);
        let value: T = parts[p].data[source];
        assert(is_joined(parts@, a, coords(shape@, k as int), p as int, value));
        data.push(value);
        k += 1;
    }
    data
}

// ---------------------------------------------------------------------------
// Repetition and lookup
// ---------------------------------------------------------------------------
/// The message on an index outside a table, or nothing.
pub open spec fn index_error(index: int, rows: int) -> Option<Seq<char>> {
    if index < 0 {
        Some("embedding index "@ + signed_decimal(index) + " is negative"@)
    } else if index >= rows {
        Some(
            "embedding index "@ + decimal(index as nat) + " is out of bounds for "@ + decimal(
                rows as nat,
            ) + " rows"@,
        )
    } else {
        None
    }
}

/// What is wrong with the first of the leading `n` indices that is outside the table.
pub open spec fn indices_error(indices: Seq<i32>, rows: int, n: int) -> Option<Seq<char>>
    decreases n,
{
    if n <= 0 {
        None
    } else {
        match indices_error(indices, rows, n - 1) {
            Some(e) => Some(e),
            None => index_error(indices[n - 1] as int, rows),
        }
    }
}

proof fn lemma_indices_error_stays(indices: Seq<i32>, rows: int, n: int, m: int)
    requires
        0 <= n <= m,
        indices_error(indices, rows, n) is Some,
    ensures
        indices_error(indices, rows, m) == indices_error(indices, rows, n),
    decreases m - n,
{
    if n < m {
        lemma_indices_error_stays(indices, rows, n, m - 1);
    }
}

/// Checks that every index names a row of the table.
pub fn check_indices(indices: &[i32], rows: usize) -> (r: Result<(), Error>)
    ensures
        match r {
            Ok(_) => indices_error(indices@, rows as int, indices.len() as int) is None && forall|
                k: int,
            |
                0 <= k < indices.len() ==> 0 <= #[trigger] indices@[k] < rows,
            Err(e) => indices_error(indices@, rows as int, indices.len() as int) == Some(e@),
        },
{
    let mut i: usize = 0;
    while i < indices.len()
        invariant
            i <= indices.len(),
            indices_error(indices@, rows as int, i as int) is None,
            forall|k: int| 0 <= k < i ==> 0 <= #[trigger] indices@[k] < rows,
        decreases indices.len() - i,
    {
        let index: i32 = indices[i];
        if index < 0 || index as i128 >= rows as i128 {
            let mut text = String::from_str("embedding index ");
            push_signed(&mut text, index as i64);
            if index < 0 {
                text.append(" is negative");
            } else {
                text.append(" is out of bounds for ");
                push_decimal(&mut text, rows as u64);
                text.append(" rows");
            }
            proof {
                lemma_indices_error_stays(indices@, rows as int, i as int + 1, indices.len() as int);
            }
            return Err(Error::from_text(text));
        }
        i += 1;
    }
    Ok(())
}

impl<T: Copy> CpuTensor<T> {
    /// The tensor `n` times in a row along an axis.
    pub fn repeat(self, axis: usize, n: usize) -> (r: Result<CpuTensor<T>, Error>)
        requires
            self.well_formed(),
        ensures
            match r {
                Ok(t) => {
                    &&& axis < self.shape.len() && self.shape@[axis as int] * n <= usize::MAX
                    &&& t.well_formed()
                    &&& fits(t.shape@)
                    &&& t.shape@ == self.shape@.update(
                        axis as int,
                        (self.shape@[axis as int] * n) as usize,
                    )
                    &&& forall|c: Seq<int>| #[trigger]
                        in_bounds(t.shape@, c) ==> t.at(c) == self.at(
                            c.update(axis as int, c[axis as int] % self.shape@[axis as int] as int),
                        )
                },
                Err(e) => if axis >= self.shape.len() {
                    e@ == axis_text("repeat"@, axis as int, self.shape.len() as int)
                } else if self.shape@[axis as int] * n > usize::MAX {
                    e@ == "repeat axis size overflow"@
                } else {
                    let out = self.shape@.update(
                        axis as int,
                        (self.shape@[axis as int] * n) as usize,
                    );
                    !fits(out) && e@ == too_large_text(out)
                },
            },
    {
        let rank: usize = self.shape.len();
        if let Err(e) = validate_axis(axis, rank, "repeat") {
            return Err(e);
        }
        let dim: usize = self.shape[axis];
        let length: usize = match dim.checked_mul(n) {
            Some(length) => length,
            None => {
                return Err(Error::message("repeat axis size overflow"));
            },
        };
        let mut shape: Vec<usize> = copy_all(&self.shape);
        shape.set(axis, length);
        let count: usize = match checked_num_elements(&shape) {
            Ok(count) => count,
            Err(e) => {
                return Err(e);
            },
        };
        let ghost a = axis as int;
        let ghost f = |c: Seq<int>| self.at(c.update(a, c[a] % dim as int));
        let mut data: Vec<T> = Vec::new();
        let mut k: usize = 0;
        while k < count
            invariant
                k <= count,
                count == size(shape@),
                self.well_formed(),
                rank == self.shape.len() == shape.len(),
                axis < rank,
                a == axis,
                dim == self.shape@[a],
                length == dim * n,
                shape@ == self.shape@.update(a, length),
                data.len() == k,
                f == (|c: Seq<int>| self.at(c.update(a, c[a] % dim as int))),
                forall|j: int| 0 <= j < k ==> #[trigger] data@[j] == f(coords(shape@, j)),
            decreases count - k,
        {
            let mut c: Vec<usize> = coords_vec(&shape, k);
            let ghost before = ints(c@);
            proof {
                assert(before[a] < shape@[a]);
                assert(dim > 0) by (nonlinear_arith)
                    requires
                        0 < dim as int * n as int,
                        dim >= 0,
                        n >= 0,
                ;
            }
            let x: usize = c[axis];
            c.set(axis, x % dim);
            proof {
                assert(ints(c@) =~= before.update(a, before[a] % dim as int));
                assert forall|i: int| 0 <= i < rank implies 0 <= #[trigger] ints(c@)[i]
                    < self.shape@[i] by {
                    assert(before[i] < shape@[i]);
                }
                lemma_flat_bounds(self.shape@, ints(c@));
                lemma_fits_positive(self.shape@);
            }
            let source: usize = flat_index(&self.shape, &c);
            data.push(self.data[source]);
            k += 1;
        }
        proof {
            lemma_by_coords(data@, shape@, f);
        }
        Ok(CpuTensor { data, shape })
    }

    /// The rows of a table with the given indices.
    pub fn embedding(table: &CpuTensor<T>, indices: &[i32]) -> (r: Result<CpuTensor<T>, Error>)
        requires
            table.well_formed(),
            table.shape.len() == 2 ==> indices.len() * table.shape@[1] <= usize::MAX,
        ensures
            match r {
                Ok(t) => {
                    &&& table.shape.len() == 2
                    &&& indices_error(
                        indices@,
                        table.shape@[0] as int,
                        indices.len() as int,
                    ) is None
                    &&& t.well_formed()
                    &&& t.shape@ == seq![indices@.len() as usize, table.shape@[1]]
                    &&& forall|i: int, j: int|
                        0 <= i < indices.len() && 0 <= j < table.shape@[1] ==> #[trigger] t.at2(i, j)
                            == table.at2(indices@[i] as int, j)
                },
                Err(e) => if table.shape.len() != 2 {
                    e@ == "embedding table must have shape [rows, dim], got "@ + list_text(
                        table.shape@,
                    )
                } else {
                    indices_error(indices@, table.shape@[0] as int, indices.len() as int) == Some(
                        e@,
                    )
                },
            },
    {
        if table.shape.len() != 2 {
            let mut text = String::from_str("embedding table must have shape [rows, dim], got ");
            push_list(&mut text, &table.shape);
            return Err(Error::from_text(text));
        }
        let rows: usize = table.shape[0];
        let dim: usize = table.shape[1];
        if let Err(e) = check_indices(indices, rows) {
            return Err(e);
        }
        let mut data: Vec<T> = Vec::new();
        let mut i: usize = 0;
        proof {
            assert(table.shape@ =~= seq![rows, dim]);
            lemma_size_two(rows, dim);
        }
        while i < indices.len()
            invariant
                i <= indices.len(),
                table.well_formed(),
                table.data.len() == rows * dim,
                table.shape@ == seq![rows, dim],
                indices.len() * dim <= usize::MAX,
                data.len() == i * dim,
                forall|k: int|
                    0 <= k < indices.len() ==> 0 <= #[trigger] indices@[k] < rows,
                forall|k: int, j: int|
                    0 <= k < i && 0 <= j < dim ==> #[trigger] data@[k * dim + j]
                        == table.data@[indices@[k] * dim + j],
            decreases indices.len() - i,
        {
            let row: usize = indices[i] as usize;
            let ghost before = data@;
            assert(row * dim + dim <= rows * dim && 0 <= row * dim) by (nonlinear_arith)
                requires
                    0 <= row,
                    row + 1 <= rows,
                    dim >= 0,
            ;
            assert((i + 1) * dim == i * dim + dim && (i + 1) * dim <= indices.len() * dim)
                by (nonlinear_arith)
                requires
                    i + 1 <= indices.len(),
                    dim >= 0,
            ;
            crate::slices::extend_range(&mut data, &table.data, row * dim, row * dim + dim);
            proof {
                assert forall|k: int, j: int| 0 <= k < i + 1 && 0 <= j < dim implies
                    #[trigger] data@[k * dim + j] == table.data@[indices@[k] * dim + j] by {
                    if k < i {
                        assert(k * dim + j < i * dim) by (nonlinear_arith)
                            requires
                                k + 1 <= i,
                                0 <= j < dim,
                        ;
                        assert(0 <= k * dim) by (nonlinear_arith)
                            requires
                                0 <= k,
                                dim >= 0,
                        ;
                        assert(data@[k * dim + j] == before[k * dim + j]);
                    } else {
                        assert(data@[i * dim + j] == table.data@.subrange(
                            row * dim,
                            row * dim + dim,
                        )[j]);
                    }
                }
            }
            i += 1;
        }
        let mut shape: Vec<usize> = Vec::new();
        shape.push(indices.len());
        shape.push(dim);
        let t = CpuTensor { data, shape };
        proof {
            assert(t.shape@ =~= seq![indices@.len() as usize, dim]);
            lemma_size_two(indices@.len() as usize, dim);
            assert forall|k: int, j: int| 0 <= k < indices.len() && 0 <= j < dim implies
                #[trigger] t.at2(k, j) == table.at2(indices@[k] as int, j) by {
                lemma_flat_two(indices@.len() as usize, dim, k, j);
                lemma_flat_two(rows, dim, indices@[k] as int, j);
                assert(t.data@[k * dim + j] == table.data@[indices@[k] * dim + j]);
            }
        }
        Ok(t)
    }
}

// ---------------------------------------------------------------------------
// Attention heads
// ---------------------------------------------------------------------------
/// What is wrong with the shape of a projection that is to be split into `parts`
/// groups of heads.
pub open spec fn heads_error(
    shape: Seq<usize>,
    parts: int,
    num_heads: int,
    head_dim: int,
    op_name: Seq<char>,
) -> Option<Seq<char>> {
    if shape.len() != 2 {
        Some(op_name + " expects [seq_len, dim], got "@ + list_text(shape))
    } else if num_heads * head_dim > usize::MAX {
        Some("attention projection dimension overflow"@)
    } else if num_heads * head_dim * parts > usize::MAX {
        Some(op_name + " dimension overflow"@)
    } else if shape[1] != num_heads * head_dim * parts {
        Some(
            op_name + " expected last dim "@ + decimal((num_heads * head_dim * parts) as nat)
                + ", got "@ + list_text(shape),
        )
    } else {
        None
    }
}

/// The element of head `h`, token `t` and channel `d` in part `part` of a
/// projection whose rows hold the parts one after the other.
pub open spec fn head_element<T>(
    x: CpuTensor<T>,
    part: int,
    num_heads: int,
    head_dim: int,
    h: int,
    t: int,
    d: int,
) -> T {
    x.at2(t, part * (num_heads * head_dim) + h * head_dim + d)
}

/// `out` holds the heads of a part of `x`, head by head.
pub open spec fn is_head_layout<T>(
    x: CpuTensor<T>,
    out: CpuTensor<T>,
    part: int,
    num_heads: usize,
    head_dim: usize,
) -> bool {
    &&& out.well_formed()
    &&& out.shape@ == seq![num_heads, x.shape@[0], head_dim]
    &&& forall|h: int, t: int, d: int|
        0 <= h < num_heads && 0 <= t < x.shape@[0] && 0 <= d < head_dim ==> #[trigger] out.at3(
            h,
            t,
            d,
        ) == head_element(x, part, num_heads as int, head_dim as int, h, t, d)
}

impl<T: Copy> CpuTensor<T> {
    /// Checks the shape of a projection.
    fn validate_attention_layout_input(
        &self,
        op_name: &str,
        parts: usize,
        num_heads: usize,
        head_dim: usize,
    ) -> (r: Result<(), Error>)
        ensures
            match r {
                Ok(_) => heads_error(
                    self.shape@,
                    parts as int,
                    num_heads as int,
                    head_dim as int,
                    op_name@,
                ) is None,
                Err(e) => heads_error(
                    self.shape@,
                    parts as int,
                    num_heads as int,
                    head_dim as int,
                    op_name@,
                ) == Some(e@),
            },
    {
        if self.shape.len() != 2 {
            let mut text = String::from_str(op_name);
            text.append(" expects [seq_len, dim], got ");
            push_list(&mut text, &self.shape);
            return Err(Error::from_text(text));
        }
        let part_dim: usize = match num_heads.checked_mul(head_dim) {
            Some(part_dim) => part_dim,
            None => {
                return Err(Error::message("attention projection dimension overflow"));
            },
        };
        let expected: usize = match part_dim.checked_mul(parts) {
            Some(expected) => expected,
            None => {
                let mut text = String::from_str(op_name);
                text.append(" dimension overflow");
                return Err(Error::from_text(text));
            },
        };
        if self.shape[1] != expected {
            let mut text = String::from_str(op_name);
            text.append(" expected last dim ");
            push_decimal(&mut text, expected as u64);
            text.append(", got ");
            push_list(&mut text, &self.shape);
            return Err(Error::from_text(text));
        }
        Ok(())
    }

    /// The heads of one part of a projection.
    fn gather_heads(&self, part: usize, parts: usize, num_heads: usize, head_dim: usize) -> (out:
        CpuTensor<T>)
        requires
            self.well_formed(),
            self.shape.len() == 2,
            self.shape@[1] == num_heads * head_dim * parts,
            num_heads * head_dim <= usize::MAX,
            part < parts,
        ensures
            is_head_layout(*self, out, part as int, num_heads, head_dim),
    {
        let seq_len: usize = self.shape[0];
        let full_dim: usize = self.shape[1];
        let part_dim: usize = num_heads * head_dim;
        let mut shape: Vec<usize> = Vec::new();
        shape.push(num_heads);
        shape.push(seq_len);
        shape.push(head_dim);
        proof {
            assert(self.shape@ =~= seq![seq_len, full_dim]);
            assert(shape@ =~= seq![num_heads, seq_len, head_dim]);
            lemma_size_two(seq_len, full_dim);
            lemma_size_three(num_heads, seq_len, head_dim);
            let (n, s, d, q) = (num_heads as int, seq_len as int, head_dim as int, parts as int);
            assert(n * s * d == s * (n * d)) by (nonlinear_arith);
            assert(s * (n * d) <= s * (n * d * q) && 0 <= s * (n * d)) by (nonlinear_arith)
                requires
                    n >= 0,
                    s >= 0,
                    d >= 0,
                    q >= 1,
            ;
        }
        let count: usize = seq_len * part_dim;
        let ghost f = |c: Seq<int>|
            self.data@[c[1] * full_dim + part * part_dim + c[0] * head_dim + c[2]];
        let mut data: Vec<T> = Vec::new();
        let mut k: usize = 0;
        while k < count
            invariant
                k <= count,
                count == size(shape@),
                shape@ == seq![num_heads, seq_len, head_dim],
                self.data.len() == seq_len * full_dim,
                full_dim == num_heads * head_dim * parts,
                part_dim == num_heads * head_dim,
                part < parts,
                data.len() == k,
                f == (|c: Seq<int>|
                    self.data@[c[1] * full_dim + part * part_dim + c[0] * head_dim + c[2]]),
                forall|j: int| 0 <= j < k ==> #[trigger] data@[j] == f(coords(shape@, j)),
            decreases count - k,
        {
            let c: Vec<usize> = coords_vec(&shape, k);
            let h: usize = c[0];
            let t: usize = c[1];
            let d: usize = c[2];
            proof {
                let ghost at = ints(c@);
                assert(at[0] < shape@[0] && at[1] < shape@[1] && at[2] < shape@[2]);
                lemma_head_index(
                    h as int,
                    t as int,
                    d as int,
                    part as int,
                    num_heads as int,
                    seq_len as int,
                    head_dim as int,
                    parts as int,
                );
            }
            let column: usize = part * part_dim + h * head_dim + d;
            data.push(self.data[t * full_dim + column]);
            k += 1;
        }
        let out = CpuTensor { data, shape };
        proof {
            lemma_by_coords(data@, shape@, f);
            assert forall|h: int, t: int, d: int|
                0 <= h < num_heads && 0 <= t < seq_len && 0 <= d < head_dim implies
                #[trigger] out.at3(h, t, d) == head_element(
                *self,
                part as int,
                num_heads as int,
                head_dim as int,
                h,
                t,
                d,
            ) by {
                lemma_flat_three(num_heads, seq_len, head_dim, h, t, d);
                let column = part * (num_heads * head_dim) + h * head_dim + d;
                lemma_flat_two(seq_len, full_dim, t, column);
                assert(in_bounds(shape@, seq![h, t, d]));
            }
        }
        out
    }

    /// The heads of a projection, head by head.
    pub fn layout_for_attention_heads(self, num_heads: usize, head_dim: usize) -> (r: Result<
        CpuTensor<T>,
        Error,
    >)
        requires
            self.well_formed(),
        ensures
            match r {
                Ok(out) => heads_error(
                    self.shape@,
                    1,
                    num_heads as int,
                    head_dim as int,
                    "layout_for_attention_heads"@,
                ) is None && is_head_layout(self, out, 0, num_heads, head_dim),
                Err(e) => heads_error(
                    self.shape@,
                    1,
                    num_heads as int,
                    head_dim as int,
                    "layout_for_attention_heads"@,
                ) == Some(e@),
            },
    {
        if let Err(e) = self.validate_attention_layout_input(
            "layout_for_attention_heads",
            1,
            num_heads,
            head_dim,
        ) {
            return Err(e);
        }
        Ok(self.gather_heads(0, 1, num_heads, head_dim))
    }

    /// The heads of the two halves of a projection.
    pub fn split_last_dim_two_for_attention_heads(self, num_heads: usize, head_dim: usize) -> (r:
        Result<(CpuTensor<T>, CpuTensor<T>), Error>)
        requires
            self.well_formed(),
        ensures
            match r {
                Ok((first, second)) => {
                    &&& heads_error(
                        self.shape@,
                        2,
                        num_heads as int,
                        head_dim as int,
                        "cpu.split_last_dim_two_for_attention_heads"@,
                    ) is None
                    &&& is_head_layout(self, first, 0, num_heads, head_dim)
                    &&& is_head_layout(self, second, 1, num_heads, head_dim)
                },
                Err(e) => heads_error(
                    self.shape@,
                    2,
                    num_heads as int,
                    head_dim as int,
                    "cpu.split_last_dim_two_for_attention_heads"@,
                ) == Some(e@),
            },
    {
        if let Err(e) = self.validate_attention_layout_input(
            "cpu.split_last_dim_two_for_attention_heads",
            2,
            num_heads,
            head_dim,
        ) {
            return Err(e);
        }
        let first = self.gather_heads(0, 2, num_heads, head_dim);
        let second = self.gather_heads(1, 2, num_heads, head_dim);
        Ok((first, second))
    }

    /// The heads of the three thirds of a projection.
    pub fn split_last_dim_three_for_attention_heads(self, num_heads: usize, head_dim: usize) -> (r:
        Result<(CpuTensor<T>, CpuTensor<T>, CpuTensor<T>), Error>)
        requires
            self.well_formed(),
        ensures
            match r {
                Ok((first, second, third)) => {
                    &&& heads_error(
                        self.shape@,
                        3,
                        num_heads as int,
                        head_dim as int,
                        "cpu.split_last_dim_three_for_attention_heads"@,
                    ) is None
                    &&& is_head_layout(self, first, 0, num_heads, head_dim)
                    &&& is_head_layout(self, second, 1, num_heads, head_dim)
                    &&& is_head_layout(self, third, 2, num_heads, head_dim)
                },
                Err(e) => heads_error(
                    self.shape@,
                    3,
                    num_heads as int,
                    head_dim as int,
                    "cpu.split_last_dim_three_for_attention_heads"@,
                ) == Some(e@),
            },
    {
        if let Err(e) = self.validate_attention_layout_input(
            "cpu.split_last_dim_three_for_attention_heads",
            3,
            num_heads,
            head_dim,
        ) {
            return Err(e);
        }
        let first = self.gather_heads(0, 3, num_heads, head_dim);
        let second = self.gather_heads(1, 3, num_heads, head_dim);
        let third = self.gather_heads(2, 3, num_heads, head_dim);
        Ok((first, second, third))
    }

    /// Puts the heads of each token side by side again.
    pub fn merge_attention_heads(self) -> (r: Result<CpuTensor<T>, Error>)
        requires
            self.well_formed(),
        ensures
            match r {
                Ok(out) => {
                    &&& self.shape.len() == 3 && self.shape@[0] * self.shape@[2] <= usize::MAX
                    &&& out.well_formed()
                    &&& out.shape@ == seq![
                        self.shape@[1],
                        (self.shape@[0] * self.shape@[2]) as usize,
                    ]
                    &&& forall|h: int, t: int, d: int|
                        0 <= h < self.shape@[0] && 0 <= t < self.shape@[1] && 0 <= d < self.shape@[2]
                            ==> #[trigger] self.at3(h, t, d) == head_element(
                            out,
                            0,
                            self.shape@[0] as int,
                            self.shape@[2] as int,
                            h,
                            t,
                            d,
                        )
                },
                Err(e) => if self.shape.len() != 3 {
                    e@ == "merge_attention_heads expects [num_heads, seq_len, head_dim], got "@
                        + list_text(self.shape@)
                } else {
                    self.shape@[0] * self.shape@[2] > usize::MAX && e@
                        == "merge_attention_heads dimension overflow"@
                },
            },
    {
        if self.shape.len() != 3 {
            let mut text = String::from_str(
                "merge_attention_heads expects [num_heads, seq_len, head_dim], got ",
            );
            push_list(&mut text, &self.shape);
            return Err(Error::from_text(text));
        }
        let num_heads: usize = self.shape[0];
        let seq_len: usize = self.shape[1];
        let head_dim: usize = self.shape[2];
        let merged: usize = match num_heads.checked_mul(head_dim) {
            Some(merged) => merged,
            None => {
                return Err(Error::message("merge_attention_heads dimension overflow"));
            },
        };
        let mut shape: Vec<usize> = Vec::new();
        shape.push(seq_len);
        shape.push(merged);
        let count: usize = self.data.len();
        proof {
            assert(self.shape@ =~= seq![num_heads, seq_len, head_dim]);
            assert(shape@ =~= seq![seq_len, merged]);
            lemma_size_three(num_heads, seq_len, head_dim);
            lemma_size_two(seq_len, merged);
            let (n, s, d) = (num_heads as int, seq_len as int, head_dim as int);
            assert(n * s * d == s * (n * d)) by (nonlinear_arith);
        }
        let ghost f = |c: Seq<int>|
            self.data@[((c[1] / head_dim as int) * seq_len + c[0]) * head_dim + c[1]
                % head_dim as int];
        let mut data: Vec<T> = Vec::new();
        let mut k: usize = 0;
        while k < count
            invariant
                k <= count,
                count == size(shape@),
                count == self.data.len(),
                count == num_heads * seq_len * head_dim,
                shape@ == seq![seq_len, merged],
                merged == num_heads * head_dim,
                data.len() == k,
                f == (|c: Seq<int>|
                    self.data@[((c[1] / head_dim as int) * seq_len + c[0]) * head_dim + c[1]
                        % head_dim as int]),
                forall|j: int| 0 <= j < k ==> #[trigger] data@[j] == f(coords(shape@, j)),
            decreases count - k,
        {
            let c: Vec<usize> = coords_vec(&shape, k);
            let t: usize = c[0];
            let column: usize = c[1];
            proof {
                let ghost at = ints(c@);
                assert(at[0] < shape@[0] && at[1] < shape@[1]);
                lemma_merge_index(
                    t as int,
                    column as int,
                    num_heads as int,
                    seq_len as int,
                    head_dim as int,
                );
            }
            let h: usize = column / head_dim;
            let d: usize = column % head_dim;
            data.push(self.data[(h * seq_len + t) * head_dim + d]);
            k += 1;
        }
        let out = CpuTensor { data, shape };
        proof {
            lemma_by_coords(data@, shape@, f);
            assert forall|h: int, t: int, d: int|
                0 <= h < num_heads && 0 <= t < seq_len && 0 <= d < head_dim implies
                #[trigger] self.at3(h, t, d) == head_element(
                out,
                0,
                num_heads as int,
                head_dim as int,
                h,
                t,
                d,
            ) by {
                lemma_flat_three(num_heads, seq_len, head_dim, h, t, d);
                let column = 0 * (num_heads * head_dim) + h * head_dim + d;
                assert(column == h * head_dim + d);
                assert(0 <= column < merged) by (nonlinear_arith)
                    requires
                        column == h * head_dim + d,
                        0 <= h,
                        h + 1 <= num_heads,
                        0 <= d < head_dim,
                        merged == num_heads * head_dim,
                ;
                lemma_flat_two(seq_len, merged, t, column);
                vstd::arithmetic::div_mod::lemma_fundamental_div_mod_converse(
                    column,
                    head_dim as int,
                    h,
                    d,
                );
                assert(in_bounds(shape@, seq![t, column]));
                assert(out.data@[flat(shape@, seq![t, column])] == f(seq![t, column]));
            }
        }
        Ok(out)
    }
}

proof fn lemma_head_index(
    h: int,
    t: int,
    d: int,
    part: int,
    num_heads: int,
    seq_len: int,
    head_dim: int,
    parts: int,
)
    requires
        0 <= h < num_heads,
        0 <= t < seq_len,
        0 <= d < head_dim,
        0 <= part < parts,
    ensures
        ({
            let part_dim = num_heads * head_dim;
            let full_dim = num_heads * head_dim * parts;
            let column = part * part_dim + h * head_dim + d;
            &&& 0 <= part * part_dim
            &&& 0 <= h * head_dim
            &&& 0 <= column < full_dim
            &&& 0 <= t * full_dim
            &&& t * full_dim + column < seq_len * full_dim
        }),
{
    let part_dim = num_heads * head_dim;
    let full_dim = num_heads * head_dim * parts;
    assert(0 <= h * head_dim && h * head_dim + d < part_dim) by (nonlinear_arith)
        requires
            0 <= h,
            h + 1 <= num_heads,
            0 <= d < head_dim,
            part_dim == num_heads * head_dim,
    ;
    assert(0 <= part * part_dim && part * part_dim + part_dim <= full_dim) by (nonlinear_arith)
        requires
            0 <= part,
            part + 1 <= parts,
            part_dim > 0,
            full_dim == part_dim * parts,
    ;
    assert(0 <= t * full_dim && t * full_dim + full_dim <= seq_len * full_dim) by (nonlinear_arith)
        requires
            0 <= t,
            t + 1 <= seq_len,
            full_dim >= 0,
    ;
}

proof fn lemma_merge_index(t: int, column: int, num_heads: int, seq_len: int, head_dim: int)
    requires
        0 <= t < seq_len,
        0 <= column < num_heads * head_dim,
        0 <= head_dim,
    ensures
        head_dim > 0,
        ({
            let h = column / head_dim;
            let d = column % head_dim;
            &&& 0 <= h < num_heads
            &&& 0 <= d < head_dim
            &&& 0 <= h * seq_len
            &&& 0 <= (h * seq_len + t) * head_dim
            &&& (h * seq_len + t) * head_dim + d < num_heads * seq_len * head_dim
            &&& h * seq_len + t <= (h * seq_len + t) * head_dim
        }),
{
    assert(head_dim > 0) by (nonlinear_arith)
        requires
            0 <= column < num_heads * head_dim,
            0 <= head_dim,
    ;
    let h = column / head_dim;
    let d = column % head_dim;
    vstd::arithmetic::div_mod::lemma_fundamental_div_mod(column, head_dim);
    assert(0 <= d < head_dim) by (nonlinear_arith)
        requires
            head_dim > 0,
            d == column % head_dim,
    ;
    assert(0 <= h < num_heads) by (nonlinear_arith)
        requires
            column == head_dim * h + d,
            0 <= d < head_dim,
            0 <= column < num_heads * head_dim,
    ;
    let row = h * seq_len + t;
    assert(0 <= h * seq_len && row < num_heads * seq_len) by (nonlinear_arith)
        requires
            0 <= h,
            h + 1 <= num_heads,
            0 <= t < seq_len,
            row == h * seq_len + t,
    ;
    assert(row * head_dim + d < num_heads * seq_len * head_dim && 0 <= row * head_dim && row <= row
        * head_dim) by (nonlinear_arith)
        requires
            0 <= row,
            row + 1 <= num_heads * seq_len,
            0 <= d < head_dim,
    ;
}

/// Laying a projection out by heads and merging the heads again gives back
/// every element at its place.
pub proof fn law_merge_undoes_head_layout<T>(
    x: CpuTensor<T>,
    laid_out: CpuTensor<T>,
    merged: CpuTensor<T>,
    num_heads: usize,
    head_dim: usize,
)
    requires
        x.well_formed(),
        x.shape@.len() == 2,
        x.shape@[1] == num_heads * head_dim,
        is_head_layout(x, laid_out, 0, num_heads, head_dim),
        merged.well_formed(),
        merged.shape@ == seq![x.shape@[0], (num_heads * head_dim) as usize],
        forall|h: int, t: int, d: int|
            0 <= h < num_heads && 0 <= t < x.shape@[0] && 0 <= d < head_dim
                ==> #[trigger] laid_out.at3(h, t, d) == head_element(
                merged,
                0,
                num_heads as int,
                head_dim as int,
                h,
                t,
                d,
            ),
    ensures
        merged.shape@ == x.shape@,
        merged.data@ == x.data@,
{
    let seq_len = x.shape@[0];
    let dim = (num_heads * head_dim) as usize;
    assert(x.shape@ =~= seq![seq_len, dim]);
    lemma_size_two(seq_len, dim);
    assert forall|k: int| 0 <= k < x.data.len() implies merged.data@[k] == x.data@[k] by {
        law_coords_then_flat(x.shape@, k);
        let c = coords(x.shape@, k);
        let t = c[0];
        let column = c[1];
        assert(0 <= c[0] < x.shape@[0] && 0 <= c[1] < x.shape@[1]);
        assert(c =~= seq![t, column]);
        lemma_merge_index(t, column, num_heads as int, seq_len as int, head_dim as int);
        let h = column / head_dim as int;
        let d = column % head_dim as int;
        vstd::arithmetic::div_mod::lemma_fundamental_div_mod(column, head_dim as int);
        assert(h * head_dim == head_dim * h) by (nonlinear_arith);
        assert(0 * (num_heads * head_dim) + h * head_dim + d == column);
        let at = laid_out.at3(h, t, d);
        assert(at == head_element(x, 0, num_heads as int, head_dim as int, h, t, d));
        assert(at == head_element(merged, 0, num_heads as int, head_dim as int, h, t, d));
    }
    assert(merged.data@ =~= x.data@);
}

/// A tensor that is cut in two and joined again is the same tensor.
pub proof fn law_joining_slices_restores<T>(
    x: CpuTensor<T>,
    axis: int,
    cut: int,
    first: CpuTensor<T>,
    second: CpuTensor<T>,
    t: CpuTensor<T>,
)
    requires
        x.well_formed(),
        0 <= axis < x.shape.len(),
        0 <= cut <= x.shape@[axis],
        is_slice(x, axis, 0, cut, first),
        is_slice(x, axis, cut, x.shape@[axis] as int, second),
        is_concat(seq![&first, &second], axis, t),
    ensures
        t.shape@ == x.shape@,
        t.data@ == x.data@,
{
    let parts = seq![&first, &second];
    let dims = part_dims(parts, axis);
    assert(dims[0] == cut && dims[1] == x.shape@[axis] - cut);
    reveal_with_fuel(part_offset, 3);
    assert(part_offset(dims, 0) == 0 && part_offset(dims, 1) == cut);
    assert(part_offset(dims, 2) == x.shape@[axis]);
    assert(t.shape@ =~= x.shape@);
    assert forall|c: Seq<int>| #[trigger] in_bounds(t.shape@, c) implies t.at(c) == x.at(c) by {
        let p = if c[axis] < cut {
            0int
        } else {
            1int
        };
        let d = c.update(axis, c[axis] - part_offset(dims, p));
        assert(c[axis] < t.shape@[axis]);
        assert(in_bounds(parts[p].shape@, d)) by {
            assert forall|i: int| 0 <= i < parts[p].shape.len() implies 0 <= #[trigger] d[i]
                < parts[p].shape@[i] by {
                assert(c[i] < t.shape@[i]);
            }
        }
        assert(d.update(axis, d[axis] + part_offset(dims, p)) =~= c);
        assert(t.at(c) == parts[p].at(d));
    }
    lemma_same_elements(t, x);
}

} // verus!
