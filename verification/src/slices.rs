//! Copies of parts of slices.
use vstd::prelude::*;

verus! {

/// The elements from `from` up to `to`, copied.
pub fn copy_range<T: Copy>(s: &[T], from: usize, to: usize) -> (v: Vec<T>)
    requires
        from <= to <= s.len(),
    ensures
        v@ == s@.subrange(from as int, to as int),
{
    let mut v: Vec<T> = Vec::new();
    extend_range(&mut v, s, from, to);
    assert(v@ =~= s@.subrange(from as int, to as int));
    v
}

/// Appends the elements from `from` up to `to`.
pub fn extend_range<T: Copy>(out: &mut Vec<T>, s: &[T], from: usize, to: usize)
    requires
        from <= to <= s.len(),
    ensures
        final(out)@ == old(out)@ + s@.subrange(from as int, to as int),
{
    let mut i: usize = from;
    while i < to
        invariant
            from <= i <= to <= s.len(),
            out@ == old(out)@ + s@.subrange(from as int, i as int),
        decreases to - i,
    {
        out.push(s[i]);
        i += 1;
        assert(out@ =~= old(out)@ + s@.subrange(from as int, i as int));
    }
    assert(out@ =~= old(out)@ + s@.subrange(from as int, to as int));
}

/// All elements, copied.
pub fn copy_all<T: Copy>(s: &[T]) -> (v: Vec<T>)
    ensures
        v@ == s@,
{
    let v = copy_range(s, 0, s.len());
    assert(v@ =~= s@);
    v
}

/// Whether two slices of sizes hold the same sizes.
pub fn same_sizes(a: &[usize], b: &[usize]) -> (r: bool)
    ensures
        r == (a@ == b@),
{
    if a.len() != b.len() {
        return false;
    }
    let mut i: usize = 0;
    while i < a.len()
        invariant
            i <= a.len() == b.len(),
            forall|j: int| 0 <= j < i ==> a@[j] == b@[j],
        decreases a.len() - i,
    {
        if a[i] != b[i] {
            return false;
        }
        i += 1;
    }
    assert(a@ =~= b@);
    true
}

/// Inserting an element adds it to the multiset of elements.
pub proof fn lemma_insert_multiset<T>(s: Seq<T>, n: int, x: T)
    requires
        0 <= n <= s.len(),
    ensures
        s.insert(n, x).to_multiset() == s.to_multiset().insert(x),
{
    let more = s.insert(n, x);
    assert(more.remove(n) =~= s);
    vstd::seq_lib::to_multiset_remove(more, n);
    more.to_multiset_ensures();
    assert(more[n] == x);
    assert(more.to_multiset().count(x) > 0);
    assert(more.to_multiset() =~= s.to_multiset().insert(x));
}

} // verus!
