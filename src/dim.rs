//! The dimension vector: up to four extents (or strides) with a live length.
use vstd::prelude::*;
use crate::shape_stride::{includes, shape_size, size_fits, lemma_canonical_step};

verus! {

/// The largest rank an array can have.
pub const MAX_RANK: usize = 4;

/// A fixed-capacity vector of at most four `usize` values. Only the first
/// `len` entries are live; the others are ignored.
#[derive(Clone, Copy, Debug)]
pub struct DimDyn {
    pub dim: [usize; 4],
    pub len: usize,
}

impl View for DimDyn {
    type V = Seq<usize>;

    open spec fn view(&self) -> Seq<usize> {
        self.dim@.subrange(0, self.len as int)
    }
}

impl DimDyn {
    /// Well formed: the live length does not exceed the capacity.
    pub open spec fn wf(&self) -> bool {
        self.len <= MAX_RANK
    }

    /// The empty (rank 0) dimension vector.
    pub fn empty() -> (r: DimDyn)
        ensures
            r.wf(),
            r.len == 0,
            r@ == Seq::<usize>::empty(),
    {
        DimDyn { dim: [0, 0, 0, 0], len: 0 }
    }

    /// Builds a dimension vector from at most four values.
    pub fn new(dim: &[usize]) -> (r: DimDyn)
        requires
            dim@.len() <= MAX_RANK,
        ensures
            r.wf(),
            r@ == dim@,
    {
        let mut dim_dyn = DimDyn::empty();
        let mut i: usize = 0;
        while i < dim.len()
            invariant
                i <= dim@.len() <= MAX_RANK,
                dim_dyn.wf(),
                dim_dyn.len == i,
                dim_dyn@ == dim@.subrange(0, i as int),
            decreases dim@.len() - i,
        {
            dim_dyn.push_dim(dim[i]);
            i += 1;
        }
        assert(dim_dyn@ =~= dim@);
        dim_dyn
    }

    /// The whole backing array, live entries first.
    pub fn dim(&self) -> (r: [usize; 4])
        ensures
            r == self.dim,
    {
        self.dim
    }

    /// True when the rank is zero.
    pub fn is_empty(&self) -> (r: bool)
        ensures
            r == (self.len == 0),
    {
        self.len == 0
    }

    /// Sets the live length; entries that become live keep their stored value.
    pub fn set_len(&mut self, len: usize)
        requires
            len <= MAX_RANK,
        ensures
            final(self).wf(),
            final(self).len == len,
            final(self).dim == old(self).dim,
    {
        self.len = len;
    }

    /// The live length.
    pub fn get_len(&self) -> (r: usize)
        ensures
            r == self.len,
    {
        self.len
    }

    /// The live length (the rank, when the vector holds a shape).
    pub fn len(&self) -> (r: usize)
        requires
            self.wf(),
        ensures
            r == self@.len(),
    {
        self.len
    }

    pub(crate) fn inc_len(&mut self)
        requires
            old(self).len < MAX_RANK,
        ensures
            final(self).len == old(self).len + 1,
            final(self).dim == old(self).dim,
    {
        self.len += 1;
    }

    /// Appends one value.
    pub(crate) fn push_dim(&mut self, d: usize)
        requires
            old(self).wf(),
            old(self).len < MAX_RANK,
        ensures
            final(self).wf(),
            final(self).len == old(self).len + 1,
            final(self)@ == old(self)@.push(d),
    {
        let l = self.len;
        self.dim[l] = d;
        self.inc_len();
        assert(self@ =~= old(self)@.push(d));
    }

    /// The value at `index`; an index at or beyond the live length is a
    /// caller error.
    pub fn index(&self, index: usize) -> (r: usize)
        requires
            self.wf(),
            index < self@.len(),
        ensures
            r == self@[index as int],
    {
        self.dim[index]
    }

    /// Replaces the value at `index`.
    pub fn set(&mut self, index: usize, value: usize)
        requires
            old(self).wf(),
            index < old(self)@.len(),
        ensures
            final(self).wf(),
            final(self)@ == old(self)@.update(index as int, value),
    {
        self.dim[index] = value;
        assert(self@ =~= old(self)@.update(index as int, value));
    }

    /// The live values as a vector.
    pub fn slice(&self) -> (r: Vec<usize>)
        requires
            self.wf(),
        ensures
            r@ == self@,
    {
        let mut v: Vec<usize> = Vec::new();
        let mut i: usize = 0;
        while i < self.len
            invariant
                self.wf(),
                i <= self.len,
                v@ == self@.subrange(0, i as int),
            decreases self.len - i,
        {
            v.push(self.dim[i]);
            i += 1;
        }
        assert(v@ =~= self@);
        v
    }

    /// Structural equality of the live parts: vectors of different rank are
    /// never equal.
    pub fn same(&self, o: &DimDyn) -> (r: bool)
        requires
            self.wf(),
            o.wf(),
        ensures
            r == (self@ == o@),
    {
        if self.len != o.len {
            assert(self@.len() != o@.len());
            return false;
        }
        let mut i: usize = 0;
        while i < self.len
            invariant
                self.wf(),
                o.wf(),
                self.len == o.len,
                i <= self.len,
                forall|j: int| 0 <= j < i ==> self@[j] == o@[j],
            decreases self.len - i,
        {
            if self.dim[i] != o.dim[i] {
                assert(self@[i as int] != o@[i as int]);
                return false;
            }
            i += 1;
        }
        assert(self@ =~= o@);
        true
    }

    /// The live values from `from` up to (not including) `to`.
    pub fn sub(&self, from: usize, to: usize) -> (r: DimDyn)
        requires
            self.wf(),
            from <= to <= self@.len(),
        ensures
            r.wf(),
            r@ == self@.subrange(from as int, to as int),
    {
        let mut r = DimDyn::empty();
        let mut i: usize = from;
        while i < to
            invariant
                self.wf(),
                from <= i <= to <= self@.len(),
                r.wf(),
                r.len == i - from,
                r@ == self@.subrange(from as int, i as int),
            decreases to - i,
        {
            r.push_dim(self.dim[i]);
            assert(self@.subrange(from as int, i + 1) =~= self@.subrange(from as int, i as int).push(
                self@[i as int],
            ));
            i += 1;
        }
        r
    }

    /// The number of elements of an array of this shape: the product of the
    /// extents, 1 for rank 0.
    pub fn num_elm(&self) -> (r: usize)
        requires
            self.wf(),
            size_fits(self@),
        ensures
            r == shape_size(self@),
    {
        let n = self.len;
        let mut acc: usize = 1;
        let mut i: usize = n;
        assert(self@.subrange(n as int, n as int).len() == 0);
        while i > 0
            invariant
                self.wf(),
                size_fits(self@),
                n == self@.len(),
                0 <= i <= n,
                acc == shape_size(self@.subrange(i as int, n as int)),
            decreases i,
        {
            let ghost t = self@.subrange(i - 1, n as int);
            assert(t.drop_first() =~= self@.subrange(i as int, n as int));
            proof {
                if i >= 2 {
                    lemma_canonical_step(self@, i - 2);
                    assert(self@.subrange(i - 2 + 1, n as int) =~= t);
                    assert(crate::shape_stride::canonical_stride(self@, i - 2) <= usize::MAX);
                } else {
                    assert(t =~= self@);
                }
            }
            assert(shape_size(t) == self@[i - 1] as nat * acc);
            acc = self.dim[i - 1] * acc;
            i -= 1;
        }
        assert(self@.subrange(0, n as int) =~= self@);
        acc
    }

    /// True when `other` has at most this rank and its extents equal the
    /// trailing extents of this shape.
    pub fn is_include(&self, other: &DimDyn) -> (r: bool)
        requires
            self.wf(),
            other.wf(),
        ensures
            r == includes(self@, other@),
    {
        if other.len > self.len {
            return false;
        }
        let d = self.len - other.len;
        let t = self.sub(d, self.len);
        t.same(other)
    }
}

} // verus!
