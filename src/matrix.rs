//! Owned arrays and the borrowed views the operations work on.
use vstd::prelude::*;
use crate::dim::{DimDyn, MAX_RANK};
use crate::layout::{fits, injective};
use crate::num::Num;
use crate::shape_stride::{
    cal_offset, contiguous, dot, lemma_contiguous_injective, shape_size, size_fits, to_ints,
    valid_index, ShapeStride,
};

verus! {

/// An owned array in canonical row-major layout from the start of its buffer.
pub struct Matrix<T> {
    pub data: Vec<T>,
    pub shape_stride: ShapeStride,
}

/// A read-only view: a layout over a borrowed buffer, based at `offset`.
pub struct MatrixView<'a, T> {
    pub data: &'a Vec<T>,
    pub offset: usize,
    pub shape_stride: ShapeStride,
}

/// A writable view: a layout over an exclusively borrowed buffer, based at
/// `offset`, whose elements occupy distinct positions.
pub struct MatrixViewMut<'a, T> {
    pub data: &'a mut Vec<T>,
    pub offset: usize,
    pub shape_stride: ShapeStride,
}

/// A layout (`shape`, `stride`) based at `offset` is a valid window on a buffer of `len` elements.
pub open spec fn window_ok(shape_stride: ShapeStride, offset: int, len: int) -> bool {
    &&& shape_stride.wf()
    &&& size_fits(shape_stride.shape@)
    &&& fits(shape_stride.shape@, shape_stride.stride@, offset, len)
}

/// A canonical layout is a valid, injective window on a buffer of its size.
pub proof fn lemma_canonical_window(shape_stride: ShapeStride)
    requires
        shape_stride.wf(),
        size_fits(shape_stride.shape@),
        contiguous(shape_stride.shape@, shape_stride.stride@),
    ensures
        window_ok(shape_stride, 0, shape_size(shape_stride.shape@) as int),
        injective(shape_stride.shape@, shape_stride.stride@),
{
    lemma_contiguous_injective(shape_stride.shape@, shape_stride.stride@);
}

impl<T: Num> Matrix<T> {
    pub open spec fn wf(&self) -> bool {
        &&& self.shape_stride.wf()
        &&& size_fits(self.shape_stride.shape@)
        &&& contiguous(self.shape_stride.shape@, self.shape_stride.stride@)
        &&& self.data@.len() == shape_size(self.shape_stride.shape@)
    }

    pub open spec fn shape_spec(&self) -> Seq<usize> {
        self.shape_stride.shape@
    }

    /// The element at index `idx`.
    pub open spec fn at(&self, idx: Seq<int>) -> T {
        self.data@[dot(self.shape_stride.stride@, idx)]
    }

    /// Builds an array of shape `shape` from its elements in row-major order.
    pub fn from_vec(data: Vec<T>, shape: &[usize]) -> (r: Matrix<T>)
        requires
            shape@.len() <= MAX_RANK,
            size_fits(shape@),
            data@.len() == shape_size(shape@),
        ensures
            r.wf(),
            r.shape_spec() == shape@,
            r.data@ == data@,
    {
        let shape = DimDyn::new(shape);
        let shape_stride = ShapeStride::default_stride(shape);
        Matrix { data, shape_stride }
    }

    /// An array of shape `shape` with every element equal to `v`.
    pub fn filled(shape: &[usize], v: T) -> (r: Matrix<T>)
        requires
            shape@.len() <= MAX_RANK,
            size_fits(shape@),
        ensures
            r.wf(),
            r.shape_spec() == shape@,
            forall|p: int| 0 <= p < r.data@.len() ==> #[trigger] r.data@[p] == v,
    {
        let dim = DimDyn::new(shape);
        let n = dim.num_elm();
        let mut data: Vec<T> = Vec::new();
        let mut i: usize = 0;
        while i < n
            invariant
                0 <= i <= n,
                data@.len() == i,
                forall|p: int| 0 <= p < i ==> #[trigger] data@[p] == v,
            decreases n - i,
        {
            data.push(v);
            i += 1;
        }
        let shape_stride = ShapeStride::default_stride(dim);
        Matrix { data, shape_stride }
    }

    /// An array of shape `shape` with every element zero.
    pub fn zeros(shape: &[usize]) -> (r: Matrix<T>)
        requires
            shape@.len() <= MAX_RANK,
            size_fits(shape@),
        ensures
            r.wf(),
            r.shape_spec() == shape@,
            forall|p: int| 0 <= p < r.data@.len() ==> #[trigger] r.data@[p] == T::zero_spec(),
    {
        Matrix::filled(shape, T::zero())
    }

    pub fn shape(&self) -> (r: DimDyn)
        ensures
            r == self.shape_stride.shape,
    {
        self.shape_stride.shape
    }

    /// The elements in buffer (row-major) order.
    pub fn as_slice(&self) -> (r: &[T])
        ensures
            r@ == self.data@,
    {
        self.data.as_slice()
    }

    /// The element at index `idx`.
    pub fn index_item(&self, idx: &[usize]) -> (r: T)
        requires
            self.wf(),
            valid_index(self.shape_spec(), to_ints(idx@)),
        ensures
            r == self.at(to_ints(idx@)),
    {
        proof {
            lemma_contiguous_injective(self.shape_stride.shape@, self.shape_stride.stride@);
        }
        let i = DimDyn::new(idx);
        let p = cal_offset(&self.shape_stride.stride, &i, self.data.len());
        self.data[p]
    }

    /// A read-only view of the whole array.
    pub fn to_view(&self) -> (r: MatrixView<'_, T>)
        requires
            self.wf(),
        ensures
            r.wf(),
            r.data == &self.data,
            r.offset == 0,
            r.shape_stride == self.shape_stride,
    {
        proof {
            lemma_canonical_window(self.shape_stride);
        }
        MatrixView { data: &self.data, offset: 0, shape_stride: self.shape_stride }
    }

    /// A writable view of the whole array.
    pub fn to_view_mut(&mut self) -> (r: MatrixViewMut<'_, T>)
        requires
            old(self).wf(),
        ensures
            r.wf(),
            *r.data == old(self).data,
            r.offset == 0,
            r.shape_stride == old(self).shape_stride,
            final(self).data == *final(r.data),
            final(self).shape_stride == old(self).shape_stride,
    {
        proof {
            lemma_canonical_window(self.shape_stride);
        }
        let shape_stride = self.shape_stride;
        MatrixViewMut { data: &mut self.data, offset: 0, shape_stride }
    }

    /// A read-only view of the layout (`shape`, `stride`) based at `offset`
    /// in this array's buffer; `None` when some element would lie outside it.
    pub fn view_window(&self, offset: usize, shape: &[usize], stride: &[usize]) -> (r: Option<MatrixView<'_, T>>)
        requires
            shape@.len() <= MAX_RANK,
            stride@.len() == shape@.len(),
            size_fits(shape@),
        ensures
            r is Some <==> fits(shape@, stride@, offset as int, self.data@.len() as int),
            r matches Some(v) ==> v.wf() && v.data == &self.data && v.offset == offset
                && v.shape_stride.shape@ == shape@ && v.shape_stride.stride@ == stride@,
    {
        MatrixView::new(&self.data, offset, shape, stride)
    }

    /// A writable view of the layout (`shape`, `stride`) based at `offset` in
    /// this array's buffer; `None` when some element would lie outside it.
    pub fn view_mut_window(&mut self, offset: usize, shape: &[usize], stride: &[usize]) -> (r: Option<
        MatrixViewMut<'_, T>,
    >)
        requires
            shape@.len() <= MAX_RANK,
            stride@.len() == shape@.len(),
            size_fits(shape@),
            injective(shape@, stride@),
        ensures
            r is Some <==> fits(shape@, stride@, offset as int, old(self).data@.len() as int),
            r matches Some(v) ==> v.wf() && *v.data == old(self).data && v.offset == offset
                && v.shape_stride.shape@ == shape@ && v.shape_stride.stride@ == stride@
                && final(self).data == *final(v.data) && final(self).shape_stride == old(self).shape_stride,
            r is None ==> *final(self) == *old(self),
    {
        let ss = ShapeStride::new(DimDyn::new(shape), DimDyn::new(stride));
        if ss.fits_in(offset, self.data.len()) {
            Some(MatrixViewMut { data: &mut self.data, offset, shape_stride: ss })
        } else {
            None
        }
    }
}

impl<'a, T: Num> MatrixView<'a, T> {
    pub open spec fn wf(&self) -> bool {
        window_ok(self.shape_stride, self.offset as int, self.data@.len() as int)
    }

    pub open spec fn shape_spec(&self) -> Seq<usize> {
        self.shape_stride.shape@
    }

    /// The element at index `idx`.
    pub open spec fn at(&self, idx: Seq<int>) -> T {
        self.data@[self.offset + dot(self.shape_stride.stride@, idx)]
    }

    /// The view of the layout (`shape`, `stride`) based at `offset` in
    /// `data`; `None` when some element would lie outside the buffer.
    pub fn new(data: &'a Vec<T>, offset: usize, shape: &[usize], stride: &[usize]) -> (r: Option<MatrixView<'a, T>>)
        requires
            shape@.len() <= MAX_RANK,
            stride@.len() == shape@.len(),
            size_fits(shape@),
        ensures
            r is Some <==> fits(shape@, stride@, offset as int, data@.len() as int),
            r matches Some(v) ==> v.wf() && v.data == data && v.offset == offset
                && v.shape_stride.shape@ == shape@ && v.shape_stride.stride@ == stride@,
    {
        let ss = ShapeStride::new(DimDyn::new(shape), DimDyn::new(stride));
        if ss.fits_in(offset, data.len()) {
            Some(MatrixView { data, offset, shape_stride: ss })
        } else {
            None
        }
    }

    pub fn shape(&self) -> (r: DimDyn)
        ensures
            r == self.shape_stride.shape,
    {
        self.shape_stride.shape
    }

    /// The element at index `idx`.
    pub fn index_item(&self, idx: &[usize]) -> (r: T)
        requires
            self.wf(),
            valid_index(self.shape_spec(), to_ints(idx@)),
        ensures
            r == self.at(to_ints(idx@)),
    {
        let i = DimDyn::new(idx);
        let len = self.data.len();
        assert(0 <= self.offset + dot(self.shape_stride.stride@, to_ints(idx@)) < len);
        let p = cal_offset(&self.shape_stride.stride, &i, len);
        self.data[self.offset + p]
    }
}

impl<'a, T: Num> MatrixViewMut<'a, T> {
    pub open spec fn wf(&self) -> bool {
        &&& window_ok(self.shape_stride, self.offset as int, self.data@.len() as int)
        &&& injective(self.shape_stride.shape@, self.shape_stride.stride@)
    }

    pub open spec fn shape_spec(&self) -> Seq<usize> {
        self.shape_stride.shape@
    }

    pub fn shape(&self) -> (r: DimDyn)
        ensures
            r == self.shape_stride.shape,
    {
        self.shape_stride.shape
    }
}

/// Arrays whose elements are all one.
pub trait Ones: Sized {
    fn ones(shape: &[usize]) -> Self
        requires
            shape@.len() <= MAX_RANK,
            size_fits(shape@),
    ;
}

impl<T: Num> Ones for Matrix<T> {
    fn ones(shape: &[usize]) -> (r: Matrix<T>)
        ensures
            r.wf(),
            r.shape_spec() == shape@,
            forall|p: int| 0 <= p < r.data@.len() ==> #[trigger] r.data@[p] == T::one_spec(),
    {
        Matrix::filled(shape, T::one())
    }
}

} // verus!
