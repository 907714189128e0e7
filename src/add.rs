//! Element-wise addition of views, with broadcasting.
use vstd::prelude::*;
use crate::elementwise::{
    assign_matrix_matrix, assign_matrix_scalar, broadcast_pair, combined, matrix_matrix,
    matrix_scalar, with_operand, with_scalar, ElemOp,
};
use crate::layout::updated;
use crate::matrix::{MatrixView, MatrixViewMut};
use crate::num::Num;
use crate::shape_stride::includes;

verus! {

/// `self = lhs + rhs`.
pub trait MatrixAdd<Lhs, Rhs>: Sized {
    spec fn add_requires(&self, lhs: &Lhs, rhs: &Rhs) -> bool;

    fn add(self, lhs: Lhs, rhs: Rhs)
        requires
            self.add_requires(&lhs, &rhs),
    ;
}

/// `self += rhs`.
pub trait MatrixAddAssign<Rhs>: Sized {
    spec fn add_assign_requires(&self, rhs: &Rhs) -> bool;

    fn add_assign(self, rhs: Rhs)
        requires
            self.add_assign_requires(&rhs),
    ;
}

impl<'a, 'b, T: Num> MatrixAdd<MatrixView<'b, T>, T> for MatrixViewMut<'a, T> {
    open spec fn add_requires(&self, lhs: &MatrixView<'b, T>, rhs: &T) -> bool {
        &&& self.wf()
        &&& lhs.wf()
        &&& self.shape_spec() == lhs.shape_spec()
    }

    /// Every element becomes the element of `lhs` at the same index plus `rhs`.
    fn add(self, lhs: MatrixView<'b, T>, rhs: T)
        ensures
            updated(
                final(self.data)@,
                old(self.data)@,
                self.shape_stride.shape@,
                self.shape_stride.stride@,
                self.offset as int,
                |idx: Seq<int>| T::plus_spec(lhs.at(idx), rhs),
            ),
    {
        let s = self;
        matrix_scalar(ElemOp::Add, s.data, s.offset, &s.shape_stride, lhs.data, lhs.offset, &lhs.shape_stride, rhs);
    }
}

impl<'a, 'b, 'c, T: Num> MatrixAdd<MatrixView<'b, T>, MatrixView<'c, T>> for MatrixViewMut<'a, T> {
    open spec fn add_requires(&self, lhs: &MatrixView<'b, T>, rhs: &MatrixView<'c, T>) -> bool {
        &&& self.wf()
        &&& lhs.wf()
        &&& rhs.wf()
        &&& broadcast_pair(self.shape_spec(), lhs.shape_spec(), rhs.shape_spec())
    }

    /// Every element becomes the sum of the elements of `lhs` and `rhs` at the
    /// trailing parts of its index (the whole index for the operand of higher rank).
    fn add(self, lhs: MatrixView<'b, T>, rhs: MatrixView<'c, T>)
        ensures
            updated(
                final(self.data)@,
                old(self.data)@,
                self.shape_stride.shape@,
                self.shape_stride.stride@,
                self.offset as int,
                combined(
                    ElemOp::Add,
                    lhs.data@,
                    lhs.offset as int,
                    lhs.shape_stride.stride@,
                    lhs.shape_spec().len(),
                    rhs.data@,
                    rhs.offset as int,
                    rhs.shape_stride.stride@,
                    rhs.shape_spec().len(),
                ),
            ),
    {
        let s = self;
        matrix_matrix(
            ElemOp::Add,
            s.data,
            s.offset,
            &s.shape_stride,
            lhs.data,
            lhs.offset,
            &lhs.shape_stride,
            rhs.data,
            rhs.offset,
            &rhs.shape_stride,
        );
    }
}

impl<'a, T: Num> MatrixAddAssign<T> for MatrixViewMut<'a, T> {
    open spec fn add_assign_requires(&self, rhs: &T) -> bool {
        self.wf()
    }

    /// Adds `rhs` to every element.
    fn add_assign(self, rhs: T)
        ensures
            updated(
                final(self.data)@,
                old(self.data)@,
                self.shape_stride.shape@,
                self.shape_stride.stride@,
                self.offset as int,
                with_scalar(ElemOp::Add, old(self.data)@, self.offset as int, self.shape_stride.stride@, rhs),
            ),
    {
        let s = self;
        assign_matrix_scalar(ElemOp::Add, s.data, s.offset, &s.shape_stride, rhs);
    }
}

impl<'a, 'b, T: Num> MatrixAddAssign<MatrixView<'b, T>> for MatrixViewMut<'a, T> {
    open spec fn add_assign_requires(&self, rhs: &MatrixView<'b, T>) -> bool {
        &&& self.wf()
        &&& rhs.wf()
        &&& includes(self.shape_spec(), rhs.shape_spec())
    }

    /// Adds to every element the element of `rhs` at the trailing part of its
    /// index; the shape is unchanged.
    fn add_assign(self, rhs: MatrixView<'b, T>)
        ensures
            updated(
                final(self.data)@,
                old(self.data)@,
                self.shape_stride.shape@,
                self.shape_stride.stride@,
                self.offset as int,
                with_operand(
                    ElemOp::Add,
                    old(self.data)@,
                    self.offset as int,
                    self.shape_stride.stride@,
                    rhs.data@,
                    rhs.offset as int,
                    rhs.shape_stride.stride@,
                    rhs.shape_spec().len(),
                ),
            ),
    {
        let s = self;
        assign_matrix_matrix(ElemOp::Add, s.data, s.offset, &s.shape_stride, rhs.data, rhs.offset, &rhs.shape_stride);
    }
}

} // verus!
