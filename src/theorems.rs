//! Facts about the operations that follow from their contracts.
use vstd::prelude::*;
use crate::elementwise::{combined, with_operand, ElemOp};
use crate::layout::{injective, touches, updated};
use crate::matrix::{Matrix, MatrixView};
use crate::num::Num;
use crate::shape_stride::{dot, includes, suffix, valid_index};

verus! {

/// The buffer a plain index-by-index copy leaves behind: each position of the
/// destination layout holds the source element at the same index, every
/// other position keeps its old value.
pub open spec fn naive_copy<T>(
    old: Seq<T>,
    shape: Seq<usize>,
    to_stride: Seq<usize>,
    to_off: int,
    src: Seq<T>,
    src_stride: Seq<usize>,
    src_off: int,
) -> Seq<T> {
    Seq::new(
        old.len(),
        |p: int|
            if touches(shape, to_stride, to_off, p) {
                let idx = choose|idx: Seq<int>| valid_index(shape, idx) && #[trigger] dot(to_stride, idx) == p - to_off;
                src[src_off + dot(src_stride, idx)]
            } else {
                old[p]
            },
    )
}

/// Whatever the two layouts' strides, the buffer after `copy_from` is
/// exactly the buffer a naive index-by-index copy produces.
pub proof fn copy_matches_naive_copy<T>(
    new: Seq<T>,
    old: Seq<T>,
    shape: Seq<usize>,
    to_stride: Seq<usize>,
    to_off: int,
    src: Seq<T>,
    src_stride: Seq<usize>,
    src_off: int,
)
    requires
        injective(shape, to_stride),
        updated(new, old, shape, to_stride, to_off, |idx: Seq<int>| src[src_off + dot(src_stride, idx)]),
    ensures
        new == naive_copy(old, shape, to_stride, to_off, src, src_stride, src_off),
{
    let r = naive_copy(old, shape, to_stride, to_off, src, src_stride, src_off);
    assert forall|p: int| 0 <= p < new.len() implies new[p] == r[p] by {
        if touches(shape, to_stride, to_off, p) {
            let idx = choose|idx: Seq<int>| valid_index(shape, idx) && #[trigger] dot(to_stride, idx) == p - to_off;
            assert(new[to_off + dot(to_stride, idx)] == src[src_off + dot(src_stride, idx)]);
        }
    }
    assert(new =~= r);
}

/// Adding an includable operand in place to an array keeps the array's
/// shape, layout and size; only element values change, each to its old value
/// plus the operand element at the trailing part of its index.
pub proof fn add_assign_keeps_shape<T: Num>(before: Matrix<T>, after: Matrix<T>, rhs: MatrixView<T>)
    requires
        before.wf(),
        rhs.wf(),
        includes(before.shape_spec(), rhs.shape_spec()),
        after.shape_stride == before.shape_stride,
        updated(
            after.data@,
            before.data@,
            before.shape_stride.shape@,
            before.shape_stride.stride@,
            0,
            with_operand(
                ElemOp::Add,
                before.data@,
                0,
                before.shape_stride.stride@,
                rhs.data@,
                rhs.offset as int,
                rhs.shape_stride.stride@,
                rhs.shape_spec().len(),
            ),
        ),
    ensures
        after.wf(),
        after.shape_spec() == before.shape_spec(),
        forall|idx: Seq<int>|
            valid_index(before.shape_spec(), idx) ==> #[trigger] after.at(idx) == T::plus_spec(
                before.at(idx),
                rhs.at(suffix(idx, rhs.shape_spec().len())),
            ),
{
    assert forall|idx: Seq<int>| valid_index(before.shape_spec(), idx) implies #[trigger] after.at(idx)
        == T::plus_spec(before.at(idx), rhs.at(suffix(idx, rhs.shape_spec().len()))) by {
        assert(after.data@[0 + dot(before.shape_stride.stride@, idx)] == with_operand(
            ElemOp::Add,
            before.data@,
            0,
            before.shape_stride.stride@,
            rhs.data@,
            rhs.offset as int,
            rhs.shape_stride.stride@,
            rhs.shape_spec().len(),
        )(idx));
    }
}

/// Adding a scalar array holding `v` to an array of zeros of any rank gives
/// an array every element of which is `v`.
pub proof fn scalar_broadcast_of_zeros<T: Num>(
    new: Seq<T>,
    old: Seq<T>,
    shape: Seq<usize>,
    stride: Seq<usize>,
    off: int,
    zeros: MatrixView<T>,
    scalar: MatrixView<T>,
    v: T,
)
    requires
        zeros.shape_spec() == shape,
        scalar.shape_spec().len() == 0,
        scalar.at(Seq::empty()) == v,
        forall|idx: Seq<int>| valid_index(shape, idx) ==> #[trigger] zeros.at(idx) == T::zero_spec(),
        updated(
            new,
            old,
            shape,
            stride,
            off,
            combined(
                ElemOp::Add,
                zeros.data@,
                zeros.offset as int,
                zeros.shape_stride.stride@,
                zeros.shape_spec().len(),
                scalar.data@,
                scalar.offset as int,
                scalar.shape_stride.stride@,
                0,
            ),
        ),
    ensures
        forall|idx: Seq<int>| valid_index(shape, idx) ==> new[off + #[trigger] dot(stride, idx)] == v,
{
    T::lemma_identities();
    assert forall|idx: Seq<int>| valid_index(shape, idx) implies new[off + #[trigger] dot(stride, idx)] == v by {
        assert(suffix(idx, shape.len()) =~= idx);
        assert(suffix(idx, 0) =~= Seq::<int>::empty());
        assert(zeros.at(idx) == T::zero_spec());
    }
}

} // verus!
