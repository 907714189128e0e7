//! What an in-place pass over a strided layout does to its buffer, and the
//! facts that let a pass over an array be assembled from passes over its
//! sub-arrays along the leading axis.
use vstd::prelude::*;
use crate::shape_stride::{
    cons, dot, lemma_cons, lemma_trailing_fits, lemma_uncons, size_fits, valid_index,
};

verus! {

/// Buffer position `p` holds an element of the layout (`shape`, `stride`) based at `off`.
pub open spec fn touches(shape: Seq<usize>, stride: Seq<usize>, off: int, p: int) -> bool {
    exists|idx: Seq<int>| valid_index(shape, idx) && #[trigger] dot(stride, idx) == p - off
}

/// No two elements of the layout share a position.
pub open spec fn injective(shape: Seq<usize>, stride: Seq<usize>) -> bool {
    forall|a: Seq<int>, b: Seq<int>|
        valid_index(shape, a) && valid_index(shape, b) && #[trigger] dot(stride, a) == #[trigger] dot(stride, b)
            ==> a == b
}

/// Every element of the layout based at `off` lies in `0 .. len`.
pub open spec fn fits(shape: Seq<usize>, stride: Seq<usize>, off: int, len: int) -> bool {
    forall|idx: Seq<int>| valid_index(shape, idx) ==> 0 <= off + #[trigger] dot(stride, idx) < len
}

/// `new` is `old` with the element at each index `idx` of the layout replaced
/// by `f(idx)`, and every other position left alone.
pub open spec fn updated<T>(
    new: Seq<T>,
    old: Seq<T>,
    shape: Seq<usize>,
    stride: Seq<usize>,
    off: int,
    f: spec_fn(Seq<int>) -> T,
) -> bool {
    &&& new.len() == old.len()
    &&& forall|idx: Seq<int>| valid_index(shape, idx) ==> new[off + #[trigger] dot(stride, idx)] == f(idx)
    &&& forall|p: int| 0 <= p < old.len() && !touches(shape, stride, off, p) ==> #[trigger] new[p] == old[p]
}

/// Index `idx` lies in one of the first `i` slabs along the leading axis.
pub open spec fn in_slabs(idx: Seq<int>, i: int) -> bool {
    idx[0] < i
}

/// The first `i` slabs along the leading axis have been replaced by `f`.
pub open spec fn slabs_done<T>(
    new: Seq<T>,
    old: Seq<T>,
    shape: Seq<usize>,
    stride: Seq<usize>,
    off: int,
    i: int,
    f: spec_fn(Seq<int>) -> T,
) -> bool {
    &&& new.len() == old.len()
    &&& forall|idx: Seq<int>|
        valid_index(shape, idx) && in_slabs(idx, i) ==> new[off + #[trigger] dot(stride, idx)] == f(idx)
    &&& forall|p: int|
        0 <= p < old.len() && (forall|idx: Seq<int>|
            valid_index(shape, idx) && in_slabs(idx, i) ==> off + #[trigger] dot(stride, idx) != p)
            ==> #[trigger] new[p] == old[p]
}

/// Fixing the leading index at `i` gives the layout of the remaining axes
/// based `i * stride[0]` further on.
pub proof fn lemma_slab(shape: Seq<usize>, stride: Seq<usize>, off: int, len: int, i: int)
    requires
        shape.len() >= 1,
        stride.len() == shape.len(),
        0 <= i < shape[0],
    ensures
        forall|rest: Seq<int>|
            #[trigger] dot(stride.drop_first(), rest) + off + stride[0] * i == off + dot(stride, cons(i, rest)),
        forall|rest: Seq<int>|
            #[trigger] valid_index(shape.drop_first(), rest) ==> valid_index(shape, cons(i, rest)),
        fits(shape, stride, off, len) ==> fits(shape.drop_first(), stride.drop_first(), off + stride[0] * i, len),
        injective(shape, stride) ==> injective(shape.drop_first(), stride.drop_first()),
        size_fits(shape) ==> size_fits(shape.drop_first()),
        0 <= stride[0] * i,
{
    assert forall|rest: Seq<int>|
        #[trigger] dot(stride.drop_first(), rest) + off + stride[0] * i == off + dot(stride, cons(i, rest)) by {
        lemma_cons(shape, stride, i, rest);
    }
    assert forall|rest: Seq<int>| #[trigger] valid_index(shape.drop_first(), rest) implies valid_index(
        shape,
        cons(i, rest),
    ) by {
        lemma_cons(shape, stride, i, rest);
    }
    if fits(shape, stride, off, len) {
        assert forall|rest: Seq<int>| valid_index(shape.drop_first(), rest) implies 0 <= off + stride[0] * i
            + #[trigger] dot(stride.drop_first(), rest) < len by {
            lemma_cons(shape, stride, i, rest);
            assert(0 <= off + dot(stride, cons(i, rest)) < len);
        }
    }
    if injective(shape, stride) {
        assert forall|a: Seq<int>, b: Seq<int>|
            valid_index(shape.drop_first(), a) && valid_index(shape.drop_first(), b) && #[trigger] dot(
                stride.drop_first(),
                a,
            ) == #[trigger] dot(stride.drop_first(), b) implies a == b by {
            lemma_cons(shape, stride, i, a);
            lemma_cons(shape, stride, i, b);
            assert(dot(stride, cons(i, a)) == dot(stride, cons(i, b)));
            assert(cons(i, a) == cons(i, b));
            assert(cons(i, a).drop_first() == a);
        }
    }
    if size_fits(shape) {
        lemma_trailing_fits(shape, shape.len() - 1);
        assert(shape.subrange(shape.len() - (shape.len() - 1), shape.len() as int) =~= shape.drop_first());
    }
    assert(0 <= stride[0] * i) by (nonlinear_arith)
        requires
            0 <= i,
            0 <= stride[0],
    ;
}

/// Nothing is done before the first slab.
pub proof fn lemma_slabs_start<T>(
    old: Seq<T>,
    shape: Seq<usize>,
    stride: Seq<usize>,
    off: int,
    f: spec_fn(Seq<int>) -> T,
)
    requires
        shape.len() >= 1,
    ensures
        slabs_done(old, old, shape, stride, off, 0, f),
{
    assert forall|idx: Seq<int>| valid_index(shape, idx) implies !in_slabs(idx, 0) by {
        assert(0 <= idx[0]);
    }
}

/// Slabs not yet visited still hold their old values.
pub proof fn lemma_slab_fresh<T>(
    mid: Seq<T>,
    old: Seq<T>,
    shape: Seq<usize>,
    stride: Seq<usize>,
    off: int,
    len: int,
    i: int,
    f: spec_fn(Seq<int>) -> T,
    rest: Seq<int>,
)
    requires
        shape.len() >= 1,
        stride.len() == shape.len(),
        0 <= i < shape[0],
        old.len() == len,
        fits(shape, stride, off, len),
        injective(shape, stride),
        slabs_done(mid, old, shape, stride, off, i, f),
        valid_index(shape.drop_first(), rest),
    ensures
        mid[off + dot(stride, cons(i, rest))] == old[off + dot(stride, cons(i, rest))],
{
    lemma_cons(shape, stride, i, rest);
    let c = cons(i, rest);
    let p = off + dot(stride, c);
    assert(0 <= p < len);
    assert forall|idx: Seq<int>| valid_index(shape, idx) && in_slabs(idx, i) implies off + #[trigger] dot(
        stride,
        idx,
    ) != p by {
        if off + dot(stride, idx) == p {
            assert(idx == c);
        }
    }
}

/// Replacing slab `i` extends the finished part by one slab.
pub proof fn lemma_slab_step<T>(
    new: Seq<T>,
    mid: Seq<T>,
    old: Seq<T>,
    shape: Seq<usize>,
    stride: Seq<usize>,
    off: int,
    len: int,
    i: int,
    f: spec_fn(Seq<int>) -> T,
    g: spec_fn(Seq<int>) -> T,
)
    requires
        shape.len() >= 1,
        stride.len() == shape.len(),
        0 <= i < shape[0],
        old.len() == len,
        fits(shape, stride, off, len),
        injective(shape, stride),
        slabs_done(mid, old, shape, stride, off, i, f),
        updated(new, mid, shape.drop_first(), stride.drop_first(), off + stride[0] * i, g),
        forall|rest: Seq<int>| valid_index(shape.drop_first(), rest) ==> #[trigger] g(rest) == f(cons(i, rest)),
    ensures
        slabs_done(new, old, shape, stride, off, i + 1, f),
{
    lemma_slab(shape, stride, off, len, i);
    let o2 = off + stride[0] * i;
    assert forall|idx: Seq<int>|
        valid_index(shape, idx) && in_slabs(idx, i + 1) implies new[off + #[trigger] dot(stride, idx)] == f(idx) by {
        lemma_uncons(shape, idx);
        let rest = idx.drop_first();
        lemma_cons(shape, stride, idx[0], rest);
        if idx[0] == i {
            assert(new[o2 + dot(stride.drop_first(), rest)] == g(rest));
        } else {
            let p = off + dot(stride, idx);
            assert(0 <= p < len);
            if touches(shape.drop_first(), stride.drop_first(), o2, p) {
                let r2 = choose|r2: Seq<int>|
                    valid_index(shape.drop_first(), r2) && #[trigger] dot(stride.drop_first(), r2) == p - o2;
                lemma_cons(shape, stride, i, r2);
                assert(dot(stride, cons(i, r2)) == dot(stride, idx));
                assert(cons(i, r2) == idx);
            }
        }
    }
    assert forall|p: int|
        0 <= p < old.len() && (forall|idx: Seq<int>|
            valid_index(shape, idx) && in_slabs(idx, i + 1) ==> off + #[trigger] dot(stride, idx) != p)
        implies #[trigger] new[p] == old[p] by {
        if touches(shape.drop_first(), stride.drop_first(), o2, p) {
            let r2 = choose|r2: Seq<int>|
                valid_index(shape.drop_first(), r2) && #[trigger] dot(stride.drop_first(), r2) == p - o2;
            lemma_cons(shape, stride, i, r2);
            let c = cons(i, r2);
            assert(in_slabs(c, i + 1));
            assert(off + dot(stride, c) != p);
        }
        assert(forall|idx: Seq<int>|
            valid_index(shape, idx) && in_slabs(idx, i) ==> in_slabs(idx, i + 1));
    }
}

/// Once every slab is done, the whole layout is updated.
pub proof fn lemma_slabs_end<T>(
    new: Seq<T>,
    old: Seq<T>,
    shape: Seq<usize>,
    stride: Seq<usize>,
    off: int,
    f: spec_fn(Seq<int>) -> T,
)
    requires
        shape.len() >= 1,
        slabs_done(new, old, shape, stride, off, shape[0] as int, f),
    ensures
        updated(new, old, shape, stride, off, f),
{
    assert forall|idx: Seq<int>| valid_index(shape, idx) implies in_slabs(idx, shape[0] as int) by {
        assert(idx[0] < shape[0]);
    }
    assert forall|p: int| 0 <= p < old.len() && !touches(shape, stride, off, p) implies #[trigger] new[p]
        == old[p] by {
        assert forall|idx: Seq<int>| valid_index(shape, idx) && in_slabs(idx, shape[0] as int) implies off
            + #[trigger] dot(stride, idx) != p by {
            if off + dot(stride, idx) == p {
                assert(touches(shape, stride, off, p));
            }
        }
    }
}

/// Writing one position is an update of a rank-0 layout based there.
pub proof fn lemma_single<T>(new: Seq<T>, old: Seq<T>, p: int, v: T, g: spec_fn(Seq<int>) -> T)
    requires
        0 <= p < old.len(),
        new == old.update(p, v),
        g(Seq::empty()) == v,
    ensures
        updated(new, old, Seq::empty(), Seq::empty(), p, g),
{
    assert forall|idx: Seq<int>| valid_index(Seq::<usize>::empty(), idx) implies new[p + #[trigger] dot(
        Seq::<usize>::empty(),
        idx,
    )] == g(idx) by {
        assert(idx =~= Seq::<int>::empty());
    }
    assert forall|q: int| 0 <= q < old.len() && !touches(Seq::empty(), Seq::empty(), p, q) implies #[trigger] new[q]
        == old[q] by {
        if q == p {
            assert(valid_index(Seq::<usize>::empty(), Seq::<int>::empty()));
            assert(dot(Seq::<usize>::empty(), Seq::<int>::empty()) == q - p);
        }
    }
}

/// An update is determined by its values on the valid indices.
pub proof fn lemma_updated_ext<T>(
    new: Seq<T>,
    old: Seq<T>,
    shape: Seq<usize>,
    stride: Seq<usize>,
    off: int,
    f: spec_fn(Seq<int>) -> T,
    g: spec_fn(Seq<int>) -> T,
)
    requires
        updated(new, old, shape, stride, off, f),
        forall|idx: Seq<int>| valid_index(shape, idx) ==> #[trigger] f(idx) == g(idx),
    ensures
        updated(new, old, shape, stride, off, g),
{
    assert forall|idx: Seq<int>| valid_index(shape, idx) implies new[off + #[trigger] dot(stride, idx)] == g(idx) by {
        assert(f(idx) == g(idx));
    }
}

/// Two passes over the same layout compose into one.
pub proof fn lemma_updated_compose<T>(
    new: Seq<T>,
    mid: Seq<T>,
    old: Seq<T>,
    shape: Seq<usize>,
    stride: Seq<usize>,
    off: int,
    f: spec_fn(Seq<int>) -> T,
    g: spec_fn(Seq<int>) -> T,
    h: spec_fn(Seq<int>) -> T,
)
    requires
        updated(mid, old, shape, stride, off, f),
        updated(new, mid, shape, stride, off, g),
        forall|idx: Seq<int>| valid_index(shape, idx) ==> #[trigger] g(idx) == h(idx),
    ensures
        updated(new, old, shape, stride, off, h),
{
    assert forall|idx: Seq<int>| valid_index(shape, idx) implies new[off + #[trigger] dot(stride, idx)] == h(idx) by {
        assert(g(idx) == h(idx));
    }
}

} // verus!
