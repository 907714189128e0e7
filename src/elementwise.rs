//! The broadcast engine shared by element-wise addition and multiplication:
//! a destination layout is combined in place with a scalar or with an operand
//! whose shape matches the destination's trailing axes.
use vstd::prelude::*;
use crate::layout::{
    injective, lemma_single, lemma_slab, lemma_slab_fresh, lemma_slab_step, lemma_slabs_end,
    lemma_slabs_start, lemma_updated_ext, slabs_done, updated,
};
use crate::matrix::window_ok;
use crate::copy_from::copy;
use crate::layout::lemma_updated_compose;
use crate::num::Num;
use crate::shape_stride::{
    cons, dot, includes, lemma_dot_bounds, lemma_flat_bound, lemma_trailing_fits,
    lemma_unflatten, shape_size, suffix, valid_index, ShapeStride,
};
use crate::blas::{grid_pos, on_grid, vector_ok, Blas, Cpu};
use crate::copy_from::{block_linear, lemma_block_linear};
use crate::shape_stride::{canonical_stride, contiguous, flat, lemma_contiguous_dot};

verus! {

/// The scalar kernel of an element-wise operation.
#[derive(Clone, Copy, Debug, PartialEq, Eq, Structural)]
pub enum ElemOp {
    Add,
    Mul,
}

pub open spec fn apply<T: Num>(op: ElemOp, a: T, b: T) -> T {
    match op {
        ElemOp::Add => T::plus_spec(a, b),
        ElemOp::Mul => T::times_spec(a, b),
    }
}

pub fn apply_exec<T: Num>(op: ElemOp, a: T, b: T) -> (r: T)
    ensures
        r == apply(op, a, b),
{
    match op {
        ElemOp::Add => a.plus(b),
        ElemOp::Mul => a.times(b),
    }
}

/// Each element combined with the scalar `s`.
pub open spec fn with_scalar<T: Num>(op: ElemOp, old: Seq<T>, off: int, stride: Seq<usize>, s: T) -> spec_fn(
    Seq<int>,
) -> T {
    |idx: Seq<int>| apply(op, old[off + dot(stride, idx)], s)
}

/// Each element combined with the operand element at the trailing part of
/// its index.
pub open spec fn with_operand<T: Num>(
    op: ElemOp,
    old: Seq<T>,
    off: int,
    stride: Seq<usize>,
    src: Seq<T>,
    src_off: int,
    src_stride: Seq<usize>,
    src_rank: nat,
) -> spec_fn(Seq<int>) -> T {
    |idx: Seq<int>| apply(op, old[off + dot(stride, idx)], src[src_off + dot(src_stride, suffix(idx, src_rank))])
}

/// In-place element-wise operation between two rank-1 layouts of equal
/// extent, each walked with its own stride.
fn assign_1d_1d_cpu<T: Num>(
    op: ElemOp,
    to: &mut Vec<T>,
    to_off: usize,
    to_ss: &ShapeStride,
    src: &Vec<T>,
    src_off: usize,
    src_ss: &ShapeStride,
)
    requires
        window_ok(*to_ss, to_off as int, old(to)@.len() as int),
        injective(to_ss.shape@, to_ss.stride@),
        window_ok(*src_ss, src_off as int, src@.len() as int),
        to_ss.shape@.len() == 1,
        src_ss.shape@ == to_ss.shape@,
    ensures
        updated(
            final(to)@,
            old(to)@,
            to_ss.shape@,
            to_ss.stride@,
            to_off as int,
            with_operand(op, old(to)@, to_off as int, to_ss.stride@, src@, src_off as int, src_ss.stride@, 1),
        ),
{
    let n = to_ss.shape.index(0);
    let t = to_ss.stride.index(0);
    let u = src_ss.stride.index(0);
    let ghost sh = to_ss.shape@;
    let ghost f = with_operand(op, old(to)@, to_off as int, to_ss.stride@, src@, src_off as int, src_ss.stride@, 1);
    proof {
        lemma_slabs_start(old(to)@, sh, to_ss.stride@, to_off as int, f);
    }
    let to_len = to.len();
    let src_len = src.len();
    let mut i: usize = 0;
    while i < n
        invariant
            window_ok(*to_ss, to_off as int, old(to)@.len() as int),
            injective(to_ss.shape@, to_ss.stride@),
            window_ok(*src_ss, src_off as int, src@.len() as int),
            sh == to_ss.shape@,
            sh.len() == 1,
            src_ss.shape@ == sh,
            n == sh[0],
            t == to_ss.stride@[0],
            u == src_ss.stride@[0],
            to_len == old(to)@.len(),
            src_len == src@.len(),
            0 <= i <= n,
            f == with_operand(op, old(to)@, to_off as int, to_ss.stride@, src@, src_off as int, src_ss.stride@, 1),
            slabs_done(to@, old(to)@, sh, to_ss.stride@, to_off as int, i as int, f),
        decreases n - i,
    {
        let ghost e = Seq::<int>::empty();
        proof {
            lemma_slab(sh, to_ss.stride@, to_off as int, old(to)@.len() as int, i as int);
            lemma_slab(sh, src_ss.stride@, src_off as int, src@.len() as int, i as int);
            assert(valid_index(sh.drop_first(), e));
            assert(dot(to_ss.stride@.drop_first(), e) == 0);
            assert(dot(src_ss.stride@.drop_first(), e) == 0);
            assert(valid_index(sh, cons(i as int, e)));
            assert(suffix(cons(i as int, e), 1) == cons(i as int, e));
        }
        let p = to_off + t * i;
        let q = src_off + u * i;
        proof {
            lemma_slab_fresh(to@, old(to)@, sh, to_ss.stride@, to_off as int, old(to)@.len() as int, i as int, f, e);
        }
        let ghost mid = to@;
        let v = apply_exec(op, to[p], src[q]);
        to.set(p, v);
        proof {
            let g = |rest: Seq<int>| v;
            lemma_single(to@, mid, p as int, v, g);
            assert(sh.drop_first() =~= Seq::<usize>::empty());
            assert(to_ss.stride@.drop_first() =~= Seq::<usize>::empty());
            assert forall|rest: Seq<int>| valid_index(sh.drop_first(), rest) implies #[trigger] g(rest) == f(
                cons(i as int, rest),
            ) by {
                assert(rest =~= e);
            }
            lemma_slab_step(to@, mid, old(to)@, sh, to_ss.stride@, to_off as int, old(to)@.len() as int, i as int, f, g);
        }
        i += 1;
    }
    proof {
        lemma_slabs_end(to@, old(to)@, sh, to_ss.stride@, to_off as int, f);
    }
}

/// One BLAS `scal` of `n` elements scales a linear block.
proof fn lemma_block_scal<T: Num>(
    new: Seq<T>,
    old: Seq<T>,
    shape: Seq<usize>,
    stride: Seq<usize>,
    off: int,
    inc: int,
    s: T,
)
    requires
        block_linear(shape, stride, inc),
        new.len() == old.len(),
        forall|j: int|
            0 <= j < shape_size(shape) ==> new[#[trigger] grid_pos(off, inc, j)] == T::times_spec(
                s,
                old[grid_pos(off, inc, j)],
            ),
        forall|p: int|
            0 <= p < old.len() && !on_grid(p, off, inc, shape_size(shape) as int) ==> #[trigger] new[p]
                == old[p],
    ensures
        updated(new, old, shape, stride, off, with_scalar(ElemOp::Mul, old, off, stride, s)),
{
    T::lemma_commutative();
    assert forall|idx: Seq<int>| valid_index(shape, idx) implies new[off + #[trigger] dot(stride, idx)]
        == with_scalar(ElemOp::Mul, old, off, stride, s)(idx) by {
        lemma_flat_bound(shape, idx);
        let j = flat(shape, idx);
        assert(new[grid_pos(off, inc, j)] == T::times_spec(s, old[grid_pos(off, inc, j)]));
        assert(dot(stride, idx) == j * inc) by (nonlinear_arith)
            requires
                dot(stride, idx) == inc * j,
        ;
    }
    assert forall|p: int| 0 <= p < old.len() && !crate::layout::touches(shape, stride, off, p) implies #[trigger] new[p]
        == old[p] by {
        if on_grid(p, off, inc, shape_size(shape) as int) {
            let j = choose|j: int| 0 <= j < shape_size(shape) && p == #[trigger] grid_pos(off, inc, j);
            let idx = lemma_unflatten(shape, j);
            assert(dot(stride, idx) == inc * j);
            assert(dot(stride, idx) == p - off) by (nonlinear_arith)
                requires
                    dot(stride, idx) == inc * j,
                    p == off + j * inc,
            ;
        }
    }
}

/// Scales a whole linear block with one BLAS call.
fn scal_block<T: Num>(to: &mut Vec<T>, to_off: usize, to_ss: &ShapeStride, inc: usize, s: T)
    requires
        window_ok(*to_ss, to_off as int, old(to)@.len() as int),
        injective(to_ss.shape@, to_ss.stride@),
        block_linear(to_ss.shape@, to_ss.stride@, inc as int),
    ensures
        updated(
            final(to)@,
            old(to)@,
            to_ss.shape@,
            to_ss.stride@,
            to_off as int,
            with_scalar(ElemOp::Mul, old(to)@, to_off as int, to_ss.stride@, s),
        ),
{
    let n = to_ss.shape.num_elm();
    proof {
        let sh = to_ss.shape@;
        if n > 0 {
            let last = lemma_unflatten(sh, n - 1);
            assert(dot(to_ss.stride@, last) == inc * (n - 1));
            assert(0 <= to_off + dot(to_ss.stride@, last) < to@.len());
            assert((n - 1) * inc == inc * (n - 1)) by (nonlinear_arith);
            if n >= 2 && inc == 0 {
                let i0 = lemma_unflatten(sh, 0);
                let i1 = lemma_unflatten(sh, 1);
                assert(dot(to_ss.stride@, i0) == inc * 0);
                assert(dot(to_ss.stride@, i1) == inc * 1);
                assert(i0 == i1);
            }
        }
        assert(vector_ok(n as int, to_off as int, inc as int, to@.len() as int));
    }
    Cpu::scal(n, s, to, to_off, inc);
    proof {
        lemma_block_scal(to@, old(to)@, to_ss.shape@, to_ss.stride@, to_off as int, inc as int, s);
    }
}

/// In-place `to[i] = to[i] op s` along a rank-1 layout, honoring its stride.
fn assign_1d_scalar_cpu<T: Num>(op: ElemOp, to: &mut Vec<T>, to_off: usize, to_ss: &ShapeStride, s: T)
    requires
        window_ok(*to_ss, to_off as int, old(to)@.len() as int),
        injective(to_ss.shape@, to_ss.stride@),
        to_ss.shape@.len() == 1,
    ensures
        updated(
            final(to)@,
            old(to)@,
            to_ss.shape@,
            to_ss.stride@,
            to_off as int,
            with_scalar(op, old(to)@, to_off as int, to_ss.stride@, s),
        ),
{
    let n = to_ss.shape.index(0);
    let t = to_ss.stride.index(0);
    let ghost sh = to_ss.shape@;
    let ghost f = with_scalar(op, old(to)@, to_off as int, to_ss.stride@, s);
    proof {
        lemma_slabs_start(old(to)@, sh, to_ss.stride@, to_off as int, f);
    }
    let to_len = to.len();
    let mut i: usize = 0;
    while i < n
        invariant
            window_ok(*to_ss, to_off as int, old(to)@.len() as int),
            injective(to_ss.shape@, to_ss.stride@),
            sh == to_ss.shape@,
            sh.len() == 1,
            n == sh[0],
            t == to_ss.stride@[0],
            to_len == old(to)@.len(),
            0 <= i <= n,
            f == with_scalar(op, old(to)@, to_off as int, to_ss.stride@, s),
            slabs_done(to@, old(to)@, sh, to_ss.stride@, to_off as int, i as int, f),
        decreases n - i,
    {
        let ghost e = Seq::<int>::empty();
        proof {
            lemma_slab(sh, to_ss.stride@, to_off as int, old(to)@.len() as int, i as int);
            assert(valid_index(sh.drop_first(), e));
            assert(dot(to_ss.stride@.drop_first(), e) == 0);
            assert(valid_index(sh, cons(i as int, e)));
        }
        let p = to_off + t * i;
        proof {
            lemma_slab_fresh(to@, old(to)@, sh, to_ss.stride@, to_off as int, old(to)@.len() as int, i as int, f, e);
        }
        let ghost mid = to@;
        let v = apply_exec(op, to[p], s);
        to.set(p, v);
        proof {
            let g = |rest: Seq<int>| v;
            lemma_single(to@, mid, p as int, v, g);
            assert(sh.drop_first() =~= Seq::<usize>::empty());
            assert(to_ss.stride@.drop_first() =~= Seq::<usize>::empty());
            assert forall|rest: Seq<int>| valid_index(sh.drop_first(), rest) implies #[trigger] g(rest) == f(
                cons(i as int, rest),
            ) by {
                assert(rest =~= e);
            }
            lemma_slab_step(to@, mid, old(to)@, sh, to_ss.stride@, to_off as int, old(to)@.len() as int, i as int, f, g);
        }
        i += 1;
    }
    proof {
        lemma_slabs_end(to@, old(to)@, sh, to_ss.stride@, to_off as int, f);
    }
}

/// In-place `to[idx] = to[idx] op s` over every index of the layout. Addition
/// walks rank-1 slices element by element; multiplication scales a rank-1
/// slice, or the whole layout when it is contiguous, with one BLAS `scal`.
pub(crate) fn assign_matrix_scalar<T: Num>(op: ElemOp, to: &mut Vec<T>, to_off: usize, to_ss: &ShapeStride, s: T)
    requires
        window_ok(*to_ss, to_off as int, old(to)@.len() as int),
        injective(to_ss.shape@, to_ss.stride@),
    ensures
        updated(
            final(to)@,
            old(to)@,
            to_ss.shape@,
            to_ss.stride@,
            to_off as int,
            with_scalar(op, old(to)@, to_off as int, to_ss.stride@, s),
        ),
    decreases to_ss.shape@.len(),
{
    let ghost f = with_scalar(op, old(to)@, to_off as int, to_ss.stride@, s);
    let ghost e = Seq::<int>::empty();
    let rank = to_ss.shape.len();
    if rank == 0 {
        proof {
            assert(valid_index(to_ss.shape@, e));
            assert(dot(to_ss.stride@, e) == 0);
        }
        let v = apply_exec(op, to[to_off], s);
        let ghost before = to@;
        to.set(to_off, v);
        proof {
            assert(to_ss.stride@ =~= Seq::<usize>::empty());
            assert(to_ss.shape@ =~= Seq::<usize>::empty());
            lemma_single(to@, before, to_off as int, v, f);
        }
        return;
    }
    if rank == 1 {
        match op {
            ElemOp::Add => assign_1d_scalar_cpu(op, to, to_off, to_ss, s),
            ElemOp::Mul => {
                let inc = to_ss.stride.index(0);
                proof {
                    lemma_block_linear(to_ss.shape@, to_ss.stride@, inc as int);
                }
                scal_block(to, to_off, to_ss, inc, s);
            },
        }
        return;
    }
    if op == ElemOp::Mul && to_ss.is_contiguous() {
        let inc = to_ss.stride.index(rank - 1);
        proof {
            assert(to_ss.stride@[rank - 1] == canonical_stride(to_ss.shape@, rank - 1));
            assert(to_ss.shape@.subrange(rank as int, rank as int).len() == 0);
            assert(inc == 1);
            assert forall|idx: Seq<int>| valid_index(to_ss.shape@, idx) implies #[trigger] dot(to_ss.stride@, idx)
                == inc * flat(to_ss.shape@, idx) by {
                lemma_contiguous_dot(to_ss.shape@, to_ss.stride@, idx);
            }
        }
        scal_block(to, to_off, to_ss, inc, s);
        return;
    }
    let to_tail = to_ss.index_axis();
    let len0 = to_ss.shape.index(0);
    let to_s0 = to_ss.stride.index(0);
    let ghost sh = to_ss.shape@;
    proof {
        lemma_slabs_start(old(to)@, sh, to_ss.stride@, to_off as int, f);
    }
    if to_ss.shape.num_elm() == 0 {
        proof {
            assert forall|idx: Seq<int>| !valid_index(sh, idx) by {
                if valid_index(sh, idx) {
                    lemma_flat_bound(sh, idx);
                }
            }
        }
        return;
    }
    let to_len = to.len();
    let mut i: usize = 0;
    while i < len0
        invariant
            window_ok(*to_ss, to_off as int, old(to)@.len() as int),
            injective(to_ss.shape@, to_ss.stride@),
            sh == to_ss.shape@,
            sh.len() >= 2,
            shape_size(sh) > 0,
            len0 == sh[0],
            to_s0 == to_ss.stride@[0],
            to_tail.wf(),
            to_tail.shape@ == sh.drop_first(),
            to_tail.stride@ == to_ss.stride@.drop_first(),
            to_len == old(to)@.len(),
            0 <= i <= len0,
            f == with_scalar(op, old(to)@, to_off as int, to_ss.stride@, s),
            slabs_done(to@, old(to)@, sh, to_ss.stride@, to_off as int, i as int, f),
        decreases len0 - i,
    {
        proof {
            lemma_slab(sh, to_ss.stride@, to_off as int, old(to)@.len() as int, i as int);
            lemma_trailing_fits(sh, 0);
            assert(shape_size(sh) == sh[0] * shape_size(sh.drop_first()));
            assert(shape_size(sh.drop_first()) > 0) by (nonlinear_arith)
                requires
                    shape_size(sh) == sh[0] * shape_size(sh.drop_first()),
                    shape_size(sh) > 0,
            ;
            let rest = lemma_unflatten(sh.drop_first(), 0);
            lemma_dot_bounds(sh.drop_first(), to_ss.stride@.drop_first(), rest);
            assert(0 <= to_off + to_s0 * i + dot(to_ss.stride@.drop_first(), rest) < old(to)@.len());
        }
        let to_o = to_off + to_s0 * i;
        let ghost mid = to@;
        assign_matrix_scalar(op, to, to_o, &to_tail, s);
        proof {
            let g = with_scalar(op, mid, to_o as int, to_tail.stride@, s);
            assert forall|rest: Seq<int>| valid_index(sh.drop_first(), rest) implies #[trigger] g(rest) == f(
                cons(i as int, rest),
            ) by {
                lemma_slab_fresh(mid, old(to)@, sh, to_ss.stride@, to_off as int, old(to)@.len() as int, i as int, f, rest);
                assert(dot(to_ss.stride@.drop_first(), rest) + to_off + to_s0 * i == to_off + dot(
                    to_ss.stride@,
                    cons(i as int, rest),
                ));
            }
            lemma_slab_step(to@, mid, old(to)@, sh, to_ss.stride@, to_off as int, old(to)@.len() as int, i as int, f, g);
        }
        i += 1;
    }
    proof {
        lemma_slabs_end(to@, old(to)@, sh, to_ss.stride@, to_off as int, f);
    }
}

/// The operand's shape stays includable in the destination's trailing axes
/// once the destination's leading axis is fixed, and the trailing part of an
/// index is unaffected by a leading entry.
proof fn lemma_broadcast_tail(hi: Seq<usize>, lo: Seq<usize>, i: int, rest: Seq<int>)
    requires
        includes(hi, lo),
        lo.len() < hi.len(),
        rest.len() == hi.len() - 1,
    ensures
        includes(hi.drop_first(), lo),
        suffix(cons(i, rest), lo.len()) == suffix(rest, lo.len()),
{
    assert(hi.drop_first().subrange(hi.len() - 1 - lo.len(), hi.len() - 1) =~= hi.subrange(
        hi.len() - lo.len(),
        hi.len() as int,
    ));
    assert(suffix(cons(i, rest), lo.len()) =~= suffix(rest, lo.len()));
}

/// In-place `to[idx] = to[idx] op src[trailing part of idx]` over every index
/// of the destination layout, where the operand's shape is the destination's
/// trailing extents.
pub(crate) fn assign_matrix_matrix<T: Num>(
    op: ElemOp,
    to: &mut Vec<T>,
    to_off: usize,
    to_ss: &ShapeStride,
    src: &Vec<T>,
    src_off: usize,
    src_ss: &ShapeStride,
)
    requires
        window_ok(*to_ss, to_off as int, old(to)@.len() as int),
        injective(to_ss.shape@, to_ss.stride@),
        window_ok(*src_ss, src_off as int, src@.len() as int),
        includes(to_ss.shape@, src_ss.shape@),
    ensures
        updated(
            final(to)@,
            old(to)@,
            to_ss.shape@,
            to_ss.stride@,
            to_off as int,
            with_operand(
                op,
                old(to)@,
                to_off as int,
                to_ss.stride@,
                src@,
                src_off as int,
                src_ss.stride@,
                src_ss.shape@.len(),
            ),
        ),
    decreases to_ss.shape@.len(),
{
    let ghost f = with_operand(
        op,
        old(to)@,
        to_off as int,
        to_ss.stride@,
        src@,
        src_off as int,
        src_ss.stride@,
        src_ss.shape@.len(),
    );
    let ghost e = Seq::<int>::empty();
    if to_ss.shape.is_empty() {
        proof {
            assert(src_ss.shape@.len() == 0);
            assert(valid_index(to_ss.shape@, e));
            assert(valid_index(src_ss.shape@, e));
            assert(dot(to_ss.stride@, e) == 0);
            assert(dot(src_ss.stride@, e) == 0);
            assert(suffix(e, 0) =~= e);
        }
        let v = apply_exec(op, to[to_off], src[src_off]);
        let ghost before = to@;
        to.set(to_off, v);
        proof {
            assert(to_ss.stride@ =~= Seq::<usize>::empty());
            assert(to_ss.shape@ =~= Seq::<usize>::empty());
            lemma_single(to@, before, to_off as int, v, f);
        }
        return;
    }
    if src_ss.shape.is_empty() {
        proof {
            assert(valid_index(src_ss.shape@, e));
            assert(dot(src_ss.stride@, e) == 0);
        }
        let s = src[src_off];
        assign_matrix_scalar(op, to, to_off, to_ss, s);
        proof {
            assert forall|idx: Seq<int>| valid_index(to_ss.shape@, idx) implies #[trigger] with_scalar(
                op,
                old(to)@,
                to_off as int,
                to_ss.stride@,
                s,
            )(idx) == f(idx) by {
                assert(suffix(idx, 0) =~= e);
            }
            lemma_updated_ext(
                to@,
                old(to)@,
                to_ss.shape@,
                to_ss.stride@,
                to_off as int,
                with_scalar(op, old(to)@, to_off as int, to_ss.stride@, s),
                f,
            );
        }
        return;
    }
    let rank = to_ss.shape.len();
    if rank == 1 {
        proof {
            assert(src_ss.shape@ =~= to_ss.shape@.subrange(0, 1));
            assert(to_ss.shape@.subrange(0, 1) =~= to_ss.shape@);
        }
        assign_1d_1d_cpu(op, to, to_off, to_ss, src, src_off, src_ss);
        return;
    }
    let same = to_ss.shape.same(&src_ss.shape);
    let to_tail = to_ss.index_axis();
    let src_tail = if same {
        src_ss.index_axis()
    } else {
        *src_ss
    };
    let len0 = to_ss.shape.index(0);
    let to_s0 = to_ss.stride.index(0);
    let src_s0 = src_ss.stride.index(0);
    let ghost sh = to_ss.shape@;
    let ghost src_rank = src_ss.shape@.len();
    proof {
        lemma_slabs_start(old(to)@, sh, to_ss.stride@, to_off as int, f);
        if same {
            assert(src_ss.shape@.len() == sh.len());
        } else {
            if src_rank == sh.len() {
                assert(sh.subrange(0, sh.len() as int) =~= sh);
            }
            assert(src_rank < sh.len());
            lemma_broadcast_tail(sh, src_ss.shape@, 0, sh.drop_first().map_values(|x: usize| 0int));
        }
    }
    if to_ss.shape.num_elm() == 0 {
        proof {
            assert forall|idx: Seq<int>| !valid_index(sh, idx) by {
                if valid_index(sh, idx) {
                    lemma_flat_bound(sh, idx);
                }
            }
        }
        return;
    }
    let to_len = to.len();
    let src_len = src.len();
    let mut i: usize = 0;
    while i < len0
        invariant
            window_ok(*to_ss, to_off as int, old(to)@.len() as int),
            injective(to_ss.shape@, to_ss.stride@),
            window_ok(*src_ss, src_off as int, src@.len() as int),
            includes(to_ss.shape@, src_ss.shape@),
            sh == to_ss.shape@,
            src_rank == src_ss.shape@.len(),
            1 <= src_rank,
            sh.len() >= 2,
            shape_size(sh) > 0,
            same <==> src_rank == sh.len(),
            len0 == sh[0],
            to_s0 == to_ss.stride@[0],
            src_s0 == src_ss.stride@[0],
            to_tail.wf(),
            to_tail.shape@ == sh.drop_first(),
            to_tail.stride@ == to_ss.stride@.drop_first(),
            same ==> src_tail.wf() && src_tail.shape@ == sh.drop_first() && src_tail.stride@
                == src_ss.stride@.drop_first(),
            !same ==> src_tail == *src_ss,
            to_len == old(to)@.len(),
            src_len == src@.len(),
            0 <= i <= len0,
            f == with_operand(
                op,
                old(to)@,
                to_off as int,
                to_ss.stride@,
                src@,
                src_off as int,
                src_ss.stride@,
                src_ss.shape@.len(),
            ),
            slabs_done(to@, old(to)@, sh, to_ss.stride@, to_off as int, i as int, f),
        decreases len0 - i,
    {
        proof {
            lemma_slab(sh, to_ss.stride@, to_off as int, old(to)@.len() as int, i as int);
            lemma_trailing_fits(sh, 0);
            assert(shape_size(sh) == sh[0] * shape_size(sh.drop_first()));
            assert(shape_size(sh.drop_first()) > 0) by (nonlinear_arith)
                requires
                    shape_size(sh) == sh[0] * shape_size(sh.drop_first()),
                    shape_size(sh) > 0,
            ;
            let rest = lemma_unflatten(sh.drop_first(), 0);
            lemma_dot_bounds(sh.drop_first(), to_ss.stride@.drop_first(), rest);
            assert(0 <= to_off + to_s0 * i + dot(to_ss.stride@.drop_first(), rest) < old(to)@.len());
            if same {
                lemma_slab(sh, src_ss.stride@, src_off as int, src@.len() as int, i as int);
                lemma_dot_bounds(sh.drop_first(), src_ss.stride@.drop_first(), rest);
                assert(0 <= src_off + src_s0 * i + dot(src_ss.stride@.drop_first(), rest) < src@.len());
                assert(sh.drop_first().subrange(0, sh.len() - 1) =~= sh.drop_first());
            } else {
                lemma_broadcast_tail(sh, src_ss.shape@, i as int, rest);
            }
        }
        let to_o = to_off + to_s0 * i;
        let src_o = if same {
            src_off + src_s0 * i
        } else {
            src_off
        };
        let ghost mid = to@;
        assign_matrix_matrix(op, to, to_o, &to_tail, src, src_o, &src_tail);
        proof {
            let g = with_operand(
                op,
                mid,
                to_o as int,
                to_tail.stride@,
                src@,
                src_o as int,
                src_tail.stride@,
                src_tail.shape@.len(),
            );
            assert forall|rest: Seq<int>| valid_index(sh.drop_first(), rest) implies #[trigger] g(rest) == f(
                cons(i as int, rest),
            ) by {
                let c = cons(i as int, rest);
                lemma_slab_fresh(mid, old(to)@, sh, to_ss.stride@, to_off as int, old(to)@.len() as int, i as int, f, rest);
                assert(dot(to_ss.stride@.drop_first(), rest) + to_off + to_s0 * i == to_off + dot(to_ss.stride@, c));
                if same {
                    lemma_slab(sh, src_ss.stride@, src_off as int, src@.len() as int, i as int);
                    assert(dot(src_ss.stride@.drop_first(), rest) + src_off + src_s0 * i == src_off + dot(
                        src_ss.stride@,
                        c,
                    ));
                    assert(suffix(c, src_rank) =~= c);
                    assert(suffix(rest, (src_rank - 1) as nat) =~= rest);
                } else {
                    lemma_broadcast_tail(sh, src_ss.shape@, i as int, rest);
                }
            }
            lemma_slab_step(to@, mid, old(to)@, sh, to_ss.stride@, to_off as int, old(to)@.len() as int, i as int, f, g);
        }
        i += 1;
    }
    proof {
        lemma_slabs_end(to@, old(to)@, sh, to_ss.stride@, to_off as int, f);
    }
}

/// The two operands of a broadcast operation and its destination agree: the
/// destination has the shape of the operand of higher rank (the first on a
/// tie) and the other operand's shape is its trailing extents.
pub open spec fn broadcast_pair(to: Seq<usize>, a: Seq<usize>, b: Seq<usize>) -> bool {
    if a.len() >= b.len() {
        to == a && includes(a, b)
    } else {
        to == b && includes(b, a)
    }
}

/// Each element is `a op b` for the operand elements at the trailing parts of its index.
pub open spec fn combined<T: Num>(
    op: ElemOp,
    a: Seq<T>,
    a_off: int,
    a_stride: Seq<usize>,
    a_rank: nat,
    b: Seq<T>,
    b_off: int,
    b_stride: Seq<usize>,
    b_rank: nat,
) -> spec_fn(Seq<int>) -> T {
    |idx: Seq<int>|
        apply(op, a[a_off + dot(a_stride, suffix(idx, a_rank))], b[b_off + dot(b_stride, suffix(idx, b_rank))])
}

/// `to = lhs op s`: the destination is first filled from `lhs`, then combined
/// with the scalar in place.
pub(crate) fn matrix_scalar<T: Num>(
    op: ElemOp,
    to: &mut Vec<T>,
    to_off: usize,
    to_ss: &ShapeStride,
    lhs: &Vec<T>,
    lhs_off: usize,
    lhs_ss: &ShapeStride,
    s: T,
)
    requires
        window_ok(*to_ss, to_off as int, old(to)@.len() as int),
        injective(to_ss.shape@, to_ss.stride@),
        window_ok(*lhs_ss, lhs_off as int, lhs@.len() as int),
        to_ss.shape@ == lhs_ss.shape@,
    ensures
        updated(
            final(to)@,
            old(to)@,
            to_ss.shape@,
            to_ss.stride@,
            to_off as int,
            |idx: Seq<int>| apply(op, lhs@[lhs_off + dot(lhs_ss.stride@, idx)], s),
        ),
{
    copy(to, to_off, to_ss, lhs, lhs_off, lhs_ss);
    let ghost mid = to@;
    assign_matrix_scalar(op, to, to_off, to_ss, s);
    proof {
        lemma_updated_compose(
            to@,
            mid,
            old(to)@,
            to_ss.shape@,
            to_ss.stride@,
            to_off as int,
            |idx: Seq<int>| lhs@[lhs_off + dot(lhs_ss.stride@, idx)],
            with_scalar(op, mid, to_off as int, to_ss.stride@, s),
            |idx: Seq<int>| apply(op, lhs@[lhs_off + dot(lhs_ss.stride@, idx)], s),
        );
    }
}

/// `to = a op b` with broadcasting: the destination is first filled from the
/// operand of higher rank, whichever side it stands on, then combined in
/// place with the other, so broadcasting only ever lowers the rank.
pub(crate) fn matrix_matrix<T: Num>(
    op: ElemOp,
    to: &mut Vec<T>,
    to_off: usize,
    to_ss: &ShapeStride,
    a: &Vec<T>,
    a_off: usize,
    a_ss: &ShapeStride,
    b: &Vec<T>,
    b_off: usize,
    b_ss: &ShapeStride,
)
    requires
        window_ok(*to_ss, to_off as int, old(to)@.len() as int),
        injective(to_ss.shape@, to_ss.stride@),
        window_ok(*a_ss, a_off as int, a@.len() as int),
        window_ok(*b_ss, b_off as int, b@.len() as int),
        broadcast_pair(to_ss.shape@, a_ss.shape@, b_ss.shape@),
    ensures
        updated(
            final(to)@,
            old(to)@,
            to_ss.shape@,
            to_ss.stride@,
            to_off as int,
            combined(
                op,
                a@,
                a_off as int,
                a_ss.stride@,
                a_ss.shape@.len(),
                b@,
                b_off as int,
                b_ss.stride@,
                b_ss.shape@.len(),
            ),
        ),
{
    let ghost h = combined(
        op,
        a@,
        a_off as int,
        a_ss.stride@,
        a_ss.shape@.len(),
        b@,
        b_off as int,
        b_ss.stride@,
        b_ss.shape@.len(),
    );
    let swap = a_ss.shape.len() < b_ss.shape.len();
    let (hi, hi_off, hi_ss, lo, lo_off, lo_ss) = if swap {
        (b, b_off, b_ss, a, a_off, a_ss)
    } else {
        (a, a_off, a_ss, b, b_off, b_ss)
    };
    copy(to, to_off, to_ss, hi, hi_off, hi_ss);
    let ghost mid = to@;
    assign_matrix_matrix(op, to, to_off, to_ss, lo, lo_off, lo_ss);
    proof {
        T::lemma_commutative();
        let f = |idx: Seq<int>| hi@[hi_off + dot(hi_ss.stride@, idx)];
        let g = with_operand(
            op,
            mid,
            to_off as int,
            to_ss.stride@,
            lo@,
            lo_off as int,
            lo_ss.stride@,
            lo_ss.shape@.len(),
        );
        assert forall|idx: Seq<int>| valid_index(to_ss.shape@, idx) implies #[trigger] g(idx) == h(idx) by {
            assert(suffix(idx, hi_ss.shape@.len()) =~= idx);
            assert(mid[to_off + dot(to_ss.stride@, idx)] == f(idx));
        }
        lemma_updated_compose(to@, mid, old(to)@, to_ss.shape@, to_ss.stride@, to_off as int, f, g, h);
    }
}

} // verus!
