//! Clipping: clamping every element into a range, and the 0/1 mask of the
//! elements that a clamp leaves alone.
use vstd::prelude::*;
use crate::copy_from::copy;
use crate::layout::{
    injective, lemma_single, lemma_slab, lemma_slab_fresh, lemma_slab_step, lemma_slabs_end,
    lemma_slabs_start, lemma_updated_compose, slabs_done, updated,
};
use crate::matrix::{lemma_canonical_window, window_ok, Matrix, MatrixView, MatrixViewMut};
use crate::num::Num;
use crate::shape_stride::{
    cons, dot, lemma_dot_bounds, lemma_flat_bound, lemma_trailing_fits, lemma_unflatten, shape_size,
    valid_index, ShapeStride,
};

verus! {

/// `x` clamped into `[min, max]`: `min` below it, `max` above it, else `x`.
pub open spec fn clamp<T: Num>(x: T, min: T, max: T) -> T {
    if T::lt_spec(x, min) {
        min
    } else if T::lt_spec(max, x) {
        max
    } else {
        x
    }
}

/// One where `x` lies within `[min, max]` (where a clamp passes it through),
/// zero where it lies outside.
pub open spec fn window<T: Num>(x: T, min: T, max: T) -> T {
    if T::lt_spec(x, min) || T::lt_spec(max, x) {
        T::zero_spec()
    } else {
        T::one_spec()
    }
}

/// A per-element map against a range `[min, max]`.
#[derive(Clone, Copy, Debug, PartialEq, Eq, Structural)]
pub enum RangeOp {
    Clamp,
    Window,
}

/// A range map with its bounds.
pub struct UnaryOp<T> {
    pub kind: RangeOp,
    pub min: T,
    pub max: T,
}

pub open spec fn unary<T: Num>(op: UnaryOp<T>, x: T) -> T {
    match op.kind {
        RangeOp::Clamp => clamp(x, op.min, op.max),
        RangeOp::Window => window(x, op.min, op.max),
    }
}

fn unary_exec<T: Num>(op: &UnaryOp<T>, x: T) -> (r: T)
    ensures
        r == unary(*op, x),
{
    let min = op.min;
    let max = op.max;
    match op.kind {
        RangeOp::Clamp => {
            if x.lt(min) {
                min
            } else if max.lt(x) {
                max
            } else {
                x
            }
        },
        RangeOp::Window => {
            if x.lt(min) || max.lt(x) {
                T::zero()
            } else {
                T::one()
            }
        },
    }
}

/// Each element mapped by `op`.
pub open spec fn mapped<T: Num>(op: UnaryOp<T>, old: Seq<T>, off: int, stride: Seq<usize>) -> spec_fn(Seq<int>) -> T {
    |idx: Seq<int>| unary(op, old[off + dot(stride, idx)])
}

/// Maps every element of a rank-1 layout in place, honoring its stride.
fn map_kernel_cpu<T: Num>(op: &UnaryOp<T>, to: &mut Vec<T>, to_off: usize, to_ss: &ShapeStride)
    requires
        window_ok(*to_ss, to_off as int, old(to)@.len() as int),
        injective(to_ss.shape@, to_ss.stride@),
        to_ss.shape@.len() == 1,
    ensures
        updated(final(to)@, old(to)@, to_ss.shape@, to_ss.stride@, to_off as int, mapped(*op, old(to)@, to_off as int, to_ss.stride@)),
{
    let n = to_ss.shape.index(0);
    let t = to_ss.stride.index(0);
    let ghost sh = to_ss.shape@;
    let ghost f = mapped(*op, old(to)@, to_off as int, to_ss.stride@);
    proof {
        lemma_slabs_start(old(to)@, sh, to_ss.stride@, to_off as int, f);
    }
    let to_len = to.len();
    let mut i: usize = 0;
    while i < n
        invariant
            window_ok(*to_ss, to_off as int, old(to)@.len() as int),
            injective(to_ss.shape@, to_ss.stride@),
            sh == to_ss.shape@,
            sh.len() == 1,
            n == sh[0],
            t == to_ss.stride@[0],
            to_len == old(to)@.len(),
            0 <= i <= n,
            f == mapped(*op, old(to)@, to_off as int, to_ss.stride@),
            slabs_done(to@, old(to)@, sh, to_ss.stride@, to_off as int, i as int, f),
        decreases n - i,
    {
        let ghost e = Seq::<int>::empty();
        proof {
            lemma_slab(sh, to_ss.stride@, to_off as int, old(to)@.len() as int, i as int);
            assert(valid_index(sh.drop_first(), e));
            assert(dot(to_ss.stride@.drop_first(), e) == 0);
            assert(valid_index(sh, cons(i as int, e)));
        }
        let p = to_off + t * i;
        proof {
            lemma_slab_fresh(to@, old(to)@, sh, to_ss.stride@, to_off as int, old(to)@.len() as int, i as int, f, e);
        }
        let ghost mid = to@;
        let v = unary_exec(op, to[p]);
        to.set(p, v);
        proof {
            let g = |rest: Seq<int>| v;
            lemma_single(to@, mid, p as int, v, g);
            assert(sh.drop_first() =~= Seq::<usize>::empty());
            assert(to_ss.stride@.drop_first() =~= Seq::<usize>::empty());
            assert forall|rest: Seq<int>| valid_index(sh.drop_first(), rest) implies #[trigger] g(rest) == f(
                cons(i as int, rest),
            ) by {
                assert(rest =~= e);
            }
            lemma_slab_step(to@, mid, old(to)@, sh, to_ss.stride@, to_off as int, old(to)@.len() as int, i as int, f, g);
        }
        i += 1;
    }
    proof {
        lemma_slabs_end(to@, old(to)@, sh, to_ss.stride@, to_off as int, f);
    }
}

/// Maps every element of the layout in place: rank-1 slices by the kernel,
/// higher ranks slab by slab along the leading axis.
fn map_assign<T: Num>(op: &UnaryOp<T>, to: &mut Vec<T>, to_off: usize, to_ss: &ShapeStride)
    requires
        window_ok(*to_ss, to_off as int, old(to)@.len() as int),
        injective(to_ss.shape@, to_ss.stride@),
    ensures
        updated(final(to)@, old(to)@, to_ss.shape@, to_ss.stride@, to_off as int, mapped(*op, old(to)@, to_off as int, to_ss.stride@)),
    decreases to_ss.shape@.len(),
{
    let ghost f = mapped(*op, old(to)@, to_off as int, to_ss.stride@);
    let ghost e = Seq::<int>::empty();
    let rank = to_ss.shape.len();
    if rank == 0 {
        proof {
            assert(valid_index(to_ss.shape@, e));
            assert(dot(to_ss.stride@, e) == 0);
        }
        let v = unary_exec(op, to[to_off]);
        let ghost before = to@;
        to.set(to_off, v);
        proof {
            assert(to_ss.stride@ =~= Seq::<usize>::empty());
            assert(to_ss.shape@ =~= Seq::<usize>::empty());
            lemma_single(to@, before, to_off as int, v, f);
        }
        return;
    }
    if rank == 1 {
        map_kernel_cpu(op, to, to_off, to_ss);
        return;
    }
    let to_tail = to_ss.index_axis();
    let len0 = to_ss.shape.index(0);
    let to_s0 = to_ss.stride.index(0);
    let ghost sh = to_ss.shape@;
    proof {
        lemma_slabs_start(old(to)@, sh, to_ss.stride@, to_off as int, f);
    }
    if to_ss.shape.num_elm() == 0 {
        proof {
            assert forall|idx: Seq<int>| !valid_index(sh, idx) by {
                if valid_index(sh, idx) {
                    lemma_flat_bound(sh, idx);
                }
            }
        }
        return;
    }
    let to_len = to.len();
    let mut i: usize = 0;
    while i < len0
        invariant
            window_ok(*to_ss, to_off as int, old(to)@.len() as int),
            injective(to_ss.shape@, to_ss.stride@),
            sh == to_ss.shape@,
            sh.len() >= 2,
            shape_size(sh) > 0,
            len0 == sh[0],
            to_s0 == to_ss.stride@[0],
            to_tail.wf(),
            to_tail.shape@ == sh.drop_first(),
            to_tail.stride@ == to_ss.stride@.drop_first(),
            to_len == old(to)@.len(),
            0 <= i <= len0,
            f == mapped(*op, old(to)@, to_off as int, to_ss.stride@),
            slabs_done(to@, old(to)@, sh, to_ss.stride@, to_off as int, i as int, f),
        decreases len0 - i,
    {
        proof {
            lemma_slab(sh, to_ss.stride@, to_off as int, old(to)@.len() as int, i as int);
            lemma_trailing_fits(sh, 0);
            assert(shape_size(sh) == sh[0] * shape_size(sh.drop_first()));
            assert(shape_size(sh.drop_first()) > 0) by (nonlinear_arith)
                requires
                    shape_size(sh) == sh[0] * shape_size(sh.drop_first()),
                    shape_size(sh) > 0,
            ;
            let rest = lemma_unflatten(sh.drop_first(), 0);
            lemma_dot_bounds(sh.drop_first(), to_ss.stride@.drop_first(), rest);
            assert(0 <= to_off + to_s0 * i + dot(to_ss.stride@.drop_first(), rest) < old(to)@.len());
        }
        let to_o = to_off + to_s0 * i;
        let ghost mid = to@;
        map_assign(op, to, to_o, &to_tail);
        proof {
            let g = mapped(*op, mid, to_o as int, to_tail.stride@);
            assert forall|rest: Seq<int>| valid_index(sh.drop_first(), rest) implies #[trigger] g(rest) == f(
                cons(i as int, rest),
            ) by {
                lemma_slab_fresh(mid, old(to)@, sh, to_ss.stride@, to_off as int, old(to)@.len() as int, i as int, f, rest);
                assert(dot(to_ss.stride@.drop_first(), rest) + to_off + to_s0 * i == to_off + dot(
                    to_ss.stride@,
                    cons(i as int, rest),
                ));
            }
            lemma_slab_step(to@, mid, old(to)@, sh, to_ss.stride@, to_off as int, old(to)@.len() as int, i as int, f, g);
        }
        i += 1;
    }
    proof {
        lemma_slabs_end(to@, old(to)@, sh, to_ss.stride@, to_off as int, f);
    }
}

/// A fresh array of the view's shape holding `op` of each of its elements.
fn map_to_new<T: Num>(op: &UnaryOp<T>, input: &MatrixView<T>) -> (r: Matrix<T>)
    requires
        input.wf(),
    ensures
        r.wf(),
        r.shape_spec() == input.shape_spec(),
        forall|idx: Seq<int>| valid_index(input.shape_spec(), idx) ==> #[trigger] r.at(idx) == unary(*op, input.at(idx)),
{
    let shape = input.shape_stride.shape.slice();
    let mut out: Matrix<T> = Matrix::zeros(shape.as_slice());
    proof {
        lemma_canonical_window(out.shape_stride);
    }
    let ghost start = out.data@;
    copy(&mut out.data, 0, &out.shape_stride, input.data, input.offset, &input.shape_stride);
    let ghost mid = out.data@;
    map_assign(op, &mut out.data, 0, &out.shape_stride);
    proof {
        let st = out.shape_stride.stride@;
        let f = |idx: Seq<int>| input.data@[input.offset + dot(input.shape_stride.stride@, idx)];
        let h = |idx: Seq<int>| unary(*op, input.at(idx));
        lemma_updated_compose(out.data@, mid, start, out.shape_stride.shape@, st, 0, f, mapped(*op, mid, 0, st), h);
        assert forall|idx: Seq<int>| valid_index(input.shape_spec(), idx) implies #[trigger] out.at(idx) == unary(
            *op,
            input.at(idx),
        ) by {
            assert(out.data@[0 + dot(st, idx)] == h(idx));
        }
    }
    out
}

/// Clamps every element into `[min, max]` in place.
pub trait ClipAssign<T: Num>: Sized {
    spec fn clip_assign_requires(&self) -> bool;

    fn clip_assign(self, min: T, max: T)
        requires
            self.clip_assign_requires(),
    ;
}

/// A fresh array holding every element clamped into `[min, max]`.
pub trait Clip<T: Num>: Sized {
    spec fn clip_requires(&self) -> bool;

    fn clip(&self, min: T, max: T) -> Matrix<T>
        requires
            self.clip_requires(),
    ;
}

impl<'a, T: Num> ClipAssign<T> for MatrixViewMut<'a, T> {
    open spec fn clip_assign_requires(&self) -> bool {
        self.wf()
    }

    fn clip_assign(self, min: T, max: T)
        ensures
            updated(
                final(self.data)@,
                old(self.data)@,
                self.shape_stride.shape@,
                self.shape_stride.stride@,
                self.offset as int,
                mapped((UnaryOp { kind: RangeOp::Clamp, min, max }), old(self.data)@, self.offset as int, self.shape_stride.stride@),
            ),
    {
        let s = self;
        map_assign(&UnaryOp { kind: RangeOp::Clamp, min, max }, s.data, s.offset, &s.shape_stride);
    }
}

impl<'a, T: Num> Clip<T> for MatrixView<'a, T> {
    open spec fn clip_requires(&self) -> bool {
        self.wf()
    }

    fn clip(&self, min: T, max: T) -> (r: Matrix<T>)
        ensures
            r.wf(),
            r.shape_spec() == self.shape_spec(),
            forall|idx: Seq<int>| valid_index(self.shape_spec(), idx) ==> #[trigger] r.at(idx) == clamp(self.at(idx), min, max),
    {
        map_to_new(&UnaryOp { kind: RangeOp::Clamp, min, max }, self)
    }
}

impl<T: Num> Clip<T> for Matrix<T> {
    open spec fn clip_requires(&self) -> bool {
        self.wf()
    }

    fn clip(&self, min: T, max: T) -> (r: Matrix<T>)
        ensures
            r.wf(),
            r.shape_spec() == self.shape_spec(),
            forall|idx: Seq<int>| valid_index(self.shape_spec(), idx) ==> #[trigger] r.at(idx) == clamp(self.at(idx), min, max),
    {
        let v = self.to_view();
        map_to_new(&UnaryOp { kind: RangeOp::Clamp, min, max }, &v)
    }
}

/// The mask of `input` against the range `[min, max]`: one where an element
/// lies within the range, zero where a clamp would change it. The mask has
/// the input's shape and canonical layout.
pub fn clip_filter<T: Num>(input: &MatrixView<T>, max: T, min: T) -> (r: Matrix<T>)
    requires
        input.wf(),
    ensures
        r.wf(),
        r.shape_spec() == input.shape_spec(),
        forall|idx: Seq<int>| valid_index(input.shape_spec(), idx) ==> #[trigger] r.at(idx) == window(input.at(idx), min, max),
{
    map_to_new(&UnaryOp { kind: RangeOp::Window, min, max }, input)
}

} // verus!
