//! The strided-copy engine: copies between two views of equal shape with as
//! few BLAS `copy` calls as their layouts allow.
use vstd::prelude::*;
use crate::blas::{grid_pos, on_grid, Blas, CopyBlas, Cpu};
use crate::layout::{
    fits, injective, lemma_single, lemma_slab, lemma_slab_fresh, lemma_slab_step, lemma_slabs_end,
    lemma_slabs_start, slabs_done, touches, updated,
};
use crate::matrix::{window_ok, MatrixView, MatrixViewMut};
use crate::num::Num;
use crate::shape_stride::{
    canonical_stride, cons, contiguous, dot, flat, lemma_contiguous_dot, lemma_flat_bound,
    lemma_dot_bounds, lemma_size_zero, lemma_trailing_fits, lemma_unflatten, shape_size,
    size_fits, valid_index, ShapeStride, canonical_strides, strides_fit, transposed,
};

verus! {

/// The last `m` axes of the layout, taken on their own, are contiguous.
pub open spec fn trailing_contiguous(ss: ShapeStride, m: int) -> bool {
    let n = ss.shape@.len() as int;
    contiguous(ss.shape@.subrange(n - m, n), ss.stride@.subrange(n - m, n))
}

/// The number of trailing axes over which one BLAS call can copy between the
/// two layouts: none for a scalar, otherwise the largest count, up to the
/// smaller rank, such that for every count from two up to it both layouts
/// are contiguous on that many trailing axes. A single trailing axis always
/// qualifies. Contiguous strides are the canonical ones in canonical order,
/// so a block that qualifies is never a transposition.
pub fn get_max_shape_idx_of_apply_blas(a: &ShapeStride, b: &ShapeStride) -> (r: usize)
    requires
        a.wf(),
        b.wf(),
    ensures
        r <= a.shape@.len(),
        r <= b.shape@.len(),
        (a.shape@.len() >= 1 && b.shape@.len() >= 1) ==> r >= 1,
        forall|m: int| 2 <= m <= r ==> trailing_contiguous(*a, m) && trailing_contiguous(*b, m),
        (1 <= r && r < a.shape@.len() && r < b.shape@.len()) ==> !(trailing_contiguous(*a, r + 1)
            && trailing_contiguous(*b, r + 1)),
{
    let a_len = a.shape.len();
    let b_len = b.shape.len();
    let min_len = if a_len < b_len {
        a_len
    } else {
        b_len
    };
    if min_len == 0 {
        return 0;
    }
    let mut idx: usize = 1;
    let mut i: usize = 2;
    while i <= min_len
        invariant
            a.wf(),
            b.wf(),
            a_len == a.shape@.len(),
            b_len == b.shape@.len(),
            min_len <= a_len,
            min_len <= b_len,
            1 <= min_len,
            2 <= i <= min_len + 1,
            idx == i - 1,
            forall|m: int| 2 <= m <= idx ==> trailing_contiguous(*a, m) && trailing_contiguous(*b, m),
        decreases min_len + 1 - i,
    {
        let a_part = a.trailing(i);
        let b_part = b.trailing(i);
        proof {
            lemma_contiguous_not_transposed(a_part.shape@, a_part.stride@);
            lemma_contiguous_not_transposed(b_part.shape@, b_part.stride@);
        }
        if !a_part.is_transposed() && !b_part.is_transposed() && a_part.is_contiguous()
            && b_part.is_contiguous() {
            idx = i;
        } else {
            return idx;
        }
        i += 1;
    }
    idx
}

/// A contiguous layout is not a transposition.
proof fn lemma_contiguous_not_transposed(shape: Seq<usize>, stride: Seq<usize>)
    ensures
        contiguous(shape, stride) ==> !transposed(shape, stride),
{
    if contiguous(shape, stride) && strides_fit(shape) {
        assert(stride =~= canonical_strides(shape));
    }
}

/// The smallest stride of a layout of rank at least one.
fn min_stride(ss: &ShapeStride) -> (r: usize)
    requires
        ss.wf(),
        ss.stride@.len() >= 1,
    ensures
        exists|i: int| 0 <= i < ss.stride@.len() && r == #[trigger] ss.stride@[i],
        forall|i: int| 0 <= i < ss.stride@.len() ==> r <= #[trigger] ss.stride@[i],
{
    let n = ss.stride.len();
    let mut m = ss.stride.index(0);
    let mut i: usize = 1;
    while i < n
        invariant
            ss.wf(),
            n == ss.stride@.len(),
            1 <= i <= n,
            exists|j: int| 0 <= j < n && m == #[trigger] ss.stride@[j],
            forall|j: int| 0 <= j < i ==> m <= #[trigger] ss.stride@[j],
        decreases n - i,
    {
        let s = ss.stride.index(i);
        if s < m {
            m = s;
        }
        i += 1;
    }
    m
}

/// A block whose offsets are its row-major ranks times `inc`.
pub open spec fn block_linear(shape: Seq<usize>, stride: Seq<usize>, inc: int) -> bool {
    forall|idx: Seq<int>| valid_index(shape, idx) ==> #[trigger] dot(stride, idx) == inc * flat(shape, idx)
}

/// A one-axis block, and a contiguous block whose smallest stride is taken as
/// the increment, advance by a fixed increment in row-major order.
pub(crate) proof fn lemma_block_linear(shape: Seq<usize>, stride: Seq<usize>, inc: int)
    requires
        shape.len() >= 1,
        stride.len() == shape.len(),
        shape.len() == 1 ==> inc == stride[0],
        shape.len() >= 2 ==> contiguous(shape, stride),
        shape.len() >= 2 ==> (forall|i: int| 0 <= i < stride.len() ==> inc <= #[trigger] stride[i]),
        shape.len() >= 2 ==> (exists|i: int| 0 <= i < stride.len() && inc == #[trigger] stride[i]),
    ensures
        block_linear(shape, stride, inc),
{
    if shape.len() == 1 {
        assert forall|idx: Seq<int>| valid_index(shape, idx) implies #[trigger] dot(stride, idx) == inc * flat(
            shape,
            idx,
        ) by {
            assert(idx.drop_first().len() == 0);
            assert(shape.drop_first().len() == 0);
            assert(shape_size(shape.drop_first()) == 1);
            assert(dot(stride.drop_first(), idx.drop_first()) == 0);
            assert(flat(shape.drop_first(), idx.drop_first()) == 0);
        }
    } else {
        assert forall|idx: Seq<int>| valid_index(shape, idx) implies #[trigger] dot(stride, idx) == inc * flat(
            shape,
            idx,
        ) by {
            lemma_contiguous_dot(shape, stride, idx);
            lemma_flat_bound(shape, idx);
            // every extent is positive, so every canonical stride is positive
            let n = shape.len() as int;
            assert(stride[n - 1] == canonical_stride(shape, n - 1));
            assert(shape.subrange(n, n).len() == 0);
            assert(stride[n - 1] == 1);
            let w = choose|i: int| 0 <= i < stride.len() && inc == #[trigger] stride[i];
            if inc == 0 {
                assert(shape_size(shape.subrange(w + 1, n)) == 0);
                lemma_size_zero(shape.subrange(w + 1, n));
                let z = choose|z: int| 0 <= z < n - w - 1 && #[trigger] shape.subrange(w + 1, n)[z] == 0;
                assert(shape[z + w + 1] == 0);
                assert(0 <= idx[z + w + 1] < shape[z + w + 1]);
            }
            assert(inc == 1);
        }
    }
}

/// One BLAS copy of `n` elements replaces a linear block.
proof fn lemma_block_copy<T>(
    new: Seq<T>,
    old: Seq<T>,
    src: Seq<T>,
    shape: Seq<usize>,
    to_stride: Seq<usize>,
    to_off: int,
    to_inc: int,
    src_stride: Seq<usize>,
    src_off: int,
    src_inc: int,
)
    requires
        block_linear(shape, to_stride, to_inc),
        block_linear(shape, src_stride, src_inc),
        new.len() == old.len(),
        forall|j: int|
            0 <= j < shape_size(shape) ==> new[#[trigger] grid_pos(to_off, to_inc, j)] == src[grid_pos(
                src_off,
                src_inc,
                j,
            )],
        forall|p: int|
            0 <= p < old.len() && !on_grid(p, to_off, to_inc, shape_size(shape) as int) ==> #[trigger] new[p]
                == old[p],
    ensures
        updated(new, old, shape, to_stride, to_off, |idx: Seq<int>| src[src_off + dot(src_stride, idx)]),
{
    assert forall|idx: Seq<int>| valid_index(shape, idx) implies new[to_off + #[trigger] dot(to_stride, idx)]
        == src[src_off + dot(src_stride, idx)] by {
        lemma_flat_bound(shape, idx);
        let j = flat(shape, idx);
        assert(new[grid_pos(to_off, to_inc, j)] == src[grid_pos(src_off, src_inc, j)]);
        assert(dot(to_stride, idx) == j * to_inc) by (nonlinear_arith)
            requires
                dot(to_stride, idx) == to_inc * j,
        ;
        assert(dot(src_stride, idx) == j * src_inc) by (nonlinear_arith)
            requires
                dot(src_stride, idx) == src_inc * j,
        ;
    }
    assert forall|p: int| 0 <= p < old.len() && !touches(shape, to_stride, to_off, p) implies #[trigger] new[p]
        == old[p] by {
        if on_grid(p, to_off, to_inc, shape_size(shape) as int) {
            let j = choose|j: int| 0 <= j < shape_size(shape) && p == #[trigger] grid_pos(to_off, to_inc, j);
            let idx = lemma_unflatten(shape, j);
            assert(dot(to_stride, idx) == to_inc * j);
            assert(dot(to_stride, idx) == p - to_off) by (nonlinear_arith)
                requires
                    dot(to_stride, idx) == to_inc * j,
                    p == to_off + j * to_inc,
            ;
        }
    }
}

/// Copies `src` into `to` for layouts of equal shape whose last `k` axes
/// qualify for one BLAS call, looping over the leading axes in row-major order.
fn copy_blocks<T: Num>(
    to: &mut Vec<T>,
    to_off: usize,
    to_ss: &ShapeStride,
    src: &Vec<T>,
    src_off: usize,
    src_ss: &ShapeStride,
    k: usize,
)
    requires
        window_ok(*to_ss, to_off as int, old(to)@.len() as int),
        injective(to_ss.shape@, to_ss.stride@),
        window_ok(*src_ss, src_off as int, src@.len() as int),
        to_ss.shape@ == src_ss.shape@,
        1 <= k <= to_ss.shape@.len(),
        k >= 2 ==> trailing_contiguous(*to_ss, k as int) && trailing_contiguous(*src_ss, k as int),
        shape_size(to_ss.shape@) > 0,
    ensures
        updated(
            final(to)@,
            old(to)@,
            to_ss.shape@,
            to_ss.stride@,
            to_off as int,
            |idx: Seq<int>| src@[src_off + dot(src_ss.stride@, idx)],
        ),
    decreases to_ss.shape@.len(),
{
    let rank = to_ss.shape.len();
    let ghost f = |idx: Seq<int>| src@[src_off + dot(src_ss.stride@, idx)];
    if rank == k {
        let n = to_ss.shape.num_elm();
        let (to_inc, src_inc) = if k == 1 {
            (to_ss.stride.index(0), src_ss.stride.index(0))
        } else {
            (min_stride(to_ss), min_stride(src_ss))
        };
        proof {
            let sh = to_ss.shape@;
            assert(sh.subrange(0, rank as int) =~= sh);
            assert(to_ss.stride@.subrange(0, rank as int) =~= to_ss.stride@);
            assert(src_ss.stride@.subrange(0, rank as int) =~= src_ss.stride@);
            lemma_block_linear(sh, to_ss.stride@, to_inc as int);
            lemma_block_linear(sh, src_ss.stride@, src_inc as int);
            if n > 0 {
                let last = lemma_unflatten(sh, n - 1);
                assert(dot(src_ss.stride@, last) == src_inc * (n - 1));
                assert(0 <= src_off + dot(src_ss.stride@, last) < src@.len());
                assert(dot(to_ss.stride@, last) == to_inc * (n - 1));
                assert(0 <= to_off + dot(to_ss.stride@, last) < to@.len());
                assert((n - 1) * src_inc == src_inc * (n - 1)) by (nonlinear_arith);
                assert((n - 1) * to_inc == to_inc * (n - 1)) by (nonlinear_arith);
                if n >= 2 && to_inc == 0 {
                    let i0 = lemma_unflatten(sh, 0);
                    let i1 = lemma_unflatten(sh, 1);
                    assert(dot(to_ss.stride@, i0) == to_inc * 0);
                    assert(dot(to_ss.stride@, i1) == to_inc * 1);
                    assert(i0 == i1);
                }
            }
        }
        Cpu::copy(n, src, src_off, src_inc, to, to_off, to_inc);
        proof {
            lemma_block_copy(
                to@,
                old(to)@,
                src@,
                to_ss.shape@,
                to_ss.stride@,
                to_off as int,
                to_inc as int,
                src_ss.stride@,
                src_off as int,
                src_inc as int,
            );
        }
        return;
    }
    let to_tail = to_ss.index_axis();
    let src_tail = src_ss.index_axis();
    let len0 = to_ss.shape.index(0);
    let to_s0 = to_ss.stride.index(0);
    let src_s0 = src_ss.stride.index(0);
    let ghost sh = to_ss.shape@;
    proof {
        lemma_slabs_start(old(to)@, sh, to_ss.stride@, to_off as int, f);
        if k >= 2 {
            assert(to_tail.shape@.subrange(rank - 1 - k, rank - 1) =~= sh.subrange(rank - k, rank as int));
            assert(to_tail.stride@.subrange(rank - 1 - k, rank - 1) =~= to_ss.stride@.subrange(rank - k, rank as int));
            assert(src_tail.stride@.subrange(rank - 1 - k, rank - 1) =~= src_ss.stride@.subrange(rank - k, rank as int));
        }
    }
    let to_len = to.len();
    let src_len = src.len();
    let mut i: usize = 0;
    while i < len0
        invariant
            window_ok(*to_ss, to_off as int, old(to)@.len() as int),
            injective(to_ss.shape@, to_ss.stride@),
            window_ok(*src_ss, src_off as int, src@.len() as int),
            to_ss.shape@ == src_ss.shape@,
            to_len == old(to)@.len(),
            src_len == src@.len(),
            sh == to_ss.shape@,
            rank == sh.len(),
            1 <= k < rank,
            len0 == sh[0],
            to_s0 == to_ss.stride@[0],
            src_s0 == src_ss.stride@[0],
            to_tail.wf(),
            src_tail.wf(),
            to_tail.shape@ == sh.drop_first(),
            to_tail.stride@ == to_ss.stride@.drop_first(),
            src_tail.shape@ == sh.drop_first(),
            src_tail.stride@ == src_ss.stride@.drop_first(),
            k >= 2 ==> trailing_contiguous(to_tail, k as int) && trailing_contiguous(src_tail, k as int),
            shape_size(sh) > 0,
            0 <= i <= len0,
            f == (|idx: Seq<int>| src@[src_off + dot(src_ss.stride@, idx)]),
            slabs_done(to@, old(to)@, sh, to_ss.stride@, to_off as int, i as int, f),
        decreases len0 - i,
    {
        proof {
            lemma_slab(sh, to_ss.stride@, to_off as int, old(to)@.len() as int, i as int);
            lemma_slab(sh, src_ss.stride@, src_off as int, src@.len() as int, i as int);
            lemma_trailing_fits(sh, 0);
            assert(shape_size(sh) == sh[0] * shape_size(sh.drop_first()));
            assert(shape_size(sh.drop_first()) > 0) by (nonlinear_arith)
                requires
                    shape_size(sh) == sh[0] * shape_size(sh.drop_first()),
                    shape_size(sh) > 0,
            ;
            let rest = lemma_unflatten(sh.drop_first(), 0);
            lemma_dot_bounds(sh.drop_first(), to_ss.stride@.drop_first(), rest);
            lemma_dot_bounds(sh.drop_first(), src_ss.stride@.drop_first(), rest);
            assert(0 <= to_off + to_s0 * i + dot(to_ss.stride@.drop_first(), rest) < old(to)@.len());
            assert(0 <= src_off + src_s0 * i + dot(src_ss.stride@.drop_first(), rest) < src@.len());
        }
        let ghost mid = to@;
        let to_o = to_off + to_s0 * i;
        let src_o = src_off + src_s0 * i;
        copy_blocks(to, to_o, &to_tail, src, src_o, &src_tail, k);
        proof {
            let g = |rest: Seq<int>| src@[src_o + dot(src_tail.stride@, rest)];
            assert forall|rest: Seq<int>| valid_index(sh.drop_first(), rest) implies #[trigger] g(rest) == f(
                cons(i as int, rest),
            ) by {
                assert(dot(src_ss.stride@.drop_first(), rest) + src_off + src_s0 * i == src_off + dot(
                    src_ss.stride@,
                    cons(i as int, rest),
                ));
            }
            lemma_slab_step(
                to@,
                mid,
                old(to)@,
                sh,
                to_ss.stride@,
                to_off as int,
                old(to)@.len() as int,
                i as int,
                f,
                g,
            );
        }
        i += 1;
    }
    proof {
        lemma_slabs_end(to@, old(to)@, sh, to_ss.stride@, to_off as int, f);
    }
}

/// Copies every element of the `src` layout into the same index of the `to`
/// layout; the two layouts have the same shape.
pub(crate) fn copy<T: Num>(
    to: &mut Vec<T>,
    to_off: usize,
    to_ss: &ShapeStride,
    src: &Vec<T>,
    src_off: usize,
    src_ss: &ShapeStride,
)
    requires
        window_ok(*to_ss, to_off as int, old(to)@.len() as int),
        injective(to_ss.shape@, to_ss.stride@),
        window_ok(*src_ss, src_off as int, src@.len() as int),
        to_ss.shape@ == src_ss.shape@,
    ensures
        updated(
            final(to)@,
            old(to)@,
            to_ss.shape@,
            to_ss.stride@,
            to_off as int,
            |idx: Seq<int>| src@[src_off + dot(src_ss.stride@, idx)],
        ),
{
    if to_ss.shape.is_empty() {
        proof {
            assert(valid_index(to_ss.shape@, Seq::<int>::empty()));
            assert(dot(to_ss.stride@, Seq::<int>::empty()) == 0);
            assert(dot(src_ss.stride@, Seq::<int>::empty()) == 0);
        }
        let v = src[src_off];
        let ghost before = to@;
        to.set(to_off, v);
        proof {
            assert(to_ss.stride@ =~= Seq::<usize>::empty());
            assert(to_ss.shape@ =~= Seq::<usize>::empty());
            lemma_single(
                to@,
                before,
                to_off as int,
                v,
                |idx: Seq<int>| src@[src_off + dot(src_ss.stride@, idx)],
            );
        }
        return;
    }
    if to_ss.shape.num_elm() == 0 {
        proof {
            assert forall|idx: Seq<int>| !valid_index(to_ss.shape@, idx) by {
                if valid_index(to_ss.shape@, idx) {
                    lemma_flat_bound(to_ss.shape@, idx);
                }
            }
        }
        return;
    }
    let k = get_max_shape_idx_of_apply_blas(to_ss, src_ss);
    copy_blocks(to, to_off, to_ss, src, src_off, src_ss, k);
}

/// Element-wise copy from a source view of the same shape.
pub trait CopyFrom<Rhs>: Sized {
    spec fn copy_from_requires(&self, rhs: &Rhs) -> bool;

    fn copy_from(self, rhs: &Rhs)
        requires
            self.copy_from_requires(rhs),
    ;
}

impl<'a, 'b, T: Num> CopyFrom<MatrixView<'b, T>> for MatrixViewMut<'a, T> {
    open spec fn copy_from_requires(&self, rhs: &MatrixView<'b, T>) -> bool {
        &&& self.wf()
        &&& rhs.wf()
        &&& self.shape_spec() == rhs.shape_spec()
    }

    /// Afterwards every element of this view equals the element of `rhs` at
    /// the same index; the rest of the buffer is unchanged.
    fn copy_from(self, rhs: &MatrixView<'b, T>)
        ensures
            updated(
                final(self.data)@,
                old(self.data)@,
                self.shape_stride.shape@,
                self.shape_stride.stride@,
                self.offset as int,
                |idx: Seq<int>| rhs.at(idx),
            ),
    {
        let mut s = self;
        copy(s.data, s.offset, &s.shape_stride, rhs.data, rhs.offset, &rhs.shape_stride);
    }
}

/// Copies a rank-1 view into a rank-1 view of the same extent with one call
/// of the device's copy kernel, each walked with its own stride.
pub fn copy_unchecked<T: Num, D: CopyBlas>(x: &MatrixView<T>, y: MatrixViewMut<T>)
    requires
        x.wf(),
        y.wf(),
        x.shape_spec().len() == 1,
        y.shape_spec() == x.shape_spec(),
    ensures
        updated(
            final(y.data)@,
            old(y.data)@,
            y.shape_stride.shape@,
            y.shape_stride.stride@,
            y.offset as int,
            |idx: Seq<int>| x.at(idx),
        ),
{
    let y = y;
    let ghost start = y.data@;
    let n = x.shape_stride.shape.index(0);
    let incx = x.shape_stride.stride.index(0);
    let incy = y.shape_stride.stride.index(0);
    proof {
        let sh = x.shape_spec();
        lemma_block_linear(sh, x.shape_stride.stride@, incx as int);
        lemma_block_linear(sh, y.shape_stride.stride@, incy as int);
        assert(sh.drop_first().len() == 0);
        assert(shape_size(sh.drop_first()) == 1);
        assert(shape_size(sh) == n as nat * 1);
        if n > 0 {
            let last = lemma_unflatten(sh, n - 1);
            assert(dot(x.shape_stride.stride@, last) == incx * (n - 1));
            assert(dot(y.shape_stride.stride@, last) == incy * (n - 1));
            assert((n - 1) * incx == incx * (n - 1)) by (nonlinear_arith);
            assert((n - 1) * incy == incy * (n - 1)) by (nonlinear_arith);
            if n >= 2 && incy == 0 {
                let i0 = lemma_unflatten(sh, 0);
                let i1 = lemma_unflatten(sh, 1);
                assert(dot(y.shape_stride.stride@, i0) == incy * 0);
                assert(dot(y.shape_stride.stride@, i1) == incy * 1);
                assert(i0 == i1);
            }
        }
    }
    D::copy_raw(n, x.data, x.offset, incx, y.data, y.offset, incy);
    proof {
        lemma_block_copy(
            y.data@,
            start,
            x.data@,
            x.shape_spec(),
            y.shape_stride.stride@,
            y.offset as int,
            incy as int,
            x.shape_stride.stride@,
            x.offset as int,
            incx as int,
        );
    }
}

} // verus!
