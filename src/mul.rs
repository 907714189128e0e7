//! Element-wise multiplication of views, with broadcasting.
use vstd::prelude::*;
use crate::elementwise::{broadcast_pair, combined, matrix_matrix, matrix_scalar, ElemOp};
use crate::blas::{mat_pos, product_entry, product_term, sum_terms, Blas, BlasLayout, BlasTrans, Cpu};
use crate::copy_from::copy;
use crate::layout::{lemma_updated_ext, updated};
use crate::matrix::{lemma_canonical_window, Matrix, MatrixView, MatrixViewMut};
use crate::num::Num;
use crate::shape_stride::{canonical_stride, dot, shape_size, valid_index, ShapeStride};

verus! {

/// `self = lhs * rhs`, element by element.
pub trait MatrixMul<Lhs, Rhs>: Sized {
    spec fn mul_requires(&self, lhs: &Lhs, rhs: &Rhs) -> bool;

    fn mul(self, lhs: Lhs, rhs: Rhs)
        requires
            self.mul_requires(&lhs, &rhs),
    ;
}

impl<'a, 'b, T: Num> MatrixMul<MatrixView<'b, T>, T> for MatrixViewMut<'a, T> {
    open spec fn mul_requires(&self, lhs: &MatrixView<'b, T>, rhs: &T) -> bool {
        &&& self.wf()
        &&& lhs.wf()
        &&& self.shape_spec() == lhs.shape_spec()
    }

    /// Every element becomes the element of `lhs` at the same index times `rhs`.
    fn mul(self, lhs: MatrixView<'b, T>, rhs: T)
        ensures
            updated(
                final(self.data)@,
                old(self.data)@,
                self.shape_stride.shape@,
                self.shape_stride.stride@,
                self.offset as int,
                |idx: Seq<int>| T::times_spec(lhs.at(idx), rhs),
            ),
    {
        let s = self;
        matrix_scalar(ElemOp::Mul, s.data, s.offset, &s.shape_stride, lhs.data, lhs.offset, &lhs.shape_stride, rhs);
    }
}

impl<'a, 'b, 'c, T: Num> MatrixMul<MatrixView<'b, T>, MatrixView<'c, T>> for MatrixViewMut<'a, T> {
    open spec fn mul_requires(&self, lhs: &MatrixView<'b, T>, rhs: &MatrixView<'c, T>) -> bool {
        &&& self.wf()
        &&& lhs.wf()
        &&& rhs.wf()
        &&& broadcast_pair(self.shape_spec(), lhs.shape_spec(), rhs.shape_spec())
    }

    /// Every element becomes the product of the elements of `lhs` and `rhs` at the
    /// trailing parts of its index (the whole index for the operand of higher rank).
    fn mul(self, lhs: MatrixView<'b, T>, rhs: MatrixView<'c, T>)
        ensures
            updated(
                final(self.data)@,
                old(self.data)@,
                self.shape_stride.shape@,
                self.shape_stride.stride@,
                self.offset as int,
                combined(
                    ElemOp::Mul,
                    lhs.data@,
                    lhs.offset as int,
                    lhs.shape_stride.stride@,
                    lhs.shape_spec().len(),
                    rhs.data@,
                    rhs.offset as int,
                    rhs.shape_stride.stride@,
                    rhs.shape_spec().len(),
                ),
            ),
    {
        let s = self;
        matrix_matrix(
            ElemOp::Mul,
            s.data,
            s.offset,
            &s.shape_stride,
            lhs.data,
            lhs.offset,
            &lhs.shape_stride,
            rhs.data,
            rhs.offset,
            &rhs.shape_stride,
        );
    }
}

/// Element `(i, j)` of the product of a view `a` with `k` columns and a view
/// `b` with `k` rows: `a(i, 0) * b(0, j) + ... + a(i, k - 1) * b(k - 1, j)`.
pub open spec fn matmul_entry<T: Num>(
    a: Seq<T>,
    a_off: int,
    a_stride: Seq<usize>,
    b: Seq<T>,
    b_off: int,
    b_stride: Seq<usize>,
    k: int,
    i: int,
    j: int,
) -> T {
    sum_terms(
        |l: int|
            T::times_spec(
                a[a_off + a_stride[0] * i + a_stride[1] * l],
                b[b_off + b_stride[0] * l + b_stride[1] * j],
            ),
        k,
    )
}

/// Sums of pointwise equal terms are equal.
proof fn lemma_sum_terms_ext<T: Num>(f: spec_fn(int) -> T, g: spec_fn(int) -> T, k: int)
    requires
        forall|l: int| 0 <= l < k ==> #[trigger] f(l) == g(l),
    ensures
        sum_terms(f, k) == sum_terms(g, k),
    decreases k,
{
    if k > 0 {
        lemma_sum_terms_ext(f, g, k - 1);
    }
}

proof fn lemma_dot2(stride: Seq<usize>, idx: Seq<int>)
    requires
        stride.len() == 2,
        idx.len() == 2,
    ensures
        dot(stride, idx) == stride[0] * idx[0] + stride[1] * idx[1],
{
    assert(idx.drop_first().drop_first().len() == 0);
    assert(dot(stride.drop_first().drop_first(), idx.drop_first().drop_first()) == 0);
    assert(dot(stride.drop_first(), idx.drop_first()) == stride[1] * idx[1]);
}

/// Where a rank-2 operand's elements are for BLAS: its own buffer or a
/// contiguous copy of it, with offset, leading dimension and transpose flag.
pub open spec fn operand_reads<T: Num>(v: MatrixView<T>, copy: Option<Matrix<T>>, off: int, ld: int, trans: BlasTrans) -> bool {
    let buf = match copy {
        Some(c) => c.data@,
        None => v.data@,
    };
    let rows = v.shape_spec()[0] as int;
    let cols = v.shape_spec()[1] as int;
    &&& ld >= 0
    &&& rows > 0 && cols > 0 ==> mat_pos(BlasLayout::RowMajor, trans, off, ld, rows - 1, cols - 1) < buf.len()
    &&& forall|i: int, l: int|
        0 <= i < rows && 0 <= l < cols ==> buf[#[trigger] mat_pos(BlasLayout::RowMajor, trans, off, ld, i, l)]
            == v.at(seq![i, l])
}

/// Reads a rank-2 view in place when one of its strides is 1 (as is, or as
/// a transpose), and otherwise through a contiguous copy.
fn gemm_operand<T: Num>(v: &MatrixView<T>) -> (r: (Option<Matrix<T>>, usize, usize, BlasTrans))
    requires
        v.wf(),
        v.shape_spec().len() == 2,
    ensures
        operand_reads(*v, r.0, r.1 as int, r.2 as int, r.3),
{
    let rows = v.shape_stride.shape.index(0);
    let cols = v.shape_stride.shape.index(1);
    let s0 = v.shape_stride.stride.index(0);
    let s1 = v.shape_stride.stride.index(1);
    proof {
        assert forall|i: int, l: int| 0 <= i < rows && 0 <= l < cols implies valid_index(
            v.shape_spec(),
            #[trigger] seq![i, l],
        ) && dot(v.shape_stride.stride@, seq![i, l]) == s0 * i + s1 * l by {
            lemma_dot2(v.shape_stride.stride@, seq![i, l]);
        }
        if rows > 0 && cols > 0 {
            assert(valid_index(v.shape_spec(), seq![rows - 1, cols - 1]));
            assert(v.offset + dot(v.shape_stride.stride@, seq![rows - 1, cols - 1]) < v.data@.len());
        }
    }
    if s1 == 1 {
        proof {
            assert forall|i: int, l: int| 0 <= i < rows && 0 <= l < cols implies v.data@[#[trigger] mat_pos(
                BlasLayout::RowMajor,
                BlasTrans::Normal,
                v.offset as int,
                s0 as int,
                i,
                l,
            )] == v.at(seq![i, l]) by {
                assert(i * s0 == s0 * i) by (nonlinear_arith);
            }
            assert((rows - 1) * s0 == s0 * (rows - 1)) by (nonlinear_arith);
        }
        return (None, v.offset, s0, BlasTrans::Normal);
    }
    if s0 == 1 {
        proof {
            assert forall|i: int, l: int| 0 <= i < rows && 0 <= l < cols implies v.data@[#[trigger] mat_pos(
                BlasLayout::RowMajor,
                BlasTrans::Ordinary,
                v.offset as int,
                s1 as int,
                i,
                l,
            )] == v.at(seq![i, l]) by {
                assert(l * s1 == s1 * l) by (nonlinear_arith);
            }
            assert((cols - 1) * s1 == s1 * (cols - 1)) by (nonlinear_arith);
        }
        return (None, v.offset, s1, BlasTrans::Ordinary);
    }
    let dims = [rows, cols];
    proof {
        assert(dims@ =~= v.shape_spec());
    }
    let mut c: Matrix<T> = Matrix::zeros(&dims);
    proof {
        lemma_canonical_window(c.shape_stride);
    }
    copy(&mut c.data, 0, &c.shape_stride, v.data, v.offset, &v.shape_stride);
    proof {
        let cs = c.shape_stride.stride@;
        let sh = c.shape_stride.shape@;
        assert(cs[1] == canonical_stride(sh, 1));
        assert(sh.subrange(2, 2).len() == 0);
        assert(cs[0] == canonical_stride(sh, 0));
        assert(sh.subrange(1, 2).drop_first().len() == 0);
        assert(shape_size(sh.subrange(1, 2).drop_first()) == 1);
        assert(sh.subrange(1, 2)[0] == cols);
        assert(shape_size(sh.subrange(1, 2)) == cols * shape_size(sh.subrange(1, 2).drop_first()));
        assert(cs[0] == cols);
        assert(cs[1] == 1);
        assert forall|i: int, l: int| 0 <= i < rows && 0 <= l < cols implies c.data@[#[trigger] mat_pos(
            BlasLayout::RowMajor,
            BlasTrans::Normal,
            0,
            cols as int,
            i,
            l,
        )] == v.at(seq![i, l]) by {
            lemma_dot2(cs, seq![i, l]);
            assert(c.data@[0 + dot(cs, seq![i, l])] == v.data@[v.offset + dot(v.shape_stride.stride@, seq![i, l])]);
            assert(i * cols == cols * i) by (nonlinear_arith);
        }
        if rows > 0 && cols > 0 {
            lemma_dot2(cs, seq![rows - 1, cols - 1]);
            assert((rows - 1) * cols == cols * (rows - 1)) by (nonlinear_arith);
        }
    }
    (Some(c), 0, cols, BlasTrans::Normal)
}

/// `self = a * b`, the matrix product of two rank-2 views.
pub trait Gemm<A, B>: Sized {
    spec fn gemm_requires(&self, a: &A, b: &B) -> bool;

    fn gemm(self, a: A, b: B)
        requires
            self.gemm_requires(&a, &b),
    ;
}

impl<'a, 'b, 'c, T: Num> Gemm<MatrixView<'b, T>, MatrixView<'c, T>> for MatrixViewMut<'a, T> {
    open spec fn gemm_requires(&self, a: &MatrixView<'b, T>, b: &MatrixView<'c, T>) -> bool {
        &&& self.wf()
        &&& a.wf()
        &&& b.wf()
        &&& a.shape_spec().len() == 2
        &&& b.shape_spec().len() == 2
        &&& a.shape_spec()[1] == b.shape_spec()[0]
        &&& self.shape_spec() == seq![a.shape_spec()[0], b.shape_spec()[1]]
    }

    /// Element `(i, j)` becomes the sum over `l` of `a(i, l) * b(l, j)`, in
    /// the element arithmetic.
    fn gemm(self, a: MatrixView<'b, T>, b: MatrixView<'c, T>)
        ensures
            updated(
                final(self.data)@,
                old(self.data)@,
                self.shape_stride.shape@,
                self.shape_stride.stride@,
                self.offset as int,
                |idx: Seq<int>|
                    matmul_entry(
                        a.data@,
                        a.offset as int,
                        a.shape_stride.stride@,
                        b.data@,
                        b.offset as int,
                        b.shape_stride.stride@,
                        a.shape_spec()[1] as int,
                        idx[0],
                        idx[1],
                    ),
            ),
    {
        let s = self;
        let ghost start = s.data@;
        let m = a.shape_stride.shape.index(0);
        let k = a.shape_stride.shape.index(1);
        let n = b.shape_stride.shape.index(1);
        let (ca, aoff, lda, ta) = gemm_operand(&a);
        let (cb, boff, ldb, tb) = gemm_operand(&b);
        let abuf: &Vec<T> = match &ca {
            Some(c) => &c.data,
            None => a.data,
        };
        let bbuf: &Vec<T> = match &cb {
            Some(c) => &c.data,
            None => b.data,
        };
        let dims = [m, n];
        proof {
            assert(dims@ =~= s.shape_spec());
        }
        let mut out: Matrix<T> = Matrix::zeros(&dims);
        proof {
            lemma_canonical_window(out.shape_stride);
        }
        let ghost os = out.shape_stride.stride@;
        proof {
            let sh = out.shape_stride.shape@;
            assert(os[1] == canonical_stride(sh, 1));
            assert(sh.subrange(2, 2).len() == 0);
            assert(sh.len() == 2);
            assert(os[0] == canonical_stride(sh, 0));
            assert(canonical_stride(sh, 0) == shape_size(sh.subrange(1, 2)));
            assert(sh.subrange(1, 2).drop_first().len() == 0);
            assert(shape_size(sh.subrange(1, 2).drop_first()) == 1);
        assert(sh.subrange(1, 2)[0] == n);
        assert(shape_size(sh.subrange(1, 2)) == n * shape_size(sh.subrange(1, 2).drop_first()));
            assert(shape_size(sh.subrange(1, 2)) == n as nat * 1);
            assert(os[0] == n);
            assert(os[1] == 1);
            assert(sh.drop_first().drop_first().len() == 0);
            assert(out.data@.len() == m * n);
            if m > 0 && n > 0 {
                assert((m - 1) * n + (n - 1) < m * n) by (nonlinear_arith)
                    requires
                        m > 0,
                        n > 0,
                ;
            }
        }
        Cpu::gemm(
            BlasLayout::RowMajor,
            ta,
            tb,
            m,
            n,
            k,
            T::one(),
            abuf,
            aoff,
            lda,
            bbuf,
            boff,
            ldb,
            T::zero(),
            &mut out.data,
            0,
            n,
        );
        let ghost h = |idx: Seq<int>|
            matmul_entry(
                a.data@,
                a.offset as int,
                a.shape_stride.stride@,
                b.data@,
                b.offset as int,
                b.shape_stride.stride@,
                k as int,
                idx[0],
                idx[1],
            );
        proof {
            T::lemma_identities();
            assert forall|i: int, j: int| 0 <= i < m && 0 <= j < n implies out.data@[#[trigger] mat_pos(
                BlasLayout::RowMajor,
                BlasTrans::Normal,
                0,
                n as int,
                i,
                j,
            )] == h(seq![i, j]) by {
                let f = product_term(BlasLayout::RowMajor, ta, tb, abuf@, aoff as int, lda as int, bbuf@, boff as int, ldb as int, i, j);
                let g = |l: int|
                    T::times_spec(
                        a.data@[a.offset + a.shape_stride.stride@[0] * i + a.shape_stride.stride@[1] * l],
                        b.data@[b.offset + b.shape_stride.stride@[0] * l + b.shape_stride.stride@[1] * j],
                    );
                assert forall|l: int| 0 <= l < k implies #[trigger] f(l) == g(l) by {
                    lemma_dot2(a.shape_stride.stride@, seq![i, l]);
                    lemma_dot2(b.shape_stride.stride@, seq![l, j]);
                    assert(abuf@[mat_pos(BlasLayout::RowMajor, ta, aoff as int, lda as int, i, l)] == a.at(seq![i, l]));
                    assert(bbuf@[mat_pos(BlasLayout::RowMajor, tb, boff as int, ldb as int, l, j)] == b.at(seq![l, j]));
                }
                lemma_sum_terms_ext(f, g, k as int);
                assert(product_entry(BlasLayout::RowMajor, ta, tb, k as int, abuf@, aoff as int, lda as int, bbuf@, boff as int, ldb as int, i, j) == sum_terms(f, k as int));
                assert(seq![i, j][0] == i && seq![i, j][1] == j);
            }
        }
        let ghost before = out.data@;
        copy(s.data, s.offset, &s.shape_stride, &out.data, 0, &out.shape_stride);
        proof {
            let f = |idx: Seq<int>| before[0 + dot(os, idx)];
            assert forall|idx: Seq<int>| valid_index(s.shape_spec(), idx) implies #[trigger] f(idx) == h(idx) by {
                lemma_dot2(os, idx);
                assert(idx =~= seq![idx[0], idx[1]]);
                assert(idx[0] * n == n * idx[0]) by (nonlinear_arith);
                assert(before[mat_pos(BlasLayout::RowMajor, BlasTrans::Normal, 0, n as int, idx[0], idx[1])] == h(seq![idx[0], idx[1]]));
            }
            lemma_updated_ext(s.data@, start, s.shape_stride.shape@, s.shape_stride.stride@, s.offset as int, f, h);
        }
    }
}

} // verus!
