//! The BLAS capability: the primitive kernels the engines route their inner
//! loops through, and a CPU implementation of them in plain loops.
use vstd::prelude::*;
use crate::num::Num;

verus! {

/// How a matrix operand of `gemm` is read.
#[derive(Clone, Copy, Debug, PartialEq, Eq, Structural)]
pub enum BlasTrans {
    Normal,
    Ordinary,
    Conjugate,
}

/// Storage order of the matrix operands of `gemm`.
#[derive(Clone, Copy, Debug, PartialEq, Eq, Structural)]
pub enum BlasLayout {
    RowMajor,
    ColMajor,
}

/// Position of the `j`-th element of a vector stored from `off` with increment `inc`.
pub open spec fn grid_pos(off: int, inc: int, j: int) -> int {
    off + j * inc
}

/// Position `p` is one of the first `n` elements of that vector.
pub open spec fn on_grid(p: int, off: int, inc: int, n: int) -> bool {
    exists|j: int| 0 <= j < n && p == #[trigger] grid_pos(off, inc, j)
}

/// A vector of `n` elements from `off` with increment `inc` lies within `len`.
pub open spec fn vector_in(n: int, off: int, inc: int, len: int) -> bool {
    n > 0 ==> grid_pos(off, inc, n - 1) < len
}

/// A vector lies within `len` and its elements occupy distinct positions.
pub open spec fn vector_ok(n: int, off: int, inc: int, len: int) -> bool {
    &&& vector_in(n, off, inc, len)
    &&& inc > 0 || n <= 1
}

/// Position of element `(r, c)` of `op(A)`, where `A` is stored from `off`
/// with leading dimension `ld`; a transposed operand reads `A(c, r)`.
pub open spec fn mat_pos(layout: BlasLayout, trans: BlasTrans, off: int, ld: int, r: int, c: int) -> int {
    let (a, b) = if trans == BlasTrans::Normal {
        (r, c)
    } else {
        (c, r)
    };
    match layout {
        BlasLayout::RowMajor => off + a * ld + b,
        BlasLayout::ColMajor => off + b * ld + a,
    }
}

/// `f(0) + f(1) + ... + f(k - 1)`, added from the left, in the element arithmetic.
pub open spec fn sum_terms<T: Num>(f: spec_fn(int) -> T, k: int) -> T
    decreases k,
{
    if k <= 0 {
        T::zero_spec()
    } else {
        T::plus_spec(sum_terms(f, k - 1), f(k - 1))
    }
}

/// The terms `A(i, l) * B(l, j)` of element `(i, j)` of `op(A) * op(B)`.
pub open spec fn product_term<T: Num>(
    layout: BlasLayout,
    transa: BlasTrans,
    transb: BlasTrans,
    a: Seq<T>,
    aoff: int,
    lda: int,
    b: Seq<T>,
    boff: int,
    ldb: int,
    i: int,
    j: int,
) -> spec_fn(int) -> T {
    |l: int|
        T::times_spec(
            a[mat_pos(layout, transa, aoff, lda, i, l)],
            b[mat_pos(layout, transb, boff, ldb, l, j)],
        )
}

/// Element `(i, j)` of `op(A) * op(B)` for an inner dimension `k`.
pub open spec fn product_entry<T: Num>(
    layout: BlasLayout,
    transa: BlasTrans,
    transb: BlasTrans,
    k: int,
    a: Seq<T>,
    aoff: int,
    lda: int,
    b: Seq<T>,
    boff: int,
    ldb: int,
    i: int,
    j: int,
) -> T {
    sum_terms(product_term(layout, transa, transb, a, aoff, lda, b, boff, ldb, i, j), k)
}

/// The `m` by `n` positions of `C` are within `len` and pairwise distinct.
pub open spec fn c_ok(layout: BlasLayout, m: int, n: int, off: int, ld: int, len: int) -> bool {
    &&& m > 0 && n > 0 ==> mat_pos(layout, BlasTrans::Normal, off, ld, m - 1, n - 1) < len
    &&& match layout {
        BlasLayout::RowMajor => m <= 1 || n <= ld,
        BlasLayout::ColMajor => n <= 1 || m <= ld,
    }
}

/// The `rows` by `cols` positions of `op(A)` are within `len`.
pub open spec fn operand_ok(
    layout: BlasLayout,
    trans: BlasTrans,
    rows: int,
    cols: int,
    off: int,
    ld: int,
    len: int,
) -> bool {
    &&& ld >= 0
    &&& rows > 0 && cols > 0 ==> mat_pos(layout, trans, off, ld, rows - 1, cols - 1) < len
}

/// The primitive kernels, on buffers addressed by offset, count and increment.
pub trait Blas<T: Num> {
    /// `y[j] = x[j]` for the first `n` elements of both vectors.
    fn copy(n: usize, x: &Vec<T>, xoff: usize, incx: usize, y: &mut Vec<T>, yoff: usize, incy: usize)
        requires
            vector_in(n as int, xoff as int, incx as int, x@.len() as int),
            vector_ok(n as int, yoff as int, incy as int, old(y)@.len() as int),
        ensures
            final(y)@.len() == old(y)@.len(),
            forall|j: int|
                0 <= j < n ==> final(y)@[#[trigger] grid_pos(yoff as int, incy as int, j)]
                    == x@[grid_pos(xoff as int, incx as int, j)],
            forall|p: int|
                0 <= p < old(y)@.len() && !on_grid(p, yoff as int, incy as int, n as int)
                    ==> #[trigger] final(y)@[p] == old(y)@[p],
    ;

    /// `x[j] = alpha * x[j]` for the first `n` elements.
    fn scal(n: usize, alpha: T, x: &mut Vec<T>, xoff: usize, incx: usize)
        requires
            vector_ok(n as int, xoff as int, incx as int, old(x)@.len() as int),
        ensures
            final(x)@.len() == old(x)@.len(),
            forall|j: int|
                0 <= j < n ==> final(x)@[#[trigger] grid_pos(xoff as int, incx as int, j)]
                    == T::times_spec(alpha, old(x)@[grid_pos(xoff as int, incx as int, j)]),
            forall|p: int|
                0 <= p < old(x)@.len() && !on_grid(p, xoff as int, incx as int, n as int)
                    ==> #[trigger] final(x)@[p] == old(x)@[p],
    ;

    /// `C = alpha * op(A) * op(B) + beta * C` with `op(A)` of `m` by `k` and
    /// `op(B)` of `k` by `n`.
    fn gemm(
        layout: BlasLayout,
        transa: BlasTrans,
        transb: BlasTrans,
        m: usize,
        n: usize,
        k: usize,
        alpha: T,
        a: &Vec<T>,
        aoff: usize,
        lda: usize,
        b: &Vec<T>,
        boff: usize,
        ldb: usize,
        beta: T,
        c: &mut Vec<T>,
        coff: usize,
        ldc: usize,
    )
        requires
            operand_ok(layout, transa, m as int, k as int, aoff as int, lda as int, a@.len() as int),
            operand_ok(layout, transb, k as int, n as int, boff as int, ldb as int, b@.len() as int),
            c_ok(layout, m as int, n as int, coff as int, ldc as int, old(c)@.len() as int),
        ensures
            final(c)@.len() == old(c)@.len(),
            forall|i: int, j: int|
                0 <= i < m && 0 <= j < n ==> final(c)@[#[trigger] mat_pos(
                    layout,
                    BlasTrans::Normal,
                    coff as int,
                    ldc as int,
                    i,
                    j,
                )] == T::plus_spec(
                    T::times_spec(
                        alpha,
                        product_entry(
                            layout,
                            transa,
                            transb,
                            k as int,
                            a@,
                            aoff as int,
                            lda as int,
                            b@,
                            boff as int,
                            ldb as int,
                            i,
                            j,
                        ),
                    ),
                    T::times_spec(beta, old(c)@[mat_pos(layout, BlasTrans::Normal, coff as int, ldc as int, i, j)]),
                ),
            forall|p: int|
                0 <= p < old(c)@.len() && (forall|i: int, j: int|
                    0 <= i < m && 0 <= j < n ==> p != #[trigger] mat_pos(
                        layout,
                        BlasTrans::Normal,
                        coff as int,
                        ldc as int,
                        i,
                        j,
                    )) ==> #[trigger] final(c)@[p] == old(c)@[p],
    ;
}

/// The device-level copy kernel.
pub trait CopyBlas {
    fn copy_raw<T: Num>(
        n: usize,
        x: &Vec<T>,
        xoff: usize,
        incx: usize,
        y: &mut Vec<T>,
        yoff: usize,
        incy: usize,
    )
        requires
            vector_in(n as int, xoff as int, incx as int, x@.len() as int),
            vector_ok(n as int, yoff as int, incy as int, old(y)@.len() as int),
        ensures
            final(y)@.len() == old(y)@.len(),
            forall|j: int|
                0 <= j < n ==> final(y)@[#[trigger] grid_pos(yoff as int, incy as int, j)]
                    == x@[grid_pos(xoff as int, incx as int, j)],
            forall|p: int|
                0 <= p < old(y)@.len() && !on_grid(p, yoff as int, incy as int, n as int)
                    ==> #[trigger] final(y)@[p] == old(y)@[p],
    ;
}

/// The CPU backend.
pub struct Cpu;

proof fn lemma_grid_monotone(off: int, inc: int, j: int, n: int)
    requires
        0 <= j < n,
        inc >= 0,
    ensures
        off <= grid_pos(off, inc, j) <= grid_pos(off, inc, n - 1),
{
    assert(0 <= j * inc <= (n - 1) * inc) by (nonlinear_arith)
        requires
            0 <= j < n,
            inc >= 0,
    ;
}

proof fn lemma_grid_distinct(off: int, inc: int, i: int, j: int)
    requires
        0 <= i < j,
        inc > 0,
    ensures
        grid_pos(off, inc, i) < grid_pos(off, inc, j),
{
    assert(i * inc < j * inc) by (nonlinear_arith)
        requires
            0 <= i < j,
            inc > 0,
    ;
}

impl CopyBlas for Cpu {
    fn copy_raw<T: Num>(
        n: usize,
        x: &Vec<T>,
        xoff: usize,
        incx: usize,
        y: &mut Vec<T>,
        yoff: usize,
        incy: usize,
    ) {
        let xl = x.len();
        let yl = y.len();
        let mut i: usize = 0;
        while i < n
            invariant
                0 <= i <= n,
                xl == x@.len(),
                yl == old(y)@.len(),
                vector_in(n as int, xoff as int, incx as int, x@.len() as int),
                vector_ok(n as int, yoff as int, incy as int, old(y)@.len() as int),
                y@.len() == old(y)@.len(),
                forall|j: int|
                    0 <= j < i ==> y@[#[trigger] grid_pos(yoff as int, incy as int, j)] == x@[grid_pos(
                        xoff as int,
                        incx as int,
                        j,
                    )],
                forall|p: int|
                    0 <= p < old(y)@.len() && !on_grid(p, yoff as int, incy as int, i as int)
                        ==> #[trigger] y@[p] == old(y)@[p],
            decreases n - i,
        {
            proof {
                lemma_grid_monotone(xoff as int, incx as int, i as int, n as int);
                lemma_grid_monotone(yoff as int, incy as int, i as int, n as int);
            }
            let xi = xoff + i * incx;
            let yi = yoff + i * incy;
            let v = x[xi];
            let ghost before = y@;
            y.set(yi, v);
            proof {
                assert forall|j: int| 0 <= j < i + 1 implies y@[#[trigger] grid_pos(
                    yoff as int,
                    incy as int,
                    j,
                )] == x@[grid_pos(xoff as int, incx as int, j)] by {
                    if j < i {
                        lemma_grid_distinct(yoff as int, incy as int, j, i as int);
                    }
                }
                assert forall|p: int|
                    0 <= p < old(y)@.len() && !on_grid(
                        p,
                        yoff as int,
                        incy as int,
                        i + 1,
                    ) implies #[trigger] y@[p] == old(y)@[p] by {
                    assert(p != grid_pos(yoff as int, incy as int, i as int));
                    if on_grid(p, yoff as int, incy as int, i as int) {
                        let j = choose|j: int| 0 <= j < i && p == #[trigger] grid_pos(yoff as int, incy as int, j);
                        assert(on_grid(p, yoff as int, incy as int, i + 1));
                    }
                }
            }
            i += 1;
        }
    }
}

proof fn lemma_mat_pos_monotone(
    layout: BlasLayout,
    trans: BlasTrans,
    off: int,
    ld: int,
    r: int,
    c: int,
    rows: int,
    cols: int,
)
    requires
        0 <= r < rows,
        0 <= c < cols,
        ld >= 0,
    ensures
        off <= mat_pos(layout, trans, off, ld, r, c) <= mat_pos(layout, trans, off, ld, rows - 1, cols - 1),
{
    assert(0 <= r * ld <= (rows - 1) * ld) by (nonlinear_arith)
        requires
            0 <= r < rows,
            ld >= 0,
    ;
    assert(0 <= c * ld <= (cols - 1) * ld) by (nonlinear_arith)
        requires
            0 <= c < cols,
            ld >= 0,
    ;
}

proof fn lemma_c_distinct(layout: BlasLayout, m: int, n: int, off: int, ld: int, len: int, i1: int, j1: int, i2: int, j2: int)
    requires
        c_ok(layout, m, n, off, ld, len),
        0 <= i1 < m,
        0 <= i2 < m,
        0 <= j1 < n,
        0 <= j2 < n,
        i1 != i2 || j1 != j2,
    ensures
        mat_pos(layout, BlasTrans::Normal, off, ld, i1, j1) != mat_pos(layout, BlasTrans::Normal, off, ld, i2, j2),
{
    match layout {
        BlasLayout::RowMajor => {
            if i1 != i2 {
                assert(i1 * ld + j1 != i2 * ld + j2) by (nonlinear_arith)
                    requires
                        i1 != i2,
                        0 <= j1 < n <= ld,
                        0 <= j2 < n,
                        0 <= i1,
                        0 <= i2,
                ;
            }
        },
        BlasLayout::ColMajor => {
            if j1 != j2 {
                assert(j1 * ld + i1 != j2 * ld + i2) by (nonlinear_arith)
                    requires
                        j1 != j2,
                        0 <= i1 < m <= ld,
                        0 <= i2 < m,
                        0 <= j1,
                        0 <= j2,
                ;
            }
        },
    }
}

fn mat_index(layout: BlasLayout, trans: BlasTrans, off: usize, ld: usize, r: usize, c: usize, len: usize) -> (p: usize)
    requires
        mat_pos(layout, trans, off as int, ld as int, r as int, c as int) < len,
    ensures
        p == mat_pos(layout, trans, off as int, ld as int, r as int, c as int),
{
    let (a, b) = if trans == BlasTrans::Normal {
        (r, c)
    } else {
        (c, r)
    };
    assert(0 <= a * ld) by (nonlinear_arith)
        requires
            a >= 0,
            ld >= 0,
    ;
    assert(0 <= b * ld) by (nonlinear_arith)
        requires
            b >= 0,
            ld >= 0,
    ;
    match layout {
        BlasLayout::RowMajor => off + a * ld + b,
        BlasLayout::ColMajor => off + b * ld + a,
    }
}

impl<T: Num> Blas<T> for Cpu {
    fn copy(n: usize, x: &Vec<T>, xoff: usize, incx: usize, y: &mut Vec<T>, yoff: usize, incy: usize) {
        Cpu::copy_raw(n, x, xoff, incx, y, yoff, incy);
    }

    fn scal(n: usize, alpha: T, x: &mut Vec<T>, xoff: usize, incx: usize) {
        let xl = x.len();
        let mut i: usize = 0;
        while i < n
            invariant
                0 <= i <= n,
                xl == old(x)@.len(),
                vector_ok(n as int, xoff as int, incx as int, old(x)@.len() as int),
                x@.len() == old(x)@.len(),
                forall|j: int|
                    0 <= j < i ==> x@[#[trigger] grid_pos(xoff as int, incx as int, j)] == T::times_spec(
                        alpha,
                        old(x)@[grid_pos(xoff as int, incx as int, j)],
                    ),
                forall|p: int|
                    0 <= p < old(x)@.len() && !on_grid(p, xoff as int, incx as int, i as int)
                        ==> #[trigger] x@[p] == old(x)@[p],
            decreases n - i,
        {
            proof {
                lemma_grid_monotone(xoff as int, incx as int, i as int, n as int);
            }
            let xi = xoff + i * incx;
            proof {
                if on_grid(xi as int, xoff as int, incx as int, i as int) {
                    let j = choose|j: int| 0 <= j < i && xi == #[trigger] grid_pos(xoff as int, incx as int, j);
                    lemma_grid_distinct(xoff as int, incx as int, j, i as int);
                }
            }
            let v = alpha.times(x[xi]);
            x.set(xi, v);
            proof {
                assert forall|j: int| 0 <= j < i + 1 implies x@[#[trigger] grid_pos(
                    xoff as int,
                    incx as int,
                    j,
                )] == T::times_spec(alpha, old(x)@[grid_pos(xoff as int, incx as int, j)]) by {
                    if j < i {
                        lemma_grid_distinct(xoff as int, incx as int, j, i as int);
                    }
                }
                assert forall|p: int|
                    0 <= p < old(x)@.len() && !on_grid(
                        p,
                        xoff as int,
                        incx as int,
                        i + 1,
                    ) implies #[trigger] x@[p] == old(x)@[p] by {
                    assert(p != grid_pos(xoff as int, incx as int, i as int));
                    if on_grid(p, xoff as int, incx as int, i as int) {
                        let j = choose|j: int| 0 <= j < i && p == #[trigger] grid_pos(xoff as int, incx as int, j);
                        assert(on_grid(p, xoff as int, incx as int, i + 1));
                    }
                }
            }
            i += 1;
        }
    }

    fn gemm(
        layout: BlasLayout,
        transa: BlasTrans,
        transb: BlasTrans,
        m: usize,
        n: usize,
        k: usize,
        alpha: T,
        a: &Vec<T>,
        aoff: usize,
        lda: usize,
        b: &Vec<T>,
        boff: usize,
        ldb: usize,
        beta: T,
        c: &mut Vec<T>,
        coff: usize,
        ldc: usize,
    ) {
        let al = a.len();
        let bl = b.len();
        let cl = c.len();
        let mut i: usize = 0;
        while i < m
            invariant
                0 <= i <= m,
                al == a@.len(),
                bl == b@.len(),
                cl == old(c)@.len(),
                operand_ok(layout, transa, m as int, k as int, aoff as int, lda as int, a@.len() as int),
                operand_ok(layout, transb, k as int, n as int, boff as int, ldb as int, b@.len() as int),
                c_ok(layout, m as int, n as int, coff as int, ldc as int, old(c)@.len() as int),
                c@.len() == old(c)@.len(),
                forall|i2: int, j2: int| 0 <= i2 < i && 0 <= j2 < n ==> c@[#[trigger] mat_pos(layout, BlasTrans::Normal, coff as int, ldc as int, i2, j2)] == T::plus_spec(T::times_spec(alpha, product_entry(layout, transa, transb, k as int, a@, aoff as int, lda as int, b@, boff as int, ldb as int, i2, j2)), T::times_spec(beta, old(c)@[mat_pos(layout, BlasTrans::Normal, coff as int, ldc as int, i2, j2)])),
                forall|p: int|
                    0 <= p < old(c)@.len() && (forall|i2: int, j2: int|
                        0 <= i2 < i && 0 <= j2 < n ==> p != #[trigger] mat_pos(layout, BlasTrans::Normal, coff as int, ldc as int, i2, j2)) ==> #[trigger] c@[p] == old(c)@[p],
            decreases m - i,
        {
            let mut j: usize = 0;
            while j < n
                invariant
                    0 <= i < m,
                    0 <= j <= n,
                    al == a@.len(),
                    bl == b@.len(),
                    cl == old(c)@.len(),
                    operand_ok(layout, transa, m as int, k as int, aoff as int, lda as int, a@.len() as int),
                    operand_ok(layout, transb, k as int, n as int, boff as int, ldb as int, b@.len() as int),
                    c_ok(layout, m as int, n as int, coff as int, ldc as int, old(c)@.len() as int),
                    c@.len() == old(c)@.len(),
                    forall|i2: int, j2: int|
                        0 <= i2 < m && 0 <= j2 < n && (i2 < i || (i2 == i && j2 < j)) ==> c@[#[trigger] mat_pos(layout, BlasTrans::Normal, coff as int, ldc as int, i2, j2)] == T::plus_spec(T::times_spec(alpha, product_entry(layout, transa, transb, k as int, a@, aoff as int, lda as int, b@, boff as int, ldb as int, i2, j2)), T::times_spec(beta, old(c)@[mat_pos(layout, BlasTrans::Normal, coff as int, ldc as int, i2, j2)])),
                    forall|p: int|
                        0 <= p < old(c)@.len() && (forall|i2: int, j2: int|
                            0 <= i2 < m && 0 <= j2 < n && (i2 < i || (i2 == i && j2 < j)) ==> p != #[trigger] mat_pos(layout, BlasTrans::Normal, coff as int, ldc as int, i2, j2))
                            ==> #[trigger] c@[p] == old(c)@[p],
                decreases n - j,
            {
                let ghost f = product_term(layout, transa, transb, a@, aoff as int, lda as int, b@, boff as int, ldb as int, i as int, j as int);
                let mut acc = T::zero();
                let mut l: usize = 0;
                while l < k
                    invariant
                        0 <= i < m,
                        0 <= j < n,
                        0 <= l <= k,
                        al == a@.len(),
                        bl == b@.len(),
                        operand_ok(layout, transa, m as int, k as int, aoff as int, lda as int, a@.len() as int),
                        operand_ok(layout, transb, k as int, n as int, boff as int, ldb as int, b@.len() as int),
                        f == product_term(layout, transa, transb, a@, aoff as int, lda as int, b@, boff as int, ldb as int, i as int, j as int),
                        acc == sum_terms(f, l as int),
                    decreases k - l,
                {
                    proof {
                        lemma_mat_pos_monotone(layout, transa, aoff as int, lda as int, i as int, l as int, m as int, k as int);
                        lemma_mat_pos_monotone(layout, transb, boff as int, ldb as int, l as int, j as int, k as int, n as int);
                    }
                    let pa = mat_index(layout, transa, aoff, lda, i, l, al);
                    let pb = mat_index(layout, transb, boff, ldb, l, j, bl);
                    assert(f(l as int) == T::times_spec(a@[pa as int], b@[pb as int]));
                    acc = acc.plus(a[pa].times(b[pb]));
                    assert(sum_terms(f, l + 1) == T::plus_spec(sum_terms(f, l as int), f(l as int)));
                    l += 1;
                }
                proof {
                    lemma_mat_pos_monotone(layout, BlasTrans::Normal, coff as int, ldc as int, i as int, j as int, m as int, n as int);
                }
                let pc = mat_index(layout, BlasTrans::Normal, coff, ldc, i, j, cl);
                proof {
                    assert forall|i2: int, j2: int|
                        0 <= i2 < m && 0 <= j2 < n && (i2 < i || (i2 == i && j2 < j)) implies pc != #[trigger] mat_pos(layout, BlasTrans::Normal, coff as int, ldc as int, i2, j2) by {
                        lemma_c_distinct(layout, m as int, n as int, coff as int, ldc as int, old(c)@.len() as int, i as int, j as int, i2, j2);
                    }
                    assert(c@[pc as int] == old(c)@[pc as int]);
                }
                let cold = c[pc];
                let v = alpha.times(acc).plus(beta.times(cold));
                let ghost before = c@;
                c.set(pc, v);
                proof {
                    assert forall|i2: int, j2: int|
                        0 <= i2 < m && 0 <= j2 < n && (i2 < i || (i2 == i && j2 < j + 1)) implies c@[#[trigger] mat_pos(layout, BlasTrans::Normal, coff as int, ldc as int, i2, j2)] == T::plus_spec(T::times_spec(alpha, product_entry(layout, transa, transb, k as int, a@, aoff as int, lda as int, b@, boff as int, ldb as int, i2, j2)), T::times_spec(beta, old(c)@[mat_pos(layout, BlasTrans::Normal, coff as int, ldc as int, i2, j2)])) by {
                        if i2 == i && j2 == j {
                            assert(acc == product_entry(layout, transa, transb, k as int, a@, aoff as int, lda as int, b@, boff as int, ldb as int, i2, j2));
                            assert(c@[pc as int] == v);
                        } else {
                            lemma_c_distinct(layout, m as int, n as int, coff as int, ldc as int, old(c)@.len() as int, i as int, j as int, i2, j2);
                            lemma_mat_pos_monotone(layout, BlasTrans::Normal, coff as int, ldc as int, i2, j2, m as int, n as int);
                            assert(before[mat_pos(layout, BlasTrans::Normal, coff as int, ldc as int, i2, j2)] == T::plus_spec(T::times_spec(alpha, product_entry(layout, transa, transb, k as int, a@, aoff as int, lda as int, b@, boff as int, ldb as int, i2, j2)), T::times_spec(beta, old(c)@[mat_pos(layout, BlasTrans::Normal, coff as int, ldc as int, i2, j2)])));
                        }
                    }
                    assert forall|p: int|
                        0 <= p < old(c)@.len() && (forall|i2: int, j2: int|
                            0 <= i2 < m && 0 <= j2 < n && (i2 < i || (i2 == i && j2 < j + 1)) ==> p != #[trigger] mat_pos(layout, BlasTrans::Normal, coff as int, ldc as int, i2, j2))
                        implies #[trigger] c@[p] == old(c)@[p] by {
                        assert(p != mat_pos(layout, BlasTrans::Normal, coff as int, ldc as int, i as int, j as int));
                    }
                }
                j += 1;
            }
            i += 1;
        }
    }
}

} // verus!
