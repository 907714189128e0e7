//! The shape/stride descriptor and the mathematics of strided layouts.
//!
//! An array of rank `r` with shape `s`, strides `t` and base offset `o` keeps
//! the element at multi-index `idx` (with `idx[i] < s[i]`) at buffer position
//! `o + sum_i idx[i] * t[i]`.
use vstd::prelude::*;
use crate::dim::DimDyn;
use crate::layout::fits;
use vstd::multiset::Multiset;

verus! {

/// `idx` addresses an element of an array of shape `shape`.
pub open spec fn valid_index(shape: Seq<usize>, idx: Seq<int>) -> bool {
    &&& idx.len() == shape.len()
    &&& forall|i: int| 0 <= i < idx.len() ==> 0 <= #[trigger] idx[i] < shape[i] as int
}

/// The element offset of `idx` under `stride`.
pub open spec fn dot(stride: Seq<usize>, idx: Seq<int>) -> int
    decreases idx.len(),
{
    if idx.len() == 0 {
        0
    } else {
        stride[0] * idx[0] + dot(stride.drop_first(), idx.drop_first())
    }
}

/// The number of elements of an array of shape `shape` (1 for rank 0).
pub open spec fn shape_size(shape: Seq<usize>) -> nat
    decreases shape.len(),
{
    if shape.len() == 0 {
        1
    } else {
        shape[0] as nat * shape_size(shape.drop_first())
    }
}

/// The row-major rank of `idx` among the indices of `shape`.
pub open spec fn flat(shape: Seq<usize>, idx: Seq<int>) -> int
    decreases idx.len(),
{
    if idx.len() == 0 {
        0
    } else {
        idx[0] * shape_size(shape.drop_first()) + flat(shape.drop_first(), idx.drop_first())
    }
}

/// The canonical row-major stride of axis `i`: the product of the later extents.
pub open spec fn canonical_stride(shape: Seq<usize>, i: int) -> nat {
    shape_size(shape.subrange(i + 1, shape.len() as int))
}

/// The strides are the canonical row-major strides of the shape.
pub open spec fn contiguous(shape: Seq<usize>, stride: Seq<usize>) -> bool {
    &&& stride.len() == shape.len()
    &&& forall|i: int| 0 <= i < shape.len() ==> #[trigger] stride[i] == canonical_stride(shape, i)
}

/// Every canonical stride of the shape fits in a `usize`.
pub open spec fn strides_fit(shape: Seq<usize>) -> bool {
    forall|i: int| 0 <= i < shape.len() ==> #[trigger] canonical_stride(shape, i) <= usize::MAX
}

/// The largest offset any index reaches: `sum_i (shape[i] - 1) * stride[i]`.
pub open spec fn max_dot(shape: Seq<usize>, stride: Seq<usize>) -> int
    decreases shape.len(),
{
    if shape.len() == 0 {
        0
    } else {
        (shape[0] - 1) * stride[0] + max_dot(shape.drop_first(), stride.drop_first())
    }
}

/// `lo` has the shape of the trailing axes of `hi` (right-aligned broadcast).
pub open spec fn includes(hi: Seq<usize>, lo: Seq<usize>) -> bool {
    &&& lo.len() <= hi.len()
    &&& lo == hi.subrange(hi.len() - lo.len(), hi.len() as int)
}

/// The trailing `n` entries of `idx`.
pub open spec fn suffix(idx: Seq<int>, n: nat) -> Seq<int> {
    idx.subrange(idx.len() - n, idx.len() as int)
}

/// `seq![i] + rest`.
pub open spec fn cons(i: int, rest: Seq<int>) -> Seq<int> {
    seq![i].add(rest)
}

pub proof fn lemma_cons(shape: Seq<usize>, stride: Seq<usize>, i: int, rest: Seq<int>)
    requires
        shape.len() >= 1,
        stride.len() == shape.len(),
    ensures
        cons(i, rest).drop_first() == rest,
        cons(i, rest)[0] == i,
        cons(i, rest).len() == rest.len() + 1,
        dot(stride, cons(i, rest)) == stride[0] * i + dot(stride.drop_first(), rest),
        valid_index(shape, cons(i, rest)) <==> (0 <= i < shape[0] && valid_index(
            shape.drop_first(),
            rest,
        )),
{
    let c = cons(i, rest);
    assert(c.drop_first() =~= rest);
    if valid_index(shape.drop_first(), rest) && 0 <= i < shape[0] {
        assert forall|j: int| 0 <= j < c.len() implies 0 <= #[trigger] c[j] < shape[j] as int by {
            if j > 0 {
                assert(c[j] == rest[j - 1]);
            }
        }
    }
    if valid_index(shape, c) {
        assert(0 <= c[0] < shape[0]);
        assert forall|j: int| 0 <= j < rest.len() implies 0 <= #[trigger] rest[j]
            < shape.drop_first()[j] as int by {
            assert(rest[j] == c[j + 1]);
        }
    }
}

/// Any index splits as its first entry followed by the rest.
pub proof fn lemma_uncons(shape: Seq<usize>, idx: Seq<int>)
    requires
        valid_index(shape, idx),
        idx.len() >= 1,
    ensures
        idx == cons(idx[0], idx.drop_first()),
        valid_index(shape.drop_first(), idx.drop_first()),
        0 <= idx[0] < shape[0],
{
    assert(idx =~= cons(idx[0], idx.drop_first()));
    assert(0 <= idx[0] < shape[0]);
    assert forall|j: int| 0 <= j < idx.drop_first().len() implies 0 <= #[trigger] idx.drop_first()[j]
        < shape.drop_first()[j] as int by {
        assert(idx.drop_first()[j] == idx[j + 1]);
    }
}

/// Every valid index reaches an offset between zero and `max_dot`.
pub proof fn lemma_dot_bounds(shape: Seq<usize>, stride: Seq<usize>, idx: Seq<int>)
    requires
        valid_index(shape, idx),
        stride.len() == shape.len(),
    ensures
        0 <= dot(stride, idx) <= max_dot(shape, stride),
    decreases idx.len(),
{
    if idx.len() > 0 {
        lemma_uncons(shape, idx);
        lemma_dot_bounds(shape.drop_first(), stride.drop_first(), idx.drop_first());
        assert(0 <= stride[0] * idx[0] <= stride[0] * (shape[0] - 1)) by (nonlinear_arith)
            requires
                0 <= idx[0] <= shape[0] - 1,
                0 <= stride[0],
        ;
    }
}

/// The index of all last entries reaches `max_dot`.
pub proof fn lemma_max_index(shape: Seq<usize>, stride: Seq<usize>) -> (idx: Seq<int>)
    requires
        stride.len() == shape.len(),
        forall|i: int| 0 <= i < shape.len() ==> #[trigger] shape[i] >= 1,
    ensures
        valid_index(shape, idx),
        dot(stride, idx) == max_dot(shape, stride),
        forall|i: int| 0 <= i < idx.len() ==> #[trigger] idx[i] == shape[i] - 1,
    decreases shape.len(),
{
    if shape.len() == 0 {
        Seq::empty()
    } else {
        assert forall|i: int| 0 <= i < shape.drop_first().len() implies #[trigger] shape.drop_first()[i]
            >= 1 by {
            assert(shape.drop_first()[i] == shape[i + 1]);
        }
        let rest = lemma_max_index(shape.drop_first(), stride.drop_first());
        lemma_cons(shape, stride, shape[0] - 1, rest);
        let c = cons(shape[0] - 1, rest);
        assert forall|i: int| 0 <= i < c.len() implies #[trigger] c[i] == shape[i] - 1 by {
            if i > 0 {
                assert(c[i] == rest[i - 1]);
            }
        }
        c
    }
}

/// The size is zero exactly when some extent is zero.
pub proof fn lemma_size_zero(shape: Seq<usize>)
    ensures
        (shape_size(shape) == 0) <==> (exists|i: int| 0 <= i < shape.len() && #[trigger] shape[i] == 0),
    decreases shape.len(),
{
    if shape.len() > 0 {
        lemma_size_zero(shape.drop_first());
        if shape_size(shape) == 0 {
            assert(shape[0] as nat * shape_size(shape.drop_first()) == 0);
            if shape[0] != 0 {
                vstd::arithmetic::mul::lemma_mul_nonzero(shape[0] as int, shape_size(shape.drop_first()) as int);
                let j = choose|j: int| 0 <= j < shape.drop_first().len() && #[trigger] shape.drop_first()[j] == 0;
                assert(shape[j + 1] == 0);
            }
        }
        if exists|i: int| 0 <= i < shape.len() && #[trigger] shape[i] == 0 {
            let i = choose|i: int| 0 <= i < shape.len() && #[trigger] shape[i] == 0;
            if i > 0 {
                assert(shape.drop_first()[i - 1] == 0);
            }
            assert(shape[0] as nat * shape_size(shape.drop_first()) == 0) by (nonlinear_arith)
                requires
                    shape[0] == 0 || shape_size(shape.drop_first()) == 0,
            ;
        }
    } else {
        assert(shape_size(shape) == 1);
    }
}

/// The row-major rank of a valid index is below the size.
pub proof fn lemma_flat_bound(shape: Seq<usize>, idx: Seq<int>)
    requires
        valid_index(shape, idx),
    ensures
        0 <= flat(shape, idx) < shape_size(shape),
    decreases idx.len(),
{
    if idx.len() > 0 {
        lemma_uncons(shape, idx);
        let m = shape_size(shape.drop_first()) as int;
        lemma_flat_bound(shape.drop_first(), idx.drop_first());
        let r = flat(shape.drop_first(), idx.drop_first());
        assert(0 <= idx[0] * m + r < shape[0] * m) by (nonlinear_arith)
            requires
                0 <= idx[0] < shape[0],
                0 <= r < m,
        ;
    }
}

/// Distinct valid indices have distinct row-major ranks.
pub proof fn lemma_flat_injective(shape: Seq<usize>, a: Seq<int>, b: Seq<int>)
    requires
        valid_index(shape, a),
        valid_index(shape, b),
        flat(shape, a) == flat(shape, b),
    ensures
        a == b,
    decreases a.len(),
{
    if a.len() > 0 {
        lemma_uncons(shape, a);
        lemma_uncons(shape, b);
        let m = shape_size(shape.drop_first()) as int;
        lemma_flat_bound(shape.drop_first(), a.drop_first());
        lemma_flat_bound(shape.drop_first(), b.drop_first());
        let ra = flat(shape.drop_first(), a.drop_first());
        let rb = flat(shape.drop_first(), b.drop_first());
        assert(a[0] == b[0]) by (nonlinear_arith)
            requires
                a[0] * m + ra == b[0] * m + rb,
                0 <= ra < m,
                0 <= rb < m,
                0 <= a[0],
                0 <= b[0],
        ;
        lemma_flat_injective(shape.drop_first(), a.drop_first(), b.drop_first());
    } else {
        assert(a =~= b);
    }
}

/// Every rank below the size belongs to some valid index.
pub proof fn lemma_unflatten(shape: Seq<usize>, j: int) -> (idx: Seq<int>)
    requires
        0 <= j < shape_size(shape),
    ensures
        valid_index(shape, idx),
        flat(shape, idx) == j,
    decreases shape.len(),
{
    if shape.len() == 0 {
        Seq::empty()
    } else {
        let m = shape_size(shape.drop_first()) as int;
        assert(m > 0) by (nonlinear_arith)
            requires
                0 <= j < shape[0] * m,
                m >= 0,
        ;
        let q = j / m;
        let r = j % m;
        vstd::arithmetic::div_mod::lemma_fundamental_div_mod(j, m);
        assert(0 <= q < shape[0]) by (nonlinear_arith)
            requires
                j == m * q + r,
                0 <= r < m,
                0 <= j < shape[0] * m,
        ;
        let rest = lemma_unflatten(shape.drop_first(), r);
        lemma_cons(shape, shape, q, rest);
        let c = cons(q, rest);
        assert(c.drop_first() == rest);
        assert(flat(shape, c) == q * m + r);
        c
    }
}

/// Under canonical strides the offset of an index is its row-major rank.
pub proof fn lemma_contiguous_dot(shape: Seq<usize>, stride: Seq<usize>, idx: Seq<int>)
    requires
        contiguous(shape, stride),
        idx.len() == shape.len(),
    ensures
        dot(stride, idx) == flat(shape, idx),
    decreases idx.len(),
{
    if idx.len() > 0 {
        let s1 = shape.drop_first();
        let t1 = stride.drop_first();
        assert(shape.subrange(1, shape.len() as int) =~= s1);
        assert(stride[0] == shape_size(s1));
        assert forall|i: int| 0 <= i < s1.len() implies #[trigger] t1[i] == canonical_stride(s1, i) by {
            assert(s1.subrange(i + 1, s1.len() as int) =~= shape.subrange(i + 2, shape.len() as int));
            assert(t1[i] == stride[i + 1]);
        }
        lemma_contiguous_dot(s1, t1, idx.drop_first());
    }
}

/// Splitting an index into a leading and a trailing part splits its offset.
pub proof fn lemma_dot_split(stride: Seq<usize>, idx: Seq<int>, k: int)
    requires
        stride.len() == idx.len(),
        0 <= k <= idx.len(),
    ensures
        dot(stride, idx) == dot(stride.subrange(0, k), idx.subrange(0, k)) + dot(
            stride.subrange(k, stride.len() as int),
            idx.subrange(k, idx.len() as int),
        ),
    decreases k,
{
    if k == 0 {
        assert(stride.subrange(0, stride.len() as int) =~= stride);
        assert(idx.subrange(0, idx.len() as int) =~= idx);
        assert(dot(stride.subrange(0, 0), idx.subrange(0, 0)) == 0);
    } else {
        lemma_dot_split(stride.drop_first(), idx.drop_first(), k - 1);
        assert(stride.drop_first().subrange(0, k - 1) =~= stride.subrange(0, k).drop_first());
        assert(idx.drop_first().subrange(0, k - 1) =~= idx.subrange(0, k).drop_first());
        assert(stride.drop_first().subrange(k - 1, stride.len() - 1) =~= stride.subrange(
            k,
            stride.len() as int,
        ));
        assert(idx.drop_first().subrange(k - 1, idx.len() - 1) =~= idx.subrange(k, idx.len() as int));
    }
}

/// A valid index splits into valid leading and trailing parts, and back.
pub proof fn lemma_valid_split(shape: Seq<usize>, idx: Seq<int>, k: int)
    requires
        idx.len() == shape.len(),
        0 <= k <= idx.len(),
    ensures
        valid_index(shape, idx) <==> (valid_index(shape.subrange(0, k), idx.subrange(0, k))
            && valid_index(shape.subrange(k, shape.len() as int), idx.subrange(k, idx.len() as int))),
{
    if valid_index(shape.subrange(0, k), idx.subrange(0, k)) && valid_index(
        shape.subrange(k, shape.len() as int),
        idx.subrange(k, idx.len() as int),
    ) {
        assert forall|i: int| 0 <= i < idx.len() implies 0 <= #[trigger] idx[i] < shape[i] as int by {
            if i < k {
                assert(idx.subrange(0, k)[i] == idx[i]);
            } else {
                assert(idx.subrange(k, idx.len() as int)[i - k] == idx[i]);
            }
        }
    }
    if valid_index(shape, idx) {
        assert forall|i: int| 0 <= i < k implies 0 <= #[trigger] idx.subrange(0, k)[i]
            < shape.subrange(0, k)[i] as int by {
            assert(idx.subrange(0, k)[i] == idx[i]);
        }
        assert forall|i: int| 0 <= i < idx.len() - k implies 0 <= #[trigger] idx.subrange(
            k,
            idx.len() as int,
        )[i] < shape.subrange(k, shape.len() as int)[i] as int by {
            assert(idx.subrange(k, idx.len() as int)[i] == idx[i + k]);
        }
    }
}

/// The shape's element count and all its canonical strides fit in a `usize`.
pub open spec fn size_fits(shape: Seq<usize>) -> bool {
    &&& strides_fit(shape)
    &&& shape_size(shape) <= usize::MAX
}

/// Each canonical stride is the next extent times the next canonical stride;
/// the last one is 1.
pub proof fn lemma_canonical_step(shape: Seq<usize>, i: int)
    requires
        0 <= i < shape.len(),
    ensures
        i == shape.len() - 1 ==> canonical_stride(shape, i) == 1,
        i < shape.len() - 1 ==> canonical_stride(shape, i) == shape[i + 1] * canonical_stride(
            shape,
            i + 1,
        ),
        i == 0 ==> shape_size(shape) == shape[0] * canonical_stride(shape, 0),
{
    let t = shape.subrange(i + 1, shape.len() as int);
    if i < shape.len() - 1 {
        assert(t.drop_first() =~= shape.subrange(i + 2, shape.len() as int));
        assert(t[0] == shape[i + 1]);
    } else {
        assert(t.len() == 0);
    }
    if i == 0 {
        assert(shape.drop_first() =~= t);
    }
}

/// The trailing axes of a shape have the same canonical strides as in the
/// whole shape, and keep its size bound.
pub proof fn lemma_trailing_fits(shape: Seq<usize>, k: int)
    requires
        size_fits(shape),
        0 <= k <= shape.len(),
    ensures
        size_fits(shape.subrange(shape.len() - k, shape.len() as int)),
        forall|i: int|
            0 <= i < k ==> #[trigger] canonical_stride(
                shape.subrange(shape.len() - k, shape.len() as int),
                i,
            ) == canonical_stride(shape, i + shape.len() - k),
        k < shape.len() ==> shape_size(shape.subrange(shape.len() - k, shape.len() as int))
            == canonical_stride(shape, shape.len() - k - 1),
{
    let n = shape.len() as int;
    let t = shape.subrange(n - k, n);
    assert forall|i: int| 0 <= i < k implies #[trigger] canonical_stride(t, i) == canonical_stride(
        shape,
        i + n - k,
    ) by {
        assert(t.subrange(i + 1, k) =~= shape.subrange(i + n - k + 1, n));
    }
    assert forall|i: int| 0 <= i < t.len() implies #[trigger] canonical_stride(t, i) <= usize::MAX by {
        assert(canonical_stride(shape, i + n - k) <= usize::MAX);
    }
    if k == n {
        assert(t =~= shape);
    } else {
        assert(t =~= shape.subrange(n - k - 1 + 1, n));
        assert(canonical_stride(shape, n - k - 1) <= usize::MAX);
    }
}

/// A contiguous layout over a shape whose size fits maps its indices one to
/// one onto the buffer range `0 .. size`.
pub proof fn lemma_contiguous_injective(shape: Seq<usize>, stride: Seq<usize>)
    requires
        contiguous(shape, stride),
    ensures
        forall|a: Seq<int>, b: Seq<int>|
            valid_index(shape, a) && valid_index(shape, b) && #[trigger] dot(stride, a) == #[trigger] dot(
                stride,
                b,
            ) ==> a == b,
        forall|a: Seq<int>| valid_index(shape, a) ==> 0 <= #[trigger] dot(stride, a) < shape_size(shape),
{
    assert forall|a: Seq<int>, b: Seq<int>|
        valid_index(shape, a) && valid_index(shape, b) && #[trigger] dot(stride, a) == #[trigger] dot(
            stride,
            b,
        ) implies a == b by {
        lemma_contiguous_dot(shape, stride, a);
        lemma_contiguous_dot(shape, stride, b);
        lemma_flat_injective(shape, a, b);
    }
    assert forall|a: Seq<int>| valid_index(shape, a) implies 0 <= #[trigger] dot(stride, a) < shape_size(
        shape,
    ) by {
        lemma_contiguous_dot(shape, stride, a);
        lemma_flat_bound(shape, a);
    }
}

/// The index whose entries are all the last ones reaches `max_dot`, and so
/// does any index made of last entries.
pub proof fn lemma_max_dot_unique(shape: Seq<usize>, stride: Seq<usize>, idx: Seq<int>)
    requires
        stride.len() == shape.len(),
        idx.len() == shape.len(),
        forall|i: int| 0 <= i < idx.len() ==> #[trigger] idx[i] == shape[i] - 1,
    ensures
        dot(stride, idx) == max_dot(shape, stride),
    decreases idx.len(),
{
    if idx.len() > 0 {
        assert forall|i: int| 0 <= i < idx.drop_first().len() implies #[trigger] idx.drop_first()[i]
            == shape.drop_first()[i] - 1 by {
            assert(idx.drop_first()[i] == idx[i + 1]);
        }
        lemma_max_dot_unique(shape.drop_first(), stride.drop_first(), idx.drop_first());
        assert(stride[0] * idx[0] == (shape[0] - 1) * stride[0]) by (nonlinear_arith)
            requires
                idx[0] == shape[0] - 1,
        ;
    }
}

/// The entries of a `usize` sequence as integers.
pub open spec fn to_ints(s: Seq<usize>) -> Seq<int> {
    s.map_values(|x: usize| x as int)
}

/// The offset of an index with non-negative entries is non-negative.
pub proof fn lemma_dot_nonneg(stride: Seq<usize>, idx: Seq<int>)
    requires
        forall|i: int| 0 <= i < idx.len() ==> 0 <= #[trigger] idx[i],
        stride.len() == idx.len(),
    ensures
        0 <= dot(stride, idx),
    decreases idx.len(),
{
    if idx.len() > 0 {
        assert forall|i: int| 0 <= i < idx.drop_first().len() implies 0 <= #[trigger] idx.drop_first()[i] by {
            assert(idx.drop_first()[i] == idx[i + 1]);
        }
        lemma_dot_nonneg(stride.drop_first(), idx.drop_first());
        assert(0 <= stride[0] * idx[0]) by (nonlinear_arith)
            requires
                0 <= stride[0],
                0 <= idx[0],
        ;
    }
}

/// The element offset `sum_i stride[i] * idx[i]` of an index whose offset
/// lies below `len`.
pub fn cal_offset(stride: &DimDyn, idx: &DimDyn, len: usize) -> (r: usize)
    requires
        stride.wf(),
        idx.wf(),
        stride@.len() == idx@.len(),
        dot(stride@, to_ints(idx@)) < len,
    ensures
        r == dot(stride@, to_ints(idx@)),
{
    let n = idx.len();
    let ghost full = to_ints(idx@);
    let mut acc: usize = 0;
    let mut i: usize = n;
    proof {
        assert(full.subrange(n as int, n as int).len() == 0);
    }
    while i > 0
        invariant
            stride.wf(),
            idx.wf(),
            n == idx@.len(),
            n == stride@.len(),
            full == to_ints(idx@),
            dot(stride@, full) < len,
            0 <= i <= n,
            acc == dot(stride@.subrange(i as int, n as int), full.subrange(i as int, n as int)),
        decreases i,
    {
        proof {
            lemma_dot_split(stride@, full, i - 1);
            lemma_dot_nonneg(stride@.subrange(0, i - 1), full.subrange(0, i - 1));
            let s2 = stride@.subrange(i - 1, n as int);
            let f2 = full.subrange(i - 1, n as int);
            assert(s2.drop_first() =~= stride@.subrange(i as int, n as int));
            assert(f2.drop_first() =~= full.subrange(i as int, n as int));
            lemma_dot_nonneg(stride@.subrange(i as int, n as int), full.subrange(i as int, n as int));
            assert(0 <= s2[0] * f2[0]) by (nonlinear_arith)
                requires
                    0 <= s2[0],
                    0 <= f2[0],
            ;
            assert(f2[0] == idx@[i - 1] as int);
        }
        acc = stride.index(i - 1) * idx.index(i - 1) + acc;
        i -= 1;
    }
    proof {
        assert(stride@.subrange(0, n as int) =~= stride@);
        assert(full.subrange(0, n as int) =~= full);
    }
    acc
}

/// The canonical row-major strides of `shape`, where they fit in a `usize`.
pub open spec fn canonical_strides(shape: Seq<usize>) -> Seq<usize> {
    Seq::new(shape.len(), |i: int| canonical_stride(shape, i) as usize)
}

/// The strides are a reordering of the canonical strides of the shape, but
/// not the canonical order itself.
pub open spec fn transposed(shape: Seq<usize>, stride: Seq<usize>) -> bool {
    &&& strides_fit(shape)
    &&& stride.to_multiset() == canonical_strides(shape).to_multiset()
    &&& stride != canonical_strides(shape)
}

/// True when `a` and `b` hold the same values the same number of times.
fn same_multiset(a: &Vec<usize>, b: Vec<usize>) -> (r: bool)
    ensures
        r == (a@.to_multiset() == b@.to_multiset()),
{
    let mut work = b;
    let mut i: usize = a.len();
    assert(a@.subrange(0, i as int) =~= a@);
    while i > 0
        invariant
            0 <= i <= a@.len(),
            (a@.to_multiset() == b@.to_multiset()) <==> (a@.subrange(0, i as int).to_multiset()
                == work@.to_multiset()),
        decreases i,
    {
        let x = a[i - 1];
        let ghost pre = a@.subrange(0, i - 1);
        assert(a@.subrange(0, i as int) =~= pre.push(x));
        proof {
            vstd::seq_lib::to_multiset_build(pre, x);
        }
        let mut j: usize = 0;
        while j < work.len() && work[j] != x
            invariant
                0 <= j <= work@.len(),
                forall|k: int| 0 <= k < j ==> #[trigger] work@[k] != x,
            decreases work@.len() - j,
        {
            j += 1;
        }
        if j == work.len() {
            proof {
                assert(!work@.contains(x));
                vstd::seq_lib::to_multiset_contains(work@, x);
                assert(work@.to_multiset().count(x) == 0);
                assert(pre.to_multiset().insert(x).count(x) > 0);
            }
            return false;
        }
        let ghost before = work@;
        work.remove(j);
        proof {
            vstd::seq_lib::to_multiset_remove(before, j as int);
            assert(before.remove(j as int).to_multiset() == before.to_multiset().remove(x));
            assert(before[j as int] == x);
            assert(before.contains(x));
            vstd::seq_lib::to_multiset_contains(before, x);
            assert(before.to_multiset().count(x) > 0);
            assert(before.to_multiset() =~= work@.to_multiset().insert(x));
            if pre.to_multiset().insert(x) == work@.to_multiset().insert(x) {
                assert(pre.to_multiset() =~= work@.to_multiset()) by {
                    assert forall|v: usize| #[trigger] pre.to_multiset().count(v) == work@.to_multiset().count(v) by {
                        assert(pre.to_multiset().insert(x).count(v) == work@.to_multiset().insert(x).count(v));
                    }
                }
            }
        }
        i -= 1;
    }
    proof {
        vstd::seq_lib::to_multiset_len(a@.subrange(0, 0));
        vstd::seq_lib::to_multiset_len(work@);
        assert(a@.subrange(0, 0).to_multiset() =~= Multiset::<usize>::empty());
        if work@.len() != 0 {
            assert(work@.to_multiset().len() != 0);
            assert(work@.to_multiset() != Multiset::<usize>::empty());
        } else {
            assert(work@.to_multiset() =~= Multiset::<usize>::empty());
        }
    }
    work.len() == 0
}

/// Descriptor of a strided layout: a shape and one stride per axis, both
/// counted in elements.
#[derive(Clone, Copy, Debug)]
pub struct ShapeStride {
    pub shape: DimDyn,
    pub stride: DimDyn,
}

impl ShapeStride {
    pub open spec fn wf(&self) -> bool {
        &&& self.shape.wf()
        &&& self.stride.wf()
        &&& self.shape@.len() == self.stride@.len()
    }

    pub fn new(shape: DimDyn, stride: DimDyn) -> (r: ShapeStride)
        requires
            shape.wf(),
            stride.wf(),
            shape@.len() == stride@.len(),
        ensures
            r.wf(),
            r.shape == shape,
            r.stride == stride,
    {
        ShapeStride { shape, stride }
    }

    /// The canonical row-major layout of `shape`.
    pub fn default_stride(shape: DimDyn) -> (r: ShapeStride)
        requires
            shape.wf(),
            strides_fit(shape@),
        ensures
            r.wf(),
            r.shape == shape,
            contiguous(r.shape@, r.stride@),
    {
        let n = shape.len;
        let mut stride = shape;
        if n == 0 {
            return ShapeStride { shape, stride };
        }
        proof {
            lemma_canonical_step(shape@, n - 1);
        }
        stride.set(n - 1, 1);
        let mut i: usize = n - 1;
        while i > 0
            invariant
                shape.wf(),
                stride.wf(),
                n == shape@.len(),
                stride@.len() == n,
                strides_fit(shape@),
                0 <= i < n,
                forall|j: int| i <= j < n ==> #[trigger] stride@[j] == canonical_stride(shape@, j),
            decreases i,
        {
            proof {
                lemma_canonical_step(shape@, i - 1);
                assert(canonical_stride(shape@, i - 1) <= usize::MAX);
                let c = canonical_stride(shape@, i - 1);
                assert(c == stride@[i as int] * shape@[i as int]) by (nonlinear_arith)
                    requires
                        c == shape@[i as int] * canonical_stride(shape@, i as int),
                        stride@[i as int] == canonical_stride(shape@, i as int),
                ;
            }
            let v = stride.index(i) * shape.index(i);
            i -= 1;
            stride.set(i, v);
        }
        ShapeStride { shape, stride }
    }

    /// True when the strides are the canonical row-major strides of the shape.
    pub fn is_contiguous(&self) -> (r: bool)
        requires
            self.wf(),
        ensures
            r == contiguous(self.shape@, self.stride@),
    {
        let n = self.shape.len;
        if n == 0 {
            return true;
        }
        proof {
            lemma_canonical_step(self.shape@, n - 1);
        }
        if self.stride.index(n - 1) != 1 {
            return false;
        }
        let mut i: usize = n - 1;
        while i > 0
            invariant
                self.wf(),
                n == self.shape@.len(),
                0 <= i < n,
                forall|j: int| i <= j < n ==> #[trigger] self.stride@[j] == canonical_stride(self.shape@, j),
            decreases i,
        {
            proof {
                lemma_canonical_step(self.shape@, i - 1);
            }
            let ghost c = canonical_stride(self.shape@, i - 1);
            assert(c == self.stride@[i as int] * self.shape@[i as int]) by (nonlinear_arith)
                requires
                    c == self.shape@[i as int] * canonical_stride(self.shape@, i as int),
                    self.stride@[i as int] == canonical_stride(self.shape@, i as int),
            ;
            match self.stride.index(i).checked_mul(self.shape.index(i)) {
                Some(v) => {
                    if v != self.stride.index(i - 1) {
                        assert(self.stride@[i - 1] != canonical_stride(self.shape@, i - 1));
                        return false;
                    }
                },
                None => {
                    assert(self.stride@[i - 1] != canonical_stride(self.shape@, i - 1));
                    return false;
                },
            }
            i -= 1;
        }
        true
    }

    /// The layout of the sub-array obtained by fixing the leading index: the
    /// shape and strides without their first axis.
    pub fn index_axis(&self) -> (r: ShapeStride)
        requires
            self.wf(),
            self.shape@.len() >= 1,
        ensures
            r.wf(),
            r.shape@ == self.shape@.drop_first(),
            r.stride@ == self.stride@.drop_first(),
    {
        let n = self.shape.len();
        let shape = self.shape.sub(1, n);
        let stride = self.stride.sub(1, n);
        assert(shape@ =~= self.shape@.drop_first());
        assert(stride@ =~= self.stride@.drop_first());
        ShapeStride { shape, stride }
    }

    /// The layout of the last `k` axes.
    pub fn trailing(&self, k: usize) -> (r: ShapeStride)
        requires
            self.wf(),
            k <= self.shape@.len(),
        ensures
            r.wf(),
            r.shape@ == self.shape@.subrange(self.shape@.len() - k, self.shape@.len() as int),
            r.stride@ == self.stride@.subrange(self.stride@.len() - k, self.stride@.len() as int),
    {
        let n = self.shape.len();
        ShapeStride { shape: self.shape.sub(n - k, n), stride: self.stride.sub(n - k, n) }
    }

    /// True when every element of the layout based at `offset` lies within a
    /// buffer of `len` elements.
    pub fn fits_in(&self, offset: usize, len: usize) -> (r: bool)
        requires
            self.wf(),
        ensures
            r == fits(self.shape@, self.stride@, offset as int, len as int),
    {
        let n = self.shape.len();
        let mut z: usize = 0;
        while z < n
            invariant
                self.wf(),
                n == self.shape@.len(),
                0 <= z <= n,
                forall|i: int| 0 <= i < z ==> #[trigger] self.shape@[i] >= 1,
            decreases n - z,
        {
            if self.shape.index(z) == 0 {
                proof {
                    assert forall|idx: Seq<int>| valid_index(self.shape@, idx) implies 0 <= offset
                        + #[trigger] dot(self.stride@, idx) < len by {
                        assert(0 <= idx[z as int] < self.shape@[z as int]);
                    }
                }
                return true;
            }
            z += 1;
        }
        // every extent is at least one: the farthest element decides
        let mut acc: usize = 0;
        let mut i: usize = n;
        while i > 0
            invariant
                self.wf(),
                n == self.shape@.len(),
                0 <= i <= n,
                forall|j: int| 0 <= j < n ==> #[trigger] self.shape@[j] >= 1,
                acc == max_dot(
                    self.shape@.subrange(i as int, n as int),
                    self.stride@.subrange(i as int, n as int),
                ),
            decreases i,
        {
            let ghost s = self.shape@.subrange(i - 1, n as int);
            let ghost t = self.stride@.subrange(i - 1, n as int);
            assert(s.drop_first() =~= self.shape@.subrange(i as int, n as int));
            assert(t.drop_first() =~= self.stride@.subrange(i as int, n as int));
            let e = self.shape.index(i - 1) - 1;
            match e.checked_mul(self.stride.index(i - 1)) {
                Some(v) => match v.checked_add(acc) {
                    Some(w) => {
                        acc = w;
                    },
                    None => {
                        proof {
                            self.lemma_far_end(offset as int, len as int, i - 1);
                        }
                        return false;
                    },
                },
                None => {
                    proof {
                        assert(0 <= max_dot(s.drop_first(), t.drop_first())) by {
                            let m = lemma_max_index(s.drop_first(), t.drop_first());
                            lemma_dot_bounds(s.drop_first(), t.drop_first(), m);
                        }
                        self.lemma_far_end(offset as int, len as int, i - 1);
                    }
                    return false;
                },
            }
            i -= 1;
        }
        assert(self.shape@.subrange(0, n as int) =~= self.shape@);
        assert(self.stride@.subrange(0, n as int) =~= self.stride@);
        proof {
            let m = lemma_max_index(self.shape@, self.stride@);
            assert forall|idx: Seq<int>| valid_index(self.shape@, idx) implies 0 <= offset
                + #[trigger] dot(self.stride@, idx) <= offset + acc by {
                lemma_dot_bounds(self.shape@, self.stride@, idx);
            }
            assert(offset + dot(self.stride@, m) == offset + acc);
        }
        match offset.checked_add(acc) {
            Some(last) => last < len,
            None => false,
        }
    }

    /// When every extent is at least one and the axes from `i` on already
    /// reach beyond `usize`, the layout fits in no buffer.
    proof fn lemma_far_end(&self, offset: int, len: int, i: int)
        requires
            self.wf(),
            0 <= i < self.shape@.len(),
            forall|j: int| 0 <= j < self.shape@.len() ==> #[trigger] self.shape@[j] >= 1,
            max_dot(
                self.shape@.subrange(i, self.shape@.len() as int),
                self.stride@.subrange(i, self.shape@.len() as int),
            ) > usize::MAX,
            0 <= offset,
            len <= usize::MAX,
        ensures
            !fits(self.shape@, self.stride@, offset, len),
    {
        let n = self.shape@.len() as int;
        let m = lemma_max_index(self.shape@, self.stride@);
        lemma_dot_split(self.stride@, m, i);
        lemma_valid_split(self.shape@, m, i);
        let lead = m.subrange(0, i);
        let lead_shape = self.shape@.subrange(0, i);
        lemma_dot_bounds(lead_shape, self.stride@.subrange(0, i), lead);
        let tail = m.subrange(i, n);
        let s = self.shape@.subrange(i, n);
        let t = self.stride@.subrange(i, n);
        assert forall|j: int| 0 <= j < s.len() implies #[trigger] s[j] >= 1 by {
            assert(s[j] == self.shape@[j + i]);
        }
        let mt = lemma_max_index(s, t);
        lemma_dot_bounds(s, t, tail);
        // the trailing part of the farthest index is itself farthest
        assert(dot(t, tail) == max_dot(s, t)) by {
            assert forall|j: int| 0 <= j < tail.len() implies #[trigger] tail[j] == s[j] - 1 by {
                assert(tail[j] == m[j + i]);
            }
            lemma_max_dot_unique(s, t, tail);
        }
        assert(offset + dot(self.stride@, m) >= len);
    }

    /// True when the strides are a reordering of the canonical strides of the
    /// shape other than the canonical order.
    pub fn is_transposed(&self) -> (r: bool)
        requires
            self.wf(),
        ensures
            r == transposed(self.shape@, self.stride@),
    {
        let n = self.shape.len();
        let mut canon: Vec<usize> = Vec::new();
        let mut k: usize = 0;
        while k < n
            invariant
                self.wf(),
                n == self.shape@.len(),
                0 <= k <= n,
                canon@.len() == k,
            decreases n - k,
        {
            canon.push(0);
            k += 1;
        }
        if n == 0 {
            proof {
                assert(self.stride@ =~= canonical_strides(self.shape@));
            }
            return false;
        }
        proof {
            lemma_canonical_step(self.shape@, n - 1);
        }
        canon.set(n - 1, 1);
        let mut i: usize = n - 1;
        while i > 0
            invariant
                self.wf(),
                n == self.shape@.len(),
                canon@.len() == n,
                0 <= i < n,
                forall|j: int| i <= j < n ==> #[trigger] canon@[j] == canonical_stride(self.shape@, j),
            decreases i,
        {
            proof {
                lemma_canonical_step(self.shape@, i - 1);
            }
            let ghost c = canonical_stride(self.shape@, i - 1);
            assert(c == canon@[i as int] * self.shape@[i as int]) by (nonlinear_arith)
                requires
                    c == self.shape@[i as int] * canonical_stride(self.shape@, i as int),
                    canon@[i as int] == canonical_stride(self.shape@, i as int),
            ;
            match canon[i].checked_mul(self.shape.index(i)) {
                Some(v) => {
                    canon.set(i - 1, v);
                },
                None => {
                    proof {
                        assert(!strides_fit(self.shape@)) by {
                            assert(canonical_stride(self.shape@, i - 1) > usize::MAX);
                        }
                    }
                    return false;
                },
            }
            i -= 1;
        }
        proof {
            assert forall|j: int| 0 <= j < n implies #[trigger] canonical_stride(self.shape@, j) <= usize::MAX by {
                assert(canon@[j] == canonical_stride(self.shape@, j));
            }
            assert(strides_fit(self.shape@));
            assert(canon@ =~= canonical_strides(self.shape@));
        }
        let strides = self.stride.slice();
        let mut same_order = true;
        let mut j: usize = 0;
        while j < n
            invariant
                self.wf(),
                n == self.shape@.len(),
                strides@ == self.stride@,
                canon@.len() == n,
                0 <= j <= n,
                same_order <==> (forall|q: int| 0 <= q < j ==> #[trigger] strides@[q] == canon@[q]),
            decreases n - j,
        {
            if strides[j] != canon[j] {
                same_order = false;
            }
            j += 1;
        }
        if same_order {
            assert(strides@ =~= canon@);
            return false;
        }
        assert(strides@ != canon@);
        same_multiset(&strides, canon)
    }

    pub fn shape(&self) -> (r: DimDyn)
        ensures
            r == self.shape,
    {
        self.shape
    }

    pub fn stride(&self) -> (r: DimDyn)
        ensures
            r == self.stride,
    {
        self.stride
    }
}

} // verus!
