use zenu_matrix::matrix::{Matrix, Ones};
use zenu_matrix::mul::{Gemm, MatrixMul};

#[test]
fn mul_1d_scalar() {
    let a = Matrix::from_vec(vec![1, 2, 3], &[3]);
    let b = Matrix::from_vec(vec![2], &[]);
    let mut ans = Matrix::<i32>::zeros(&[3]);
    ans.to_view_mut().mul(a.to_view(), b.to_view());

    assert_eq!(ans.index_item(&[0]), 2);
    assert_eq!(ans.index_item(&[1]), 4);
    assert_eq!(ans.index_item(&[2]), 6);
}

#[test]
fn scalar_1d() {
    let a = Matrix::from_vec(vec![1, 2, 3], &[3]);
    let mut ans = Matrix::<i32>::zeros(&[3]);
    ans.to_view_mut().mul(a.to_view(), 2);

    assert_eq!(ans.index_item(&[0]), 2);
    assert_eq!(ans.index_item(&[1]), 4);
    assert_eq!(ans.index_item(&[2]), 6);
}

#[test]
fn sliced_scalar_1d() {
    let a = Matrix::from_vec(vec![1, 2, 3, 4], &[4]);
    let mut ans = Matrix::<i32>::zeros(&[2]);
    // every second element
    ans.to_view_mut().mul(a.view_window(0, &[2], &[2]).unwrap(), 2);

    assert_eq!(ans.index_item(&[0]), 2);
    assert_eq!(ans.index_item(&[1]), 6);
}

#[test]
fn scalar_2d() {
    let a = Matrix::from_vec(vec![1, 2, 3, 4, 5, 6], &[2, 3]);
    let mut ans = Matrix::<i32>::zeros(&[2, 3]);
    ans.to_view_mut().mul(a.to_view(), 2);

    assert_eq!(ans.index_item(&[0, 0]), 2);
    assert_eq!(ans.index_item(&[0, 1]), 4);
    assert_eq!(ans.index_item(&[0, 2]), 6);
    assert_eq!(ans.index_item(&[1, 0]), 8);
    assert_eq!(ans.index_item(&[1, 1]), 10);
    assert_eq!(ans.index_item(&[1, 2]), 12);
}

#[test]
fn default_1d_1d() {
    let a = Matrix::from_vec(vec![1, 2, 3], &[3]);
    let b = Matrix::from_vec(vec![1, 2, 3], &[3]);
    let mut ans = Matrix::<i32>::zeros(&[3]);
    ans.to_view_mut().mul(a.to_view(), b.to_view());

    assert_eq!(ans.index_item(&[0]), 1);
    assert_eq!(ans.index_item(&[1]), 4);
    assert_eq!(ans.index_item(&[2]), 9);
}

#[test]
fn sliced_1d_1d() {
    let a = Matrix::from_vec(vec![1, 2, 3, 4], &[4]);
    let b = Matrix::from_vec(vec![1, 2, 3, 4], &[4]);
    let mut ans = Matrix::<i32>::zeros(&[2]);
    ans.to_view_mut().mul(
        a.view_window(0, &[2], &[2]).unwrap(),
        b.view_window(0, &[2], &[2]).unwrap(),
    );

    assert_eq!(ans.index_item(&[0]), 1);
    assert_eq!(ans.index_item(&[1]), 9);
}

#[test]
fn default_2d_2d() {
    let a = Matrix::from_vec(vec![1, 2, 3, 4, 5, 6], &[2, 3]);
    let b = Matrix::from_vec(vec![1, 2, 3, 4, 5, 6], &[2, 3]);
    let mut ans = Matrix::<i32>::zeros(&[2, 3]);
    ans.to_view_mut().mul(a.to_view(), b.to_view());

    assert_eq!(ans.index_item(&[0, 0]), 1);
    assert_eq!(ans.index_item(&[0, 1]), 4);
    assert_eq!(ans.index_item(&[0, 2]), 9);
    assert_eq!(ans.index_item(&[1, 0]), 16);
    assert_eq!(ans.index_item(&[1, 1]), 25);
    assert_eq!(ans.index_item(&[1, 2]), 36);
}

#[test]
fn sliced_4d_2d() {
    let mut a_vec = Vec::new();
    for i in 0..2 * 2 * 2 * 2 {
        a_vec.push(i as i32);
    }

    let a = Matrix::from_vec(a_vec, &[2, 2, 2, 2]);
    let b = Matrix::from_vec(vec![1, 2], &[2]);

    let mut ans = Matrix::<i32>::zeros(&[2, 2, 2, 2]);

    ans.to_view_mut().mul(a.to_view(), b.to_view());

    for i in 0..2 {
        for j in 0..2 {
            for k in 0..2 {
                for l in 0..2 {
                    assert_eq!(
                        ans.index_item(&[i, j, k, l]),
                        a.index_item(&[i, j, k, l]) * b.index_item(&[l])
                    );
                }
            }
        }
    }
}

#[test]
fn mul_4d_2d_dyn() {
    let ones_4d = Matrix::<i32>::ones(&[2, 2, 2, 2]);
    let ones_2d = Matrix::<i32>::ones(&[2, 2]);
    let mut ans = Matrix::<i32>::zeros(&[2, 2, 2, 2]);
    ans.to_view_mut().mul(ones_4d.to_view(), ones_2d.to_view());
    assert_eq!(ans.as_slice(), &[1; 16]);
}

#[test]
fn default_0d_0d() {
    let a = Matrix::from_vec(vec![10], &[]);
    let b = Matrix::from_vec(vec![20], &[]);
    let mut ans = Matrix::<i32>::zeros(&[]);
    ans.to_view_mut().mul(a.to_view(), b.to_view());
    assert_eq!(ans.index_item(&[]), 200);
}

#[test]
fn mul_scalar_strided_3d() {
    let mut v = Vec::new();
    for i in 0..24 {
        v.push(i as i64);
    }
    let a = Matrix::from_vec(v, &[2, 3, 4]);
    let mut ans = Matrix::<i64>::zeros(&[2, 3, 2]);
    // the last axis taken in steps of two: not contiguous, scaled slab by slab
    ans.to_view_mut().mul(a.view_window(1, &[2, 3, 2], &[12, 4, 2]).unwrap(), -3);
    assert_eq!(ans.as_slice(), &[-3, -9, -15, -21, -27, -33, -39, -45, -51, -57, -63, -69]);
}

#[test]
fn default() {
    let a = Matrix::from_vec(vec![1, 2, 3, 4, 5, 6], &[2, 3]);
    let b = Matrix::from_vec(vec![1, 2, 3, 4, 5, 6, 7, 8, 9, 10, 11, 12, 13, 14, 15], &[3, 5]);
    let mut ans = Matrix::<i32>::zeros(&[2, 5]);

    ans.to_view_mut().gemm(a.to_view(), b.to_view());
    assert_eq!(ans.index_item(&[0, 0]), 46);
    assert_eq!(ans.index_item(&[0, 1]), 52);
    assert_eq!(ans.index_item(&[0, 2]), 58);
    assert_eq!(ans.index_item(&[0, 3]), 64);
    assert_eq!(ans.index_item(&[0, 4]), 70);
    assert_eq!(ans.index_item(&[1, 0]), 100);
    assert_eq!(ans.index_item(&[1, 1]), 115);
    assert_eq!(ans.index_item(&[1, 2]), 130);
    assert_eq!(ans.index_item(&[1, 3]), 145);
    assert_eq!(ans.index_item(&[1, 4]), 160);
}

#[test]
fn default_stride_2() {
    let a = Matrix::from_vec(vec![1, 2, 3, 4, 5, 6], &[2, 3]);
    // shape 3 4
    let b = Matrix::from_vec(vec![1, 2, 3, 4, 5, 6, 7, 8, 9, 10, 11, 12], &[3, 4]);
    let mut ans = Matrix::<i32>::zeros(&[2, 4]);

    ans.to_view_mut().gemm(a.to_view(), b.to_view());

    assert_eq!(ans.index_item(&[0, 0]), 38);
    assert_eq!(ans.index_item(&[0, 1]), 44);
    assert_eq!(ans.index_item(&[0, 2]), 50);
    assert_eq!(ans.index_item(&[0, 3]), 56);
    assert_eq!(ans.index_item(&[1, 0]), 83);
    assert_eq!(ans.index_item(&[1, 1]), 98);
    assert_eq!(ans.index_item(&[1, 2]), 113);
    assert_eq!(ans.index_item(&[1, 3]), 128);
}

#[test]
fn gemm_transposed_and_strided_operands() {
    // a is the transpose of the 3 x 2 buffer [1, 4, 2, 5, 3, 6]
    let a_buf = Matrix::from_vec(vec![1, 4, 2, 5, 3, 6], &[3, 2]);
    let a = a_buf.view_window(0, &[2, 3], &[1, 2]).unwrap();
    // b is every second column of a 3 x 10 buffer holding 1..15 at even columns
    let mut b_vec = Vec::new();
    for i in 1..=15 {
        b_vec.push(i);
        b_vec.push(0);
    }
    let b_buf = Matrix::from_vec(b_vec, &[3, 10]);
    let b = b_buf.view_window(0, &[3, 5], &[10, 2]).unwrap();
    // the result goes into a transposed window
    let mut out = Matrix::<i32>::zeros(&[5, 2]);
    out.view_mut_window(0, &[2, 5], &[1, 2]).unwrap().gemm(a, b);
    assert_eq!(out.index_item(&[0, 0]), 46);
    assert_eq!(out.index_item(&[4, 0]), 70);
    assert_eq!(out.index_item(&[0, 1]), 100);
    assert_eq!(out.index_item(&[4, 1]), 160);
}
