use zenu_matrix::add::{MatrixAdd, MatrixAddAssign};
use zenu_matrix::matrix::Matrix;

fn seq_i32(n: i32) -> Vec<i32> {
    let mut v = Vec::new();
    for i in 1..=n {
        v.push(i);
    }
    v
}

#[test]
fn add_dyn_dyn() {
    let a = Matrix::from_vec(vec![1, 2, 3], &[3]);
    let b = Matrix::from_vec(vec![1, 2, 3], &[3]);
    let mut ans = Matrix::<i32>::zeros(&[3]);
    ans.to_view_mut().add(a.to_view(), b.to_view());
}

#[test]
fn add_1d_scalar() {
    let a = Matrix::from_vec(vec![1, 2, 3], &[3]);
    let mut ans = Matrix::<i32>::zeros(&[3]);
    let b = Matrix::from_vec(vec![2], &[]);
    ans.to_view_mut().add(a.to_view(), b.to_view());

    assert_eq!(ans.index_item(&[0]), 3);
    assert_eq!(ans.index_item(&[1]), 4);
    assert_eq!(ans.index_item(&[2]), 5);
}

#[test]
fn add_1d_scalar_default_stride() {
    let a = Matrix::from_vec(vec![1, 2, 3], &[3]);
    let mut ans = Matrix::<i32>::zeros(&[3]);
    ans.to_view_mut().add(a.to_view(), 1);

    assert_eq!(ans.index_item(&[0]), 2);
    assert_eq!(ans.index_item(&[1]), 3);
    assert_eq!(ans.index_item(&[2]), 4);
}

#[test]
fn add_1d_scalar_sliced() {
    let a = Matrix::from_vec(vec![1, 2, 3, 4, 5, 6], &[6]);
    let mut ans = Matrix::<i32>::zeros(&[3]);

    // every second element
    let sliced = a.view_window(0, &[3], &[2]).unwrap();

    ans.to_view_mut().add(sliced, 1);

    assert_eq!(ans.index_item(&[0]), 2);
    assert_eq!(ans.index_item(&[1]), 4);
    assert_eq!(ans.index_item(&[2]), 6);
}

#[test]
fn add_3d_scalar_sliced() {
    let a = Matrix::from_vec(seq_i32(36), &[3, 3, 4]);

    let mut ans = Matrix::<i32>::zeros(&[3, 3, 2]);

    // every second element along the last axis
    let sliced = a.view_window(0, &[3, 3, 2], &[12, 4, 2]).unwrap();

    ans.to_view_mut().add(sliced, 1);

    assert_eq!(ans.index_item(&[0, 0, 0]), 2);
    assert_eq!(ans.index_item(&[0, 0, 1]), 4);
    assert_eq!(ans.index_item(&[0, 1, 0]), 6);
    assert_eq!(ans.index_item(&[0, 1, 1]), 8);
    assert_eq!(ans.index_item(&[0, 2, 0]), 10);
    assert_eq!(ans.index_item(&[0, 2, 1]), 12);
    assert_eq!(ans.index_item(&[1, 0, 0]), 14);
    assert_eq!(ans.index_item(&[1, 0, 1]), 16);
    assert_eq!(ans.index_item(&[1, 1, 0]), 18);
    assert_eq!(ans.index_item(&[1, 1, 1]), 20);
    assert_eq!(ans.index_item(&[1, 2, 0]), 22);
    assert_eq!(ans.index_item(&[1, 2, 1]), 24);
    assert_eq!(ans.index_item(&[2, 0, 0]), 26);
    assert_eq!(ans.index_item(&[2, 0, 1]), 28);
    assert_eq!(ans.index_item(&[2, 1, 0]), 30);
    assert_eq!(ans.index_item(&[2, 1, 1]), 32);
    assert_eq!(ans.index_item(&[2, 2, 0]), 34);
    assert_eq!(ans.index_item(&[2, 2, 1]), 36);
}

#[test]
fn add_1d_1d_default_stride() {
    let a = Matrix::from_vec(vec![1, 2, 3], &[3]);
    let b = Matrix::from_vec(vec![1, 2, 3], &[3]);
    let mut ans = Matrix::<i32>::zeros(&[3]);
    ans.to_view_mut().add(a.to_view(), b.to_view());

    assert_eq!(ans.index_item(&[0]), 2);
    assert_eq!(ans.index_item(&[1]), 4);
    assert_eq!(ans.index_item(&[2]), 6);
}

#[test]
fn add_1d_1d_sliced() {
    let a = Matrix::from_vec(vec![1, 2, 3, 4, 5, 6], &[6]);
    let b = Matrix::from_vec(vec![1, 2, 3, 4, 5, 6], &[6]);

    let mut ans = Matrix::<i32>::zeros(&[3]);

    // even positions of a, odd positions of b
    let sliced_a = a.view_window(0, &[3], &[2]).unwrap();
    let sliced_b = b.view_window(1, &[3], &[2]).unwrap();

    ans.to_view_mut().add(sliced_a, sliced_b);

    assert_eq!(ans.index_item(&[0]), 3);
    assert_eq!(ans.index_item(&[1]), 7);
    assert_eq!(ans.index_item(&[2]), 11);
}

#[test]
fn add_2d_1d_default() {
    let a = Matrix::from_vec(seq_i32(16), &[4, 4]);

    let b = Matrix::from_vec(vec![1, 2, 3, 4, 5, 6, 7, 8], &[8]);

    let mut ans = Matrix::<i32>::zeros(&[2, 2]);

    // the leading 2 x 2 block of a, the first two elements of b
    let sliced_a = a.view_window(0, &[2, 2], &[4, 1]).unwrap();
    let sliced_b = b.view_window(0, &[2], &[1]).unwrap();

    ans.to_view_mut().add(sliced_a, sliced_b);

    assert_eq!(ans.index_item(&[0, 0]), 2);
    assert_eq!(ans.index_item(&[0, 1]), 4);
    assert_eq!(ans.index_item(&[1, 0]), 6);
    assert_eq!(ans.index_item(&[1, 1]), 8);
}

#[test]
fn add_3d_1d_sliced() {
    let mut v = Vec::new();
    let num_elm = 4 * 4 * 4;
    for i in 0..num_elm {
        v.push(i as i32);
    }
    let a = Matrix::from_vec(v, &[4, 4, 4]);

    let b = Matrix::from_vec(vec![1, 2, 3, 4], &[4]);

    let mut ans = Matrix::<i32>::zeros(&[2, 2, 2]);

    // axes 0 and 2 cut to two, axis 1 from 1 in steps of 2
    let sliced_a = a.view_window(4, &[2, 2, 2], &[16, 8, 1]).unwrap();
    let sliced_b = b.view_window(0, &[2], &[1]).unwrap();

    ans.to_view_mut().add(sliced_a, sliced_b);

    assert_eq!(ans.index_item(&[0, 0, 0]), 5);
    assert_eq!(ans.index_item(&[0, 0, 1]), 7);
    assert_eq!(ans.index_item(&[0, 1, 0]), 13);
    assert_eq!(ans.index_item(&[0, 1, 1]), 15);
    assert_eq!(ans.index_item(&[1, 0, 0]), 21);
    assert_eq!(ans.index_item(&[1, 0, 1]), 23);
    assert_eq!(ans.index_item(&[1, 1, 0]), 29);
    assert_eq!(ans.index_item(&[1, 1, 1]), 31);
}

#[test]
fn add_2d_2d_default() {
    let a = Matrix::from_vec(seq_i32(16), &[4, 4]);
    let b = Matrix::from_vec(seq_i32(16), &[4, 4]);

    let mut ans = Matrix::<i32>::zeros(&[4, 4]);
    ans.to_view_mut().add(a.to_view(), b.to_view());

    assert_eq!(ans.index_item(&[0, 0]), 2);
    assert_eq!(ans.index_item(&[0, 1]), 4);
    assert_eq!(ans.index_item(&[0, 2]), 6);
    assert_eq!(ans.index_item(&[0, 3]), 8);
    assert_eq!(ans.index_item(&[1, 0]), 10);
    assert_eq!(ans.index_item(&[1, 1]), 12);
    assert_eq!(ans.index_item(&[1, 2]), 14);
    assert_eq!(ans.index_item(&[1, 3]), 16);
    assert_eq!(ans.index_item(&[2, 0]), 18);
    assert_eq!(ans.index_item(&[2, 1]), 20);
    assert_eq!(ans.index_item(&[2, 2]), 22);
    assert_eq!(ans.index_item(&[2, 3]), 24);
    assert_eq!(ans.index_item(&[3, 0]), 26);
    assert_eq!(ans.index_item(&[3, 1]), 28);
    assert_eq!(ans.index_item(&[3, 2]), 30);
    assert_eq!(ans.index_item(&[3, 3]), 32);
}

#[test]
fn add_2d_0d() {
    let a = Matrix::from_vec(seq_i32(16), &[4, 4]);
    let b = Matrix::from_vec(vec![1], &[]);
    let mut ans = Matrix::<i32>::zeros(&[4, 4]);
    ans.to_view_mut().add(a.to_view(), b.to_view());
    assert_eq!(ans.index_item(&[0, 0]), 2);
    assert_eq!(ans.index_item(&[0, 1]), 3);
    assert_eq!(ans.index_item(&[0, 2]), 4);
    assert_eq!(ans.index_item(&[0, 3]), 5);
    assert_eq!(ans.index_item(&[1, 0]), 6);
    assert_eq!(ans.index_item(&[1, 1]), 7);
    assert_eq!(ans.index_item(&[1, 2]), 8);
    assert_eq!(ans.index_item(&[1, 3]), 9);
    assert_eq!(ans.index_item(&[2, 0]), 10);
    assert_eq!(ans.index_item(&[2, 1]), 11);
    assert_eq!(ans.index_item(&[2, 2]), 12);
    assert_eq!(ans.index_item(&[2, 3]), 13);
    assert_eq!(ans.index_item(&[3, 0]), 14);
    assert_eq!(ans.index_item(&[3, 1]), 15);
    assert_eq!(ans.index_item(&[3, 2]), 16);
    assert_eq!(ans.index_item(&[3, 3]), 17);
}

#[test]
fn add_2d_0d_dyn() {
    let a = Matrix::from_vec(seq_i32(16), &[4, 4]);
    let b = Matrix::from_vec(vec![1], &[]);
    let mut ans = Matrix::<i32>::zeros(&[4, 4]);
    ans.to_view_mut().add(a.to_view(), b.to_view());
    assert_eq!(ans.index_item(&[0, 0]), 2);
    assert_eq!(ans.index_item(&[0, 1]), 3);
    assert_eq!(ans.index_item(&[0, 2]), 4);
    assert_eq!(ans.index_item(&[0, 3]), 5);
    assert_eq!(ans.index_item(&[1, 0]), 6);
    assert_eq!(ans.index_item(&[1, 1]), 7);
    assert_eq!(ans.index_item(&[1, 2]), 8);
    assert_eq!(ans.index_item(&[1, 3]), 9);
    assert_eq!(ans.index_item(&[2, 0]), 10);
    assert_eq!(ans.index_item(&[2, 1]), 11);
    assert_eq!(ans.index_item(&[2, 2]), 12);
    assert_eq!(ans.index_item(&[2, 3]), 13);
    assert_eq!(ans.index_item(&[3, 0]), 14);
    assert_eq!(ans.index_item(&[3, 1]), 15);
    assert_eq!(ans.index_item(&[3, 2]), 16);
    assert_eq!(ans.index_item(&[3, 3]), 17);
}

#[test]
fn add_4d_2d_dyn() {
    let zeros_4d = Matrix::<i32>::zeros(&[2, 2, 2, 2]);
    let ones_2d = Matrix::from_vec(vec![1, 1, 1, 1], &[2, 2]);
    let mut ans = Matrix::<i32>::zeros(&[2, 2, 2, 2]);
    ans.to_view_mut().add(zeros_4d.to_view(), ones_2d.to_view());
}

#[test]
fn add_4d_2d_values() {
    let zeros_4d = Matrix::<i32>::zeros(&[2, 2, 2, 2]);
    let b = Matrix::from_vec(vec![1, 2, 3, 4], &[2, 2]);
    let mut ans = Matrix::<i32>::zeros(&[2, 2, 2, 2]);
    // the operand of lower rank on the left is broadcast all the same
    ans.to_view_mut().add(b.to_view(), zeros_4d.to_view());
    for i in 0..2 {
        for j in 0..2 {
            for k in 0..2 {
                for l in 0..2 {
                    assert_eq!(ans.index_item(&[i, j, k, l]), b.index_item(&[k, l]));
                }
            }
        }
    }
}

#[test]
fn add_assign_broadcast_keeps_shape() {
    let mut a = Matrix::from_vec(seq_i32(6), &[2, 3]);
    let b = Matrix::from_vec(vec![10, 20, 30], &[3]);
    a.to_view_mut().add_assign(b.to_view());
    assert_eq!(a.shape().slice(), vec![2, 3]);
    assert_eq!(a.as_slice(), &[11, 22, 33, 14, 25, 36]);
}

#[test]
fn add_assign_scalar_into_zeros() {
    let mut a = Matrix::<i32>::zeros(&[2, 3, 2]);
    let v = Matrix::from_vec(vec![7], &[]);
    a.to_view_mut().add_assign(v.to_view());
    assert_eq!(a.as_slice(), &[7; 12]);
    let mut s = Matrix::<i32>::zeros(&[]);
    s.to_view_mut().add_assign(5);
    assert_eq!(s.as_slice(), &[5]);
}

#[test]
fn add_scalar_array_to_zeros() {
    let zeros = Matrix::<i64>::zeros(&[3, 2]);
    let v = Matrix::from_vec(vec![-4i64], &[]);
    let mut ans = Matrix::<i64>::zeros(&[3, 2]);
    ans.to_view_mut().add(zeros.to_view(), v.to_view());
    assert_eq!(ans.as_slice(), &[-4i64; 6]);
}

#[test]
fn add_wraps_on_overflow() {
    let a = Matrix::from_vec(vec![i32::MAX], &[1]);
    let mut ans = Matrix::<i32>::zeros(&[1]);
    ans.to_view_mut().add(a.to_view(), 1);
    assert_eq!(ans.index_item(&[0]), i32::MIN);
}

#[test]
fn add_into_transposed_destination() {
    let a = Matrix::from_vec(seq_i32(6), &[2, 3]);
    let mut buf = Matrix::<i32>::zeros(&[3, 2]);
    // a 2 x 3 window over a 3 x 2 buffer, read column by column
    let dst = buf.view_mut_window(0, &[2, 3], &[1, 2]).unwrap();
    dst.add(a.to_view(), 100);
    assert_eq!(buf.as_slice(), &[101, 104, 102, 105, 103, 106]);
}
