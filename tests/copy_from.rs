use zenu_matrix::blas::Cpu;
use zenu_matrix::copy_from::{copy_unchecked, CopyFrom};
use zenu_matrix::matrix::Matrix;

#[test]
fn default_stride_1d() {
    let a = vec![0i32; 6];
    let b = vec![1, 2, 3, 4, 5, 6];

    let mut a = Matrix::from_vec(a, &[6]);
    let b = Matrix::from_vec(b, &[6]);

    a.to_view_mut().copy_from(&b.to_view());

    assert_eq!(a.index_item(&[0]), 1);
    assert_eq!(a.index_item(&[1]), 2);
    assert_eq!(a.index_item(&[2]), 3);
    assert_eq!(a.index_item(&[3]), 4);
    assert_eq!(a.index_item(&[4]), 5);
    assert_eq!(a.index_item(&[5]), 6);
}

#[test]
fn sliced_1d() {
    let a = vec![0i32; 6];
    let v = vec![0, 1, 2, 3, 4, 5];

    let mut a = Matrix::from_vec(a.clone(), &[6]);
    let v = Matrix::from_vec(v, &[6]);

    // every second element of a, the first three of v
    let a_sliced = a.view_mut_window(0, &[3], &[2]).unwrap();
    let v_sliced = v.view_window(0, &[3], &[1]).unwrap();

    a_sliced.copy_from(&v_sliced);
    assert_eq!(a.index_item(&[0]), 0);
    assert_eq!(a.index_item(&[1]), 0);
    assert_eq!(a.index_item(&[2]), 1);
    assert_eq!(a.index_item(&[3]), 0);
    assert_eq!(a.index_item(&[4]), 2);
    assert_eq!(a.index_item(&[5]), 0);
}

#[test]
fn defualt_stride_2d() {
    let a = vec![0i32; 6];
    let b = vec![1, 2, 3, 4, 5, 6];

    let mut a = Matrix::from_vec(a, &[2, 3]);
    let b = Matrix::from_vec(b, &[2, 3]);

    a.to_view_mut().copy_from(&b.to_view());

    assert_eq!(a.index_item(&[0, 0]), 1);
    assert_eq!(a.index_item(&[0, 1]), 2);
    assert_eq!(a.index_item(&[0, 2]), 3);
    assert_eq!(a.index_item(&[1, 0]), 4);
    assert_eq!(a.index_item(&[1, 1]), 5);
    assert_eq!(a.index_item(&[1, 2]), 6);
}

#[test]
fn sliced_2d() {
    let a = vec![0i32; 12];
    let v = vec![0, 1, 2, 3, 4, 5, 6, 7, 8, 9, 10, 11];
    let mut a = Matrix::from_vec(a.clone(), &[3, 4]);
    let v = Matrix::from_vec(v, &[3, 4]);

    // rows 0..2 and columns 0..3 of a; rows 1..3 and columns 1..4 of v
    let a_sliced = a.view_mut_window(0, &[2, 3], &[4, 1]).unwrap();
    let v_sliced = v.view_window(5, &[2, 3], &[4, 1]).unwrap();

    a_sliced.copy_from(&v_sliced);
    assert_eq!(a.index_item(&[0, 0]), 5);
    assert_eq!(a.index_item(&[0, 1]), 6);
    assert_eq!(a.index_item(&[0, 2]), 7);
    assert_eq!(a.index_item(&[0, 3]), 0);
    assert_eq!(a.index_item(&[1, 0]), 9);
    assert_eq!(a.index_item(&[1, 1]), 10);
    assert_eq!(a.index_item(&[1, 2]), 11);
    assert_eq!(a.index_item(&[2, 3]), 0);
}

#[test]
fn copy_from_stride_two_source() {
    let src = Matrix::from_vec(vec![10, 11, 12, 13, 14, 15], &[6]);
    let mut dst = Matrix::<i32>::zeros(&[3]);
    dst.to_view_mut().copy_from(&src.view_window(0, &[3], &[2]).unwrap());
    assert_eq!(dst.as_slice(), &[10, 12, 14]);
}

#[test]
fn copy_from_transposed_4d_matches_naive_copy() {
    let mut v = Vec::new();
    for i in 0..120 {
        v.push(i as i64);
    }
    let src_buf = Matrix::from_vec(v, &[4, 2, 3, 5]);
    // axes reordered as (1, 2, 0, 3) of the 4 x 2 x 3 x 5 buffer
    let src = src_buf.view_window(0, &[2, 3, 4, 5], &[15, 5, 30, 1]).unwrap();
    let mut dst = Matrix::<i64>::zeros(&[2, 3, 4, 5]);
    dst.to_view_mut().copy_from(&src);
    for i in 0..2 {
        for j in 0..3 {
            for k in 0..4 {
                for l in 0..5 {
                    assert_eq!(dst.index_item(&[i, j, k, l]), src.index_item(&[i, j, k, l]));
                    assert_eq!(dst.index_item(&[i, j, k, l]), src_buf.index_item(&[k, i, j, l]));
                }
            }
        }
    }
}

#[test]
fn copy_from_into_strided_destination_keeps_gaps() {
    let src = Matrix::from_vec(vec![1, 2, 3, 4, 5, 6], &[2, 3]);
    let mut buf = Matrix::from_vec(vec![-1; 20], &[4, 5]);
    // a 2 x 3 window at rows 1, 3 and columns 1, 2, 3
    buf.view_mut_window(6, &[2, 3], &[10, 1]).unwrap().copy_from(&src.to_view());
    let expected = vec![
        -1, -1, -1, -1, -1, -1, 1, 2, 3, -1, -1, -1, -1, -1, -1, -1, 4, 5, 6, -1,
    ];
    assert_eq!(buf.as_slice(), expected.as_slice());
}

#[test]
fn copy_from_scalar() {
    let src = Matrix::from_vec(vec![42], &[]);
    let mut dst = Matrix::<i32>::zeros(&[]);
    dst.to_view_mut().copy_from(&src.to_view());
    assert_eq!(dst.index_item(&[]), 42);
}

#[test]
fn copy_unchecked_strided() {
    let x = Matrix::from_vec(vec![1, 2, 3, 4, 5, 6], &[6]);
    let mut y = Matrix::<i32>::zeros(&[6]);
    let xs = x.view_window(1, &[3], &[2]).unwrap();
    let ys = y.view_mut_window(0, &[3], &[2]).unwrap();
    copy_unchecked::<i32, Cpu>(&xs, ys);
    assert_eq!(y.as_slice(), &[2, 0, 4, 0, 6, 0]);
}
