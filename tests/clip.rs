use zenu_matrix::clip::{clip_filter, Clip, ClipAssign};
use zenu_matrix::matrix::Matrix;

#[test]
fn clip_1d() {
    let a = Matrix::from_vec(vec![1, 2, 3, 4], &[4]);
    let b = a.clip(2, 3);
    assert_eq!(b.as_slice(), &[2, 2, 3, 3]);
}

#[test]
fn clip_2d() {
    let a = Matrix::from_vec(vec![1, 2, 3, 4], &[2, 2]);
    let b = a.clip(2, 3);
    let ans = Matrix::from_vec(vec![2, 2, 3, 3], &[2, 2]);
    assert_eq!(b.as_slice(), ans.as_slice());
    assert_eq!(b.shape().slice(), vec![2, 2]);
}

#[test]
fn clip_3d() {
    let mut v = Vec::new();
    for i in 1..=27 {
        v.push(i);
    }
    let a = Matrix::from_vec(v, &[3, 3, 3]);
    let b = a.clip(2, 3);
    let mut expected = vec![3; 27];
    expected[0] = 2;
    expected[1] = 2;
    let ans = Matrix::from_vec(expected, &[3, 3, 3]);
    assert_eq!(b.as_slice(), ans.as_slice());
}

#[test]
fn clip_assign_2d_2() {
    let mut a = Matrix::from_vec(vec![1, 2, 3, 4, 5, 6], &[2, 3]);
    a.to_view_mut().clip_assign(2, 4);
    let ans = Matrix::from_vec(vec![2, 2, 3, 4, 4, 4], &[2, 3]);
    assert_eq!(a.as_slice(), ans.as_slice());
}

#[test]
fn clip_strided_view() {
    let a = Matrix::from_vec(vec![-5, 100, 0, 100, 9, 100], &[6]);
    let b = a.view_window(0, &[3], &[2]).unwrap().clip(-1, 1);
    assert_eq!(b.as_slice(), &[-1, 0, 1]);
}

#[test]
fn clip_filter_marks_values_inside_the_range() {
    let a = Matrix::from_vec(vec![1, 2, 3, 4, 5, 6], &[2, 3]);
    let mask = clip_filter(&a.to_view(), 4, 2);
    assert_eq!(mask.as_slice(), &[0, 1, 1, 1, 0, 0]);
    assert_eq!(mask.shape().slice(), vec![2, 3]);
}

#[test]
fn clip_filter_scalar() {
    let a = Matrix::from_vec(vec![7i64], &[]);
    assert_eq!(clip_filter(&a.to_view(), 10, 0).as_slice(), &[1i64]);
    assert_eq!(clip_filter(&a.to_view(), 5, 0).as_slice(), &[0i64]);
}
