use zenu_matrix::dim::DimDyn;
use zenu_matrix::shape_stride::ShapeStride;

#[test]
fn dim_round_trip_up_to_rank_four() {
    let d = DimDyn::new(&[2, 3, 5, 7]);
    assert_eq!(d.get_len(), 4);
    assert_eq!(d.index(0), 2);
    assert_eq!(d.index(1), 3);
    assert_eq!(d.index(2), 5);
    assert_eq!(d.index(3), 7);
    assert_eq!(d.num_elm(), 210);
    assert!(!d.is_empty());
}

#[test]
fn dim_empty_is_scalar_shape() {
    let d = DimDyn::new(&[]);
    assert!(d.is_empty());
    assert_eq!(d.num_elm(), 1);
}

#[test]
fn dim_set_len_and_set() {
    let mut d = DimDyn::new(&[4, 5]);
    d.set_len(1);
    assert_eq!(d.slice(), vec![4]);
    d.set(0, 9);
    assert_eq!(d.dim()[0], 9);
}

#[test]
fn dims_of_different_rank_differ() {
    let mut a = DimDyn::new(&[3, 0]);
    a.set_len(1);
    let b = DimDyn::new(&[3]);
    let c = DimDyn::new(&[3, 0]);
    assert!(a.same(&b));
    assert!(!b.same(&c));
}

#[test]
fn include_aligns_trailing_axes() {
    let a = DimDyn::new(&[2, 3, 4]);
    assert!(a.is_include(&DimDyn::new(&[3, 4])));
    assert!(a.is_include(&DimDyn::new(&[])));
    assert!(a.is_include(&DimDyn::new(&[2, 3, 4])));
    assert!(!a.is_include(&DimDyn::new(&[2, 3])));
    assert!(!DimDyn::new(&[4]).is_include(&DimDyn::new(&[2, 4])));
}

#[test]
fn contiguity_of_layouts() {
    let shape = DimDyn::new(&[2, 3, 4]);
    let canonical = ShapeStride::default_stride(shape);
    assert_eq!(canonical.stride().slice(), vec![12, 4, 1]);
    assert!(canonical.is_contiguous());
    let transposed = ShapeStride::new(DimDyn::new(&[3, 2]), DimDyn::new(&[1, 3]));
    assert!(!transposed.is_contiguous());
    let sliced = ShapeStride::new(DimDyn::new(&[3]), DimDyn::new(&[2]));
    assert!(!sliced.is_contiguous());
    assert!(sliced.fits_in(0, 5));
    assert!(!sliced.fits_in(0, 4));
    assert!(sliced.fits_in(1, 6));
}

#[test]
fn transposition_of_layouts() {
    let square_t = ShapeStride::new(DimDyn::new(&[3, 3]), DimDyn::new(&[1, 3]));
    assert!(square_t.is_transposed());
    assert!(!square_t.is_contiguous());
    let canonical = ShapeStride::default_stride(DimDyn::new(&[3, 3]));
    assert!(!canonical.is_transposed());
    let swapped = ShapeStride::new(DimDyn::new(&[2, 3, 4]), DimDyn::new(&[4, 12, 1]));
    assert!(swapped.is_transposed());
    let sliced = ShapeStride::new(DimDyn::new(&[3, 3]), DimDyn::new(&[6, 2]));
    assert!(!sliced.is_transposed());
    let scalar = ShapeStride::default_stride(DimDyn::new(&[]));
    assert!(!scalar.is_transposed());
}
