use ndrt::{FixedVector, NdVec};

#[test]
fn pad_keeps_leading_values_and_fills_the_rest() {
    for_each_dimension_check();
}

fn check_pad<const L: usize>() {
    let base = [1.5f32, -2.0, 3.25];
    let v: NdVec<f32, L> = NdVec::pad(&base, -8.0);
    let comps = v.components();
    assert_eq!(comps.len(), L);
    for i in 0..L {
        if i < base.len() {
            assert_eq!(comps[i], base[i]);
        } else {
            assert_eq!(comps[i], -8.0);
        }
    }
}

fn for_each_dimension_check() {
    check_pad::<2>();
    check_pad::<3>();
    check_pad::<4>();
    check_pad::<5>();
    check_pad::<6>();
    check_pad::<7>();
    check_pad::<8>();
    check_pad::<9>();
}

#[test]
fn pad_truncates_a_longer_source() {
    let v: NdVec<i32, 2> = NdVec::pad(&[4, 5, 6, 7], 0);
    assert_eq!(v.components(), &[4, 5]);
}

#[test]
fn pad_of_empty_source_is_all_default() {
    let v: NdVec<i32, 4> = NdVec::pad(&[], 9);
    assert_eq!(v.components(), &[9, 9, 9, 9]);
}

#[test]
fn camera_padding_uses_the_sentinel() {
    let cam: NdVec<f32, 4> = NdVec::pad(&[0.5, 1.0], -8.0);
    assert_eq!(cam.components(), &[0.5, 1.0, -8.0, -8.0]);
}

#[test]
fn new_is_the_origin() {
    let v: NdVec<f32, 5> = NdVec::new(0.0);
    assert_eq!(v.components(), &[0.0; 5]);
}

#[test]
fn map_applies_to_each_coordinate() {
    let v: NdVec<i64, 3> = NdVec::pad(&[1, -2, 3], 0);
    let w = v.map(|c| c * 10);
    assert_eq!(w.components(), &[10, -20, 30]);
    assert_eq!(v.components(), &[1, -2, 3]);
}

#[test]
fn zip_with_pairs_coordinates() {
    let a: NdVec<f32, 3> = NdVec::pad(&[1.0, 2.0, 3.0], 0.0);
    let b: NdVec<f32, 3> = NdVec::pad(&[0.5, -1.0], 4.0);
    let sum = a.zip_with(&b, |x, y| x + y);
    assert_eq!(sum.components(), &[1.5, 1.0, 7.0]);
    let diff = a.zip_with(&b, |x, y| x - y);
    assert_eq!(diff.components(), &[0.5, 3.0, -1.0]);
}

#[test]
fn fixed_vector_is_the_same_type() {
    let v: FixedVector<u8, 3> = FixedVector::pad(&[1, 2], 0);
    let w: NdVec<u8, 3> = v;
    assert_eq!(w.components(), &[1, 2, 0]);
}
