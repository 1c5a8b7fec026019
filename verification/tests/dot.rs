use strided_array::array_index::ArrayIndex;
use strided_array::slice::Slice;
use strided_array::slice_info::SliceInfo;
use strided_array::array::linalg::{dot_lines, dot_shape_of};
use strided_array::iter::ElementIterator;
use strided_array::Array;

#[test]
fn dot_1d() {
    let a = Array::from(vec![1, 2, 3]);
    let actual = a.dot(&a.transpose());
    let expected = Array::from(vec![14])
        .slice(&SliceInfo::from(vec![ArrayIndex::from(0)]))
        .to_owned_array();

    assert_eq!(actual, expected);
}

#[test]
fn dot_2d() {
    let a = Array::from(vec![1, 2, 3, 4, 5, 6, 7, 8, 9])
        .into_shape([3, 3])
        .unwrap();
    let actual = a.dot(&a.transpose());
    let expected = Array::from(vec![14, 32, 50, 32, 77, 122, 50, 122, 194])
        .into_shape([3, 3])
        .unwrap();

    assert_eq!(actual, expected);
}

#[test]
fn dot_4d() {
    let a = Array::from((1_usize..17).collect::<Vec<usize>>())
        .into_shape([2, 2, 2, 2])
        .unwrap();
    let actual = a.dot(&a.transpose());
    let expected = Array::from(vec![
        11, 35, 17, 41, 14, 38, 20, 44, 23, 79, 37, 93, 30, 86, 44, 100, 35, 123, 57, 145, 46,
        134, 68, 156, 47, 167, 77, 197, 62, 182, 92, 212, 59, 211, 97, 249, 78, 230, 116, 268,
        71, 255, 117, 301, 94, 278, 140, 324, 83, 299, 137, 353, 110, 326, 164, 380, 95, 343,
        157, 405, 126, 374, 188, 436,
    ])
    .into_shape([2, 2, 2, 2, 2, 2])
    .unwrap();

    assert_eq!(actual, expected);
}

#[test]
fn dot_of_view() {
    let a = Array::from(vec![1, 2, 3, 4, 5, 6, 7, 8, 9])
        .into_shape([3, 3])
        .unwrap();
    let every_other = ArrayIndex::from(Slice::range_full().step_by(2));
    let view = a.slice(&SliceInfo::from(vec![every_other, every_other]));
    let actual = view.dot(&view.transpose());
    let expected = Array::from(vec![10, 34, 34, 130])
        .into_shape([2, 2])
        .unwrap();

    assert_eq!(actual, expected);
}

#[test]
fn dot_of_zeros() {
    let a = Array::<usize>::zeros(&[3, 3]);
    let mut iter_all_zero = true;
    let product = a.dot(&a);
    let mut iter = product.iter();
    while let Some(&x) = iter.next() {
        iter_all_zero &= x == 0;
    }

    assert!(iter_all_zero);
    assert_eq!(product.shape(), &[3, 3]);
}

#[test]
fn dot_of_zero_length_arrays() {
    let a: Array<usize> = Array::from(vec![]).into_shape([2, 0]).unwrap();
    let b: Array<usize> = Array::from(vec![]).into_shape([0, 2]).unwrap();

    assert_eq!(
        a.dot(&b),
        Array::from(vec![0, 0, 0, 0]).into_shape([2, 2]).unwrap()
    );
}

#[test]
fn dot_of_a_matrix_and_a_vector() {
    let m = Array::from(vec![1, 2, 3, 4, 5, 6]).into_shape([2, 3]).unwrap();
    let v = Array::from(vec![1, 0, -1]);
    let actual = m.dot(&v);

    assert_eq!(actual.shape(), &[2]);
    assert_eq!(actual.to_vec(), vec![-2, -2]);
    assert_eq!(m.dot_with_zero(&v, 100).to_vec(), vec![-2, -2]);
}

#[test]
fn shape_of_a_dot_product() {
    assert_eq!(dot_shape_of(&[2, 3], &[3, 4]), vec![2, 4]);
    assert_eq!(dot_shape_of(&[3], &[3]), Vec::<usize>::new());
    assert_eq!(dot_shape_of(&[5, 2, 3], &[7, 3, 4]), vec![5, 2, 7, 4]);
    assert_eq!(dot_shape_of(&[2, 3], &[3]), vec![2]);
}

#[test]
fn dot_of_two_lines() {
    let left = [1, 2, 3, 4];
    let right = [5, 6, 7, 8];
    let l = ElementIterator::new(&left, 0, 2, 2);
    let r = ElementIterator::new(&right, 3, 2, -1);

    assert_eq!(dot_lines(l, r, 0), 1 * 8 + 3 * 7);

    let l = ElementIterator::new(&left, 0, 0, 1);
    let r = ElementIterator::new(&right, 0, 0, 1);

    assert_eq!(dot_lines(l, r, -9), -9);
}
