use strided_array::dimension::{max, Dimensionality, DynDim, NDims};
use strided_array::order::{ColumnMajor, Order, RowMajor};
use strided_array::routine::{broadcast_shape, normalize_axis};
use strided_array::shape::{checked_array_len, span_fits, Shape, SignedShape};
use strided_array::Error;

#[test]
fn get_shape_zeroed() {
    assert_eq!(NDims::<3>::shape_zeroed(3), [0; 3]);
    assert_eq!(DynDim::shape_zeroed(3), vec![0; 3]);
}

#[test]
fn get_strides_zeroed() {
    assert_eq!(NDims::<3>::strides_zeroed(3), [0; 3]);
    assert_eq!(DynDim::strides_zeroed(3), vec![0; 3]);
}

#[test]
fn get_first_indices() {
    {
        let indices = NDims::<3>::first_indices(&[2, 0, 4]);

        assert!(indices.is_none());
    }
    {
        let indices = DynDim::first_indices(&vec![2, 0, 4]);

        assert!(indices.is_none());
    }
    {
        let indices = NDims::<1>::first_indices(&[4]).unwrap();

        assert_eq!(indices, [0]);
    }
    {
        let indices = DynDim::first_indices(&vec![4]).unwrap();

        assert_eq!(indices, vec![0]);
    }
    {
        let indices = NDims::<3>::first_indices(&[2, 3, 4]).unwrap();

        assert_eq!(indices, [0; 3]);
    }
    {
        let indices = DynDim::first_indices(&vec![2, 3, 4]).unwrap();

        assert_eq!(indices, vec![0; 3]);
    }
}

#[test]
fn rank_of_a_dimensionality() {
    assert!(NDims::<3>::has_rank(3));
    assert!(!NDims::<3>::has_rank(4));
    assert!(DynDim::has_rank(4));
    assert_eq!(max(2, 3), 3);
    assert_eq!(max(3, 2), 3);
}

#[test]
fn check_whether_data_is_contiguous_with_c_order() {
    assert!(RowMajor::is_data_contiguous(&[2, 3, 4], &[12, 4, 1]));
    assert!(!RowMajor::is_data_contiguous(&[2, 3, 4], &[12, -4, 1]));
}

#[test]
fn check_whether_data_is_contiguous_with_f_order() {
    assert!(ColumnMajor::is_data_contiguous(&[2, 3, 4], &[1, 2, 6]));
    assert!(!ColumnMajor::is_data_contiguous(&[2, 3, 4], &[1, -2, 6]));
}

#[test]
fn contiguity_skips_axes_of_one_index() {
    assert!(RowMajor::is_data_contiguous(&[2, 1, 4], &[4, 77, 1]));
    assert!(ColumnMajor::is_data_contiguous(&[2, 1, 4], &[1, 77, 2]));
    assert!(RowMajor::is_data_contiguous(&[1, 1], &[5, 7]));
    assert!(RowMajor::is_data_contiguous(&[3, 0], &[5, 7]));
}

#[test]
fn convert_shape_to_stride_with_c_order() {
    let mut strides = [0_isize; 3];
    RowMajor::convert_shape_to_default_strides(&[2_usize, 3, 4], &mut strides);

    assert_eq!(strides, [12, 4, 1]);
}

#[test]
fn convert_shape_to_stride_with_f_order() {
    let mut strides = [0_isize; 3];
    ColumnMajor::convert_shape_to_default_strides(&[2_usize, 3, 4], &mut strides);

    assert_eq!(strides, [1, 2, 6]);
}

#[test]
fn scaled_strides_count_an_empty_axis_as_one() {
    let mut strides = [0_isize; 3];
    RowMajor::convert_shape_to_strides(&[2_usize, 0, 4], -2, &mut strides);

    assert_eq!(strides, [-8, -8, -2]);

    ColumnMajor::convert_shape_to_strides(&[2_usize, 0, 4], 3, &mut strides);

    assert_eq!(strides, [3, 6, 6]);
}

#[test]
fn monotonic_alignment() {
    assert!(RowMajor::is_data_aligned_monotonically(&[2, 3, 4], &[24, 8, 2]));
    assert!(!RowMajor::is_data_aligned_monotonically(&[2, 3, 4], &[24, 4, 2]));
    assert!(ColumnMajor::is_data_aligned_monotonically(&[2, 3, 4], &[3, 6, 18]));
    assert!(!ColumnMajor::is_data_aligned_monotonically(&[2, 3, 4], &[3, 6, 12]));
    assert!(RowMajor::is_data_aligned_monotonically(&[5], &[-7]));
}

#[test]
fn names_of_the_orders() {
    assert_eq!(RowMajor::name(), "\"row major\"");
    assert_eq!(ColumnMajor::name(), "\"column major\"");
    assert!(RowMajor::is_row_major());
    assert!(!ColumnMajor::is_row_major());
}

#[test]
fn broadcast_shapes() {
    let s0 = broadcast_shape(&[1, 5], &[3, 4, 1]).unwrap();
    let s1 = broadcast_shape(&[3, 4, 1], &[1, 5]).unwrap();

    assert_eq!(s0, vec![3, 4, 5]);
    assert_eq!(s0, s1);
}

#[test]
#[should_panic]
fn broadcast_incompatible_shapes() {
    broadcast_shape(&[1, 2], &[3, 4, 5]).unwrap();
}

#[test]
fn broadcast_incompatible_shapes_is_an_error() {
    let r = broadcast_shape(&[1, 2], &[3, 4, 5]);

    assert!(matches!(r, Err(Error::Shape(_))));
}

#[test]
fn normalize_axes() {
    assert_eq!(normalize_axis(0, 3).unwrap(), 0);
    assert_eq!(normalize_axis(2, 3).unwrap(), 2);
    assert_eq!(normalize_axis(-1, 3).unwrap(), 2);
    assert_eq!(normalize_axis(-3, 3).unwrap(), 0);
    assert!(normalize_axis(3, 3).is_err());
    assert!(normalize_axis(-4, 3).is_err());
    assert!(normalize_axis(0, 0).is_err());
}

#[test]
fn shape_by_array() {
    let shape = [2_usize, 3, 4];

    assert_eq!(shape.array_len(), shape.iter().product());
    assert_eq!(shape.n_dims(), shape.len());
    assert_eq!(shape.to_default_strides::<RowMajor>(), [12, 4, 1]);
}

#[test]
fn shape_by_vec() {
    let shape = vec![2_usize, 3, 4];

    assert_eq!(shape.array_len(), shape.iter().product());
    assert_eq!(shape.n_dims(), shape.len());
    assert_eq!(shape.to_default_strides::<RowMajor>(), [12, 4, 1]);
}

#[test]
fn element_counts_that_do_not_fit() {
    assert_eq!(checked_array_len(&[]), Some(1));
    assert_eq!(checked_array_len(&[2, 3, 4]), Some(24));
    assert_eq!(checked_array_len(&[usize::MAX, 2]), None);
    assert_eq!(checked_array_len(&[usize::MAX, 2, 0]), Some(0));
    assert!(span_fits(&[2, 3, 4]));
    assert!(!span_fits(&[usize::MAX, 2, 0]));
    assert!(span_fits(&[isize::MAX as usize, 0, 1]));
    assert!(!span_fits(&[isize::MAX as usize, 2]));
}

#[test]
fn rank_of_a_requested_shape() {
    assert_eq!([2_isize, -1].ndims(), 2);
    assert_eq!(vec![2_isize, -1, 3].ndims(), 3);
}
