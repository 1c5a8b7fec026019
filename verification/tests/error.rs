use strided_array::dimension::{DynDim, NDims};
use strided_array::order::ColumnMajor;
use strided_array::routine::{broadcast_shape, normalize_axis};
use strided_array::{Array, Error, ShapeError};

#[test]
fn errors_convert_from_their_causes() {
    let shape: Error = ShapeError::IncompatibleShape("too long".to_string()).into();

    assert!(matches!(
        shape,
        Error::Shape(ShapeError::IncompatibleShape(ref text)) if text == "too long"
    ));

    let cause = u8::try_from(300_i32).unwrap_err();
    let int: Error = cause.into();

    assert!(matches!(int, Error::TryFromInt(e) if e == cause));
}

#[test]
fn messages_name_the_offending_values() {
    match normalize_axis(5, 3) {
        Err(Error::Shape(ShapeError::IncompatibleAxis(text))) => {
            assert_eq!(text, "axis 5 is out of bounds for array of dimension 3");
        }
        other => panic!("unexpected result: {other:?}"),
    }
    match Array::from(vec![1, 2, 3, 4]).to_shape([3, -1]) {
        Err(Error::Shape(ShapeError::IncompatibleShape(text))) => {
            assert_eq!(text, "cannot transform array of length 4 into shape [3, -1]");
        }
        other => panic!("unexpected result: {:?}", other.map(|a| a.shape().clone())),
    }
    match broadcast_shape(&[2, 3], &[4]) {
        Err(Error::Shape(ShapeError::IncompatibleShape(text))) => {
            assert_eq!(text, "operands cannot be broadcast to a single shape");
        }
        other => panic!("unexpected result: {other:?}"),
    }
}

#[test]
fn array_from_a_shape_and_a_buffer() {
    let a: Array<u8, ColumnMajor> = Array::from_shape_vec(&[2, 3], vec![1, 2, 3, 4, 5, 6]).unwrap();

    assert_eq!(a.shape(), &[2, 3]);
    assert_eq!(a.strides(), &[1, 2]);
    assert_eq!(a.offset(), 0);
    assert_eq!(a.to_vec(), vec![1, 3, 5, 2, 4, 6]);
    assert!(Array::<u8>::from_shape_vec(&[2, 3], vec![1, 2, 3]).is_none());
    assert!(Array::<u8>::from_shape_vec(&[usize::MAX, 0], vec![]).is_none());
    assert!(Array::<u8>::from_shape_vec(&[0, 7], vec![]).is_some());
}

#[test]
fn rank_of_an_array() {
    let a = Array::from(vec![1, 2, 3, 4]).into_shape([2, 2]).unwrap();

    assert!(a.has_dimensionality::<NDims<2>>());
    assert!(!a.has_dimensionality::<NDims<3>>());
    assert!(a.has_dimensionality::<DynDim>());
}

#[test]
fn strides_of_a_broadcast() {
    let a = Array::from(vec![1, 2, 3]).into_shape([3, 1]).unwrap();

    assert_eq!(a.compute_strides_broadcasted(&[2, 3, 4]).unwrap(), vec![0, 1, 0]);
    assert!(a.compute_strides_broadcasted(&[3]).is_err());
    assert!(a.compute_strides_broadcasted(&[4, 4]).is_err());
}
