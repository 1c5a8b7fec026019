use strided_array::array_index::{ArrayIndex, NewAxis};
use strided_array::order::{ColumnMajor, RowMajor};
use strided_array::shape::Shape;
use strided_array::slice::Slice;
use strided_array::slice_info::SliceInfo;
use strided_array::storage::{CowBuffer, Storage, StorageBase};
use strided_array::{Array, ArrayBase, Error, ShapeError};

fn info(indices: Vec<ArrayIndex>) -> SliceInfo {
    SliceInfo::from(indices)
}

fn full() -> ArrayIndex {
    ArrayIndex::from(Slice::range_full())
}

fn counted(n: usize) -> Vec<usize> {
    (0..n).collect()
}

#[test]
fn allocate_uninitialized() {
    let shape = [2, 3, 4];
    let a3 = Array::<f64>::allocate_uninitialized(&shape);

    assert_eq!(a3.shape(), &shape);
    assert_eq!(a3.len(), 24);
    assert_eq!(a3.storage().as_slice().len(), 24);
}

#[test]
fn broadcast_to_smaller_dimensions() {
    let a3 = Array::from((1..7).collect::<Vec<usize>>())
        .into_shape([1, 2, 3])
        .unwrap();

    assert!(matches!(
        a3.broadcast_to(&[2, 3]),
        Err(Error::Shape(ShapeError::IncompatibleDimension(_)))
    ));
}

#[test]
fn broadcast_to_invalid_shape() {
    let a3 = Array::from((1..7).collect::<Vec<usize>>())
        .into_shape([1, 2, 3])
        .unwrap();

    assert!(matches!(
        a3.broadcast_to(&[2, 3, 3]),
        Err(Error::Shape(ShapeError::IncompatibleDimension(_)))
    ));
}

#[test]
fn broadcast_to() {
    let a1 = Array::from(vec![1; 6]);
    {
        let a3 = a1.to_shape([1, 2, 3]).unwrap();
        {
            let a = a3.broadcast_to(&[2, 2, 3]).unwrap();

            assert_eq!(a.shape(), &[2, 2, 3]);
            assert_eq!(a.strides(), &[0, 3, 1]);
            assert_eq!(a.offset(), a3.offset());
        }
        {
            let a = a3.broadcast_to(&vec![4, 2, 2, 3]).unwrap();

            assert_eq!(a.shape(), &[4, 2, 2, 3]);
            assert_eq!(a.strides(), &[0, 0, 3, 1]);
            assert_eq!(a.offset(), a3.offset());
        }
    }
    {
        let a3 = a1.to_shape_with_order::<_, ColumnMajor>([1, 2, 3]).unwrap();
        {
            let a = a3.broadcast_to(&[2, 2, 3]).unwrap();

            assert_eq!(a.shape(), &[2, 2, 3]);
            assert_eq!(a.strides(), &[0, 1, 2]);
            assert_eq!(a.offset(), a3.offset());
        }
        {
            let a = a3.broadcast_to(&vec![4, 2, 2, 3]).unwrap();

            assert_eq!(a.shape(), &[4, 2, 2, 3]);
            assert_eq!(a.strides(), &[0, 0, 1, 2]);
            assert_eq!(a.offset(), a3.offset());
        }
    }
}

#[test]
fn broadcast_to_borrows_the_buffer() {
    let a = Array::from(vec![1_usize, 2, 3]);
    let b = a.broadcast_to(&[4, 3]).unwrap();

    assert!(std::ptr::eq(b.storage().as_slice(), a.storage().as_slice()));
    assert_eq!(
        b.iter().cloned_vec(),
        vec![1, 2, 3, 1, 2, 3, 1, 2, 3, 1, 2, 3]
    );
}

trait ClonedVec<T> {
    fn cloned_vec(self) -> Vec<T>;
}

impl<'a, T: Clone> ClonedVec<T> for strided_array::Iter<'a, T> {
    fn cloned_vec(mut self) -> Vec<T> {
        let mut out = Vec::new();
        while let Some(x) = self.next() {
            out.push(x.clone());
        }
        out
    }
}

#[test]
fn concatenate() {
    let a = Array::from(counted(6)).into_shape([1, 2, 3]).unwrap();
    {
        let actual: Array<usize> = Array::concatenate(&[a.view(), a.view()], 0).unwrap();
        let expected = Array::from(vec![0, 1, 2, 3, 4, 5, 0, 1, 2, 3, 4, 5])
            .into_shape([2, 2, 3])
            .unwrap();

        assert_eq!(actual, expected);
    }
    {
        let actual: Array<usize> = Array::concatenate(&[a.view(), a.view()], 1).unwrap();
        let expected = Array::from(vec![0, 1, 2, 3, 4, 5, 0, 1, 2, 3, 4, 5])
            .into_shape([1, 4, 3])
            .unwrap();

        assert_eq!(actual, expected);
    }
    {
        let actual: Array<usize> = Array::concatenate(&[a.view(), a.view()], 2).unwrap();
        let expected = Array::from(vec![0, 1, 2, 0, 1, 2, 3, 4, 5, 3, 4, 5])
            .into_shape([1, 2, 6])
            .unwrap();

        assert_eq!(actual, expected);
    }
}

#[test]
fn concatenate_arrays_of_different_order() {
    let a = Array::from(vec![1, 2, 3, 4]).into_shape([2, 2]).unwrap();
    let concatenated: Array<i32, ColumnMajor> =
        Array::concatenate(&[a.view(), a.view()], 0).unwrap();
    let actual = concatenated.storage();
    let expected = StorageBase(vec![1, 3, 1, 3, 2, 4, 2, 4]);

    assert_eq!(actual, &expected);
}

#[test]
fn concatenate_zero_length_arrays() {
    let a: Array<usize> = Array::from(vec![]).into_shape([1, 0, 2]).unwrap();
    {
        let actual: Array<usize> = Array::concatenate(&[a.view(), a.view()], 0).unwrap();
        let expected = Array::from(vec![]).into_shape([2, 0, 2]).unwrap();

        assert_eq!(actual, expected);
    }
    {
        let actual: Array<usize> = Array::concatenate(&[a.view(), a.view()], 1).unwrap();
        let expected = Array::from(vec![]).into_shape([1, 0, 2]).unwrap();

        assert_eq!(actual, expected);
    }
    {
        let actual: Array<usize> = Array::concatenate(&[a.view(), a.view()], 2).unwrap();
        let expected = Array::from(vec![]).into_shape([1, 0, 4]).unwrap();

        assert_eq!(actual, expected);
    }
}

#[test]
fn concatenate_errors() {
    let a = Array::from(counted(6)).into_shape([1, 2, 3]).unwrap();
    let b = Array::from(counted(6)).into_shape([2, 3]).unwrap();
    let c = Array::from(counted(4)).into_shape([1, 2, 2]).unwrap();
    let none: [ArrayBase<StorageBase<&[usize]>>; 0] = [];

    assert!(matches!(
        Array::<usize>::concatenate(&none, 0),
        Err(Error::Value(_))
    ));
    assert!(matches!(
        Array::<usize>::concatenate(&[a.view(), a.view()], 3),
        Err(Error::Shape(ShapeError::IncompatibleAxis(_)))
    ));
    assert!(matches!(
        Array::<usize>::concatenate(&[a.view(), b.view()], 0),
        Err(Error::Shape(ShapeError::IncompatibleDimension(_)))
    ));
    assert!(matches!(
        Array::<usize>::concatenate(&[a.view(), c.view()], 0),
        Err(Error::Shape(ShapeError::IncompatibleDimension(_)))
    ));
    let joined: Array<usize> = Array::concatenate(&[a.view(), c.view()], -1).unwrap();
    assert_eq!(joined.shape(), &[1, 2, 5]);
    assert_eq!(
        joined.iter().cloned_vec(),
        vec![0, 1, 2, 0, 1, 3, 4, 5, 2, 3]
    );
    let point = Array::from(vec![1_usize]);
    let scalar = point.slice(&info(vec![ArrayIndex::from(0)]));
    assert!(matches!(
        Array::<usize>::concatenate(&[scalar.view()], 0),
        Err(Error::Shape(ShapeError::IncompatibleDimension(_)))
    ));
}

#[test]
#[should_panic]
fn convert_empty_array_to_ambiguous_shape() {
    let a = Array::from(Vec::<usize>::new());
    a.to_shape([2, 0, -1]).unwrap();
}

#[test]
#[should_panic]
fn convert_empty_array_into_ambiguous_shape() {
    let a = Array::from(Vec::<usize>::new());
    a.into_shape([2, 0, -1]).unwrap();
}

#[test]
#[should_panic]
fn convert_to_ambiguous_shape() {
    let a = Array::from(vec![1, 2, 3, 4]);
    a.to_shape([2, -1, -1]).unwrap();
}

#[test]
#[should_panic]
fn convert_into_ambiguous_shape() {
    let a = Array::from(vec![1, 2, 3, 4]);
    a.into_shape([2, -1, -1]).unwrap();
}

#[test]
#[should_panic]
fn convert_to_incompatible_shape() {
    let a = Array::from(vec![1, 2, 3, 4]);
    a.to_shape([2, 2, 2]).unwrap();
}

#[test]
#[should_panic]
fn convert_into_incompatible_shape() {
    let a = Array::from(vec![1, 2, 3, 4]);
    a.into_shape([2, 2, 2]).unwrap();
}

#[test]
fn reshape_errors_are_shape_errors() {
    let a = Array::from(vec![1, 2, 3, 4]);

    assert!(matches!(
        a.to_shape([2, -1, -1]),
        Err(Error::Shape(ShapeError::IncompatibleShape(_)))
    ));
    assert!(matches!(
        a.to_shape([2, 2, 2]),
        Err(Error::Shape(ShapeError::IncompatibleShape(_)))
    ));
    assert!(matches!(
        a.to_shape([3, -1]),
        Err(Error::Shape(ShapeError::IncompatibleShape(_)))
    ));
    assert!(matches!(
        a.to_shape([0, -1]),
        Err(Error::Shape(ShapeError::IncompatibleShape(_)))
    ));
    assert_eq!(a.infer_shape(&[-1, 2]).unwrap(), vec![2, 2]);
    assert_eq!(a.infer_shape(&[4, 1, -1]).unwrap(), vec![4, 1, 1]);
    assert_eq!(a.infer_shape(&[]).is_err(), true);
}

#[test]
fn convert_to_new_shape() {
    let a1 = Array::from((1..25).collect::<Vec<usize>>());
    {
        let new_shape = [2_isize, 3, 4];
        let shape = new_shape.map(|x| x as usize);
        let a2 = a1.to_shape(new_shape).unwrap();

        assert_eq!(a2.shape(), &shape);
        assert_eq!(a2.strides(), &shape.to_default_strides::<RowMajor>());
        assert!(std::ptr::eq(a2.storage().as_slice(), a1.storage().as_slice()));
        assert_eq!(a2.offset(), 0);
    }
    {
        let new_shape = [2_isize, 3, 4];
        let shape = new_shape.map(|x| x as usize);
        let a2 = a1.to_shape_with_order::<_, ColumnMajor>(new_shape).unwrap();

        assert_eq!(a2.shape(), &shape);
        assert_eq!(a2.strides(), &shape.to_default_strides::<ColumnMajor>());
        assert!(std::ptr::eq(a2.storage().as_slice(), a1.storage().as_slice()));
        assert_eq!(a2.offset(), 0);
    }
}

#[test]
fn convert_into_new_shape() {
    {
        let a1 = Array::from((1..25).collect::<Vec<usize>>());
        let first = a1.storage().as_slice().as_ptr() as usize;
        let new_shape = [2_isize, 3, 4];
        let shape = new_shape.map(|x| x as usize);
        let a2 = a1.into_shape(new_shape).unwrap();

        assert_eq!(a2.shape(), &shape);
        assert_eq!(a2.strides(), &shape.to_default_strides::<RowMajor>());
        assert_eq!(a2.storage().as_slice().as_ptr() as usize, first);
        assert_eq!(a2.offset(), 0);
    }
    {
        let a1 = Array::from((1..25).collect::<Vec<usize>>());
        let first = a1.storage().as_slice().as_ptr() as usize;
        let new_shape = [2_isize, 3, 4];
        let shape = new_shape.map(|x| x as usize);
        let a2 = a1.into_shape_with_order::<_, ColumnMajor>(new_shape).unwrap();

        assert_eq!(a2.shape(), &shape);
        assert_eq!(a2.strides(), &shape.to_default_strides::<ColumnMajor>());
        assert_eq!(a2.storage().as_slice().as_ptr() as usize, first);
        assert_eq!(a2.offset(), 0);
    }
}

#[test]
fn convert_to_the_same_shape() {
    let data = vec![1_usize, 2, 3, 4];
    let a = Array::from(data.clone());
    let subject = a.to_shape([4]).unwrap();

    assert_eq!(subject.shape(), a.shape());
    assert_eq!(subject.strides(), a.strides());
    assert!(matches!(subject.storage().0, CowBuffer::Borrowed(_)));
    assert_eq!(subject.storage().as_slice(), data.as_slice());
    assert_eq!(subject.offset(), a.offset());
}

#[test]
fn convert_into_the_same_shape() {
    let data = vec![1_usize, 2, 3, 4];
    let a = Array::from(data.clone());
    let subject = a.into_shape([4]).unwrap();

    assert_eq!(subject.shape(), &[4]);
    assert_eq!(subject.strides(), &[1]);
    assert_eq!(subject.storage(), &StorageBase(data));
    assert_eq!(subject.offset(), 0);
}

#[test]
fn reshape_round_trip() {
    let a = Array::from((1..25).collect::<Vec<usize>>())
        .into_shape([2, 3, 4])
        .unwrap();
    let b = a.to_shape([4, 2, 3]).unwrap();

    assert!(matches!(b.storage().0, CowBuffer::Borrowed(_)));
    assert!(std::ptr::eq(b.storage().as_slice(), a.storage().as_slice()));
    assert_eq!(b.strides(), &[6, 3, 1]);

    let c = b.to_shape([2, 3, 4]).unwrap();

    assert_eq!(c.shape(), a.shape());
    assert_eq!(c.iter().cloned_vec(), (1..25).collect::<Vec<usize>>());
    assert_eq!(c.iter().cloned_vec(), a.iter().cloned_vec());
    assert!(Array::from(vec![1, 2, 3, 4]).into_shape([2, 2, 2]).is_err());
}

#[test]
fn reshape_of_a_view_that_is_not_aligned_copies() {
    let a = Array::from((0..24).collect::<Vec<usize>>())
        .into_shape([4, 6])
        .unwrap();
    let left = a.slice(&info(vec![full(), ArrayIndex::from(Slice::range_to(2))]));

    assert_eq!(left.shape(), &[4, 2]);
    assert_eq!(left.strides(), &[6, 1]);

    let flat = left.to_shape([8]).unwrap();

    assert!(matches!(flat.storage().0, CowBuffer::Owned(_)));
    assert_eq!(flat.strides(), &[1]);
    assert_eq!(flat.offset(), 0);
    assert_eq!(flat.storage().as_slice(), &[0, 1, 6, 7, 12, 13, 18, 19]);
}

#[test]
fn reshape_of_an_aligned_view_scales_the_strides() {
    let a = Array::from((0..24).collect::<Vec<usize>>())
        .into_shape([4, 6])
        .unwrap();
    let every_other = a.slice(&info(vec![
        full(),
        ArrayIndex::from(Slice::range_full().step_by(2)),
    ]));

    assert_eq!(every_other.shape(), &[4, 3]);
    assert_eq!(every_other.strides(), &[6, 2]);

    let flat = every_other.to_shape([12]).unwrap();

    assert!(matches!(flat.storage().0, CowBuffer::Borrowed(_)));
    assert_eq!(flat.strides(), &[2]);
    assert_eq!(
        flat.iter().cloned_vec(),
        vec![0, 2, 4, 6, 8, 10, 12, 14, 16, 18, 20, 22]
    );

    let column = a.slice(&info(vec![full(), ArrayIndex::from(Slice::from(1..2))]));
    let stretched = column.to_shape([2, 2]).unwrap();

    assert!(matches!(stretched.storage().0, CowBuffer::Borrowed(_)));
    assert_eq!(stretched.strides(), &[12, 6]);
    assert_eq!(stretched.offset(), 1);
    assert_eq!(stretched.iter().cloned_vec(), vec![1, 7, 13, 19]);
}

#[test]
fn reshape_in_column_major_order_scales_by_the_first_stride() {
    let a: Array<usize, ColumnMajor> = Array::from_elem(&[2, 3], 0);

    assert_eq!(a.strides(), &[1, 2]);

    let b = a.to_shape([3, 2]).unwrap();

    assert!(matches!(b.storage().0, CowBuffer::Borrowed(_)));
    assert_eq!(b.strides(), &[1, 3]);
}

#[test]
fn expand_shape() {
    let a = Array::from(vec![1, 2, 3, 4]).into_shape([2, 2]).unwrap();
    {
        let subject = a.expand_shape(0).unwrap();

        assert_eq!(subject.iter().cloned_vec(), vec![1, 2, 3, 4]);
        assert_eq!(subject.shape(), &[1, 2, 2]);
    }
    {
        let subject = a.expand_shape(2).unwrap();

        assert_eq!(subject.iter().cloned_vec(), vec![1, 2, 3, 4]);
        assert_eq!(subject.shape(), &[2, 2, 1]);
    }
    {
        let subject = a.expand_shape(-1).unwrap();

        assert_eq!(subject.iter().cloned_vec(), vec![1, 2, 3, 4]);
        assert_eq!(subject.shape(), &[2, 2, 1]);
    }
    {
        let subject = a.expand_shape(-3).unwrap();

        assert_eq!(subject.iter().cloned_vec(), vec![1, 2, 3, 4]);
        assert_eq!(subject.shape(), &[1, 2, 2]);
    }
    assert!(matches!(
        a.expand_shape(3),
        Err(Error::Shape(ShapeError::IncompatibleAxis(_)))
    ));
    assert!(matches!(
        a.expand_shape(-4),
        Err(Error::Shape(ShapeError::IncompatibleAxis(_)))
    ));
}

#[test]
fn fill() {
    let mut a3 = Array::from((1..25).collect::<Vec<i32>>())
        .into_shape([2, 3, 4])
        .unwrap();
    a3.fill(7);

    assert!(a3.iter().cloned_vec().iter().all(|&x| x == 7));
}

#[test]
fn fill_a_slice_leaves_the_rest() {
    let mut a = Array::from(counted(6)).into_shape([2, 3]).unwrap();
    {
        let mut column = a.slice_mut(&info(vec![full(), ArrayIndex::from(1)]));
        column.fill(9);
    }

    assert_eq!(a.storage().as_slice(), &[0, 9, 2, 3, 9, 5]);
}

#[test]
fn fill_a_borrowed_copy_on_write_array_leaves_the_source() {
    let a = Array::from(counted(4));
    let mut b = a.to_shape([2, 2]).unwrap();

    assert!(matches!(b.storage().0, CowBuffer::Borrowed(_)));

    b.fill(7);

    assert!(matches!(b.storage().0, CowBuffer::Owned(_)));
    assert_eq!(b.storage().as_slice(), &[7, 7, 7, 7]);
    assert_eq!(a.storage().as_slice(), &[0, 1, 2, 3]);
}

#[test]
fn flip_along_axes() {
    let a = Array::from((0..24).collect::<Vec<i32>>())
        .into_shape([2, 3, 4])
        .unwrap();

    for axis in [0_isize, 1, 2] {
        let subject = a.flip_along_axes(&[axis]).unwrap();

        assert_eq!(subject.storage(), a.view().storage());
        assert_eq!(a.shape(), subject.shape());

        let mut actual_strides = subject.strides().clone();
        actual_strides[axis as usize] *= -1;

        assert_eq!(&actual_strides, a.strides());
    }
    let back = a.flip_along_axes(&[-1]).unwrap();
    assert_eq!(back.offset(), 3);
    assert_eq!(back.strides(), &[12, 4, -1]);
    assert_eq!(
        back.iter().cloned_vec()[..8],
        [3, 2, 1, 0, 7, 6, 5, 4]
    );
    assert!(matches!(
        a.flip_along_axes(&[3]),
        Err(Error::Shape(ShapeError::IncompatibleAxis(_)))
    ));
}

#[test]
fn flip_twice() {
    let a = Array::from((0..24).collect::<Vec<i32>>())
        .into_shape([2, 3, 4])
        .unwrap();

    assert_eq!(a.flip().flip(), a.view());
    assert_eq!(a.flip().offset(), 23);
    assert_eq!(a.flip().strides(), &[-12, -4, -1]);
}

#[test]
fn is_empty() {
    let a1 = Array::from(Vec::<usize>::new());
    let a3 = Array::from(Vec::<usize>::new())
        .into_shape([3, 2, 0])
        .unwrap();

    assert!(a1.is_empty());
    assert!(a3.is_empty());
    assert!(a1.iter().is_empty());
    assert!(a3.iter().next().is_none());
    assert!(!Array::from(vec![1]).is_empty());
}

#[test]
fn len() {
    let shape = [2_isize, 3, 4];
    let a3 = Array::from((1..25).collect::<Vec<usize>>())
        .into_shape(shape)
        .unwrap();

    assert_eq!(a3.len(), shape.iter().map(|&x| x as usize).product());
}

#[test]
fn ndims() {
    let shape = [2_isize, 3, 4];
    let a3 = Array::from((1..25).collect::<Vec<usize>>())
        .into_shape(shape)
        .unwrap();

    assert_eq!(a3.ndims(), shape.len());
}

#[test]
fn ones() {
    let shape = [2, 3, 4];
    let a3 = Array::<u64>::ones(&shape);

    assert_eq!(a3.shape(), &shape);
    assert!(a3.iter().cloned_vec().iter().all(|&x| x == 1));
    assert_eq!(a3.len(), 24);
}

#[test]
fn zeros() {
    let shape = [2, 3, 4];
    let a3 = Array::<u64>::zeros(&shape);

    assert_eq!(a3.shape(), &shape);
    assert!(a3.iter().cloned_vec().iter().all(|&x| x == 0));
    assert_eq!(a3.len(), 24);
}

#[test]
fn from_elem_in_either_order() {
    let r: Array<u8> = Array::from_elem(&vec![2, 0, 3], 5);
    let c: Array<u8, ColumnMajor> = Array::from_elem(&[2, 3, 4], 5);

    assert_eq!(r.strides(), &[3, 3, 1]);
    assert!(r.is_empty());
    assert_eq!(c.strides(), &[1, 2, 6]);
    assert_eq!(c.storage().as_slice(), &[5; 24]);
}

#[test]
fn permute() {
    let a3 = Array::from(vec![1; 24]).into_shape([2, 3, 4]).unwrap();
    let a3p = a3.permute(&[2, 0, 1]).unwrap();

    assert_eq!(a3p.shape(), &[4, 2, 3]);
    assert_eq!(a3p.strides(), &[1, 12, 4]);
    assert_eq!(a3p.offset(), a3.offset());
}

#[test]
#[should_panic]
fn permute_by_axis_out_of_bounds() {
    let a3 = Array::from(vec![1; 24]).into_shape([2, 3, 4]).unwrap();
    a3.permute(&[0, 1, 100]).unwrap();
}

#[test]
#[should_panic]
fn permute_by_repeated_axes() {
    let a3 = Array::from(vec![1; 24]).into_shape([2, 3, 4]).unwrap();
    a3.permute(&[0, 1, 0]).unwrap();
}

#[test]
#[should_panic]
fn permute_by_wrong_number_of_axes() {
    let a3 = Array::from(vec![1; 2]).into_shape([1, 2]).unwrap();
    a3.permute(&[1, 2, 0]).unwrap();
}

#[test]
fn permute_errors_are_axis_errors() {
    let a3 = Array::from(vec![1; 24]).into_shape([2, 3, 4]).unwrap();

    for axes in [vec![0, 1, 100], vec![0, 1, 0], vec![0, 1]] {
        assert!(matches!(
            a3.permute(&axes),
            Err(Error::Shape(ShapeError::IncompatibleAxis(_)))
        ));
    }
}

#[test]
fn shape() {
    let shape = [2_isize, 3, 4];
    let a3 = Array::from((1..25).collect::<Vec<usize>>())
        .into_shape(shape)
        .unwrap();

    assert_eq!(a3.shape(), &shape.map(|x| x as usize));
}

#[test]
fn slice_by_index() {
    for (index, offset) in [(1_isize, 1_usize), (-1, 3)] {
        let data = vec![1_usize, 2, 3, 4];
        let a = Array::from(data.clone());
        let subject = a.slice(&info(vec![ArrayIndex::from(index)]));

        assert_eq!(subject.shape(), &[0_usize; 0]);
        assert_eq!(subject.strides(), &[0_isize; 0]);
        assert_eq!(subject.storage(), &StorageBase(data.as_slice()));
        assert_eq!(subject.offset(), offset);
        assert_eq!(subject.len(), 1);
    }
}

#[test]
fn an_index_off_its_axis_cannot_be_sliced_by() {
    let a = Array::from(vec![1, 2, 3, 4]);

    assert!(!a.can_slice(&info(vec![ArrayIndex::from(10)])));
    assert!(!a.can_slice(&info(vec![ArrayIndex::from(4)])));
    assert!(!a.can_slice(&info(vec![ArrayIndex::from(-5)])));
    assert!(a.can_slice(&info(vec![ArrayIndex::from(-4)])));
    assert!(a.compute_sliced_parts(&info(vec![ArrayIndex::from(10)])).is_none());
}

#[test]
fn slice_by_new_axis() {
    let data = vec![1_usize, 2, 3, 4];
    let a = Array::from(data.clone());
    let subject = a.slice(&info(vec![ArrayIndex::from(NewAxis)]));

    assert_eq!(subject.shape(), &[1, 4]);
    assert_eq!(subject.strides(), &[0, 1]);
    assert_eq!(subject.storage(), &StorageBase(data.as_slice()));
    assert_eq!(subject.offset(), 0);
}

#[test]
fn slice_by_slice() {
    let cases: Vec<(Slice, isize, usize, usize)> = vec![
        (Slice::range_full(), 1, 8, 0),
        (Slice::range_full(), -1, 8, 7),
        (Slice::from(1..3), 1, 2, 1),
        (Slice::from(3..1), -1, 2, 3),
        (Slice::range_from(1), 1, 7, 1),
        (Slice::range_from(-2), -1, 7, 6),
        (Slice::range_to(3), 1, 3, 0),
        (Slice::range_to(-3), -1, 2, 7),
    ];
    for (range, step, len, offset) in cases {
        let data = vec![1_usize, 2, 3, 4, 5, 6, 7, 8];
        let a = Array::from(data.clone());
        let subject = a.slice(&info(vec![ArrayIndex::from(range.step_by(step))]));

        assert_eq!(subject.shape(), &[len]);
        assert_eq!(subject.strides(), &[step]);
        assert_eq!(subject.storage(), &StorageBase(data.as_slice()));
        assert_eq!(subject.offset(), offset);
    }
}

#[test]
fn slice_with_negative_step_reverses() {
    let a = Array::from((1..9).collect::<Vec<usize>>());
    let reversed = a.slice(&info(vec![ArrayIndex::from(
        Slice::range_full().step_by(-1),
    )]));

    assert_eq!(reversed.offset(), 7);
    assert_eq!(reversed.strides(), &[-1]);
    assert_eq!(reversed.iter().cloned_vec(), vec![8, 7, 6, 5, 4, 3, 2, 1]);
}

#[test]
fn more_indices_than_axes_cannot_be_sliced_by() {
    let a = Array::from(vec![1, 2, 3, 4]);

    assert!(!a.can_slice(&info(vec![
        ArrayIndex::from(NewAxis),
        ArrayIndex::from(1),
        ArrayIndex::from(Slice::range_to(2)),
    ])));
    assert!(a.can_slice(&info(vec![
        ArrayIndex::from(NewAxis),
        ArrayIndex::from(1),
        ArrayIndex::from(NewAxis),
    ])));
}

#[test]
fn slice_sliced_array_by_slice() {
    let a = Array::from(vec![1_usize; 32]);

    assert_eq!(a.offset(), 0);

    let info = info(vec![ArrayIndex::from(Slice::range_from(10))]);
    let a1 = a.slice(&info.clone());

    assert_eq!(a1.offset(), 10);

    let a2 = a1.slice(&info);

    assert_eq!(a2.offset(), 20);

    let at_once = a.slice(&SliceInfo::from(vec![ArrayIndex::from(Slice::range_from(20))]));

    assert_eq!(at_once.offset(), a2.offset());
    assert_eq!(at_once.shape(), a2.shape());
    assert_eq!(at_once.strides(), a2.strides());
}

#[test]
fn slice_zero_length_array() {
    let a: Array<usize> = Array::from(vec![]).into_shape([0, 1, 2]).unwrap();
    let subject = a.slice(&info(vec![full(), full(), full()]));

    assert_eq!(subject.shape(), &[0, 1, 2]);
    assert_eq!(subject.strides(), &[2, 2, 1]);
}

#[test]
fn slice_to_nothing_moves_the_offset_to_the_start() {
    let a = Array::from(counted(8));
    let none = a.slice(&info(vec![ArrayIndex::from(Slice::range_from(10))]));

    assert_eq!(none.shape(), &[0]);
    assert_eq!(none.strides(), &[1]);
    assert_eq!(none.offset(), 8);
    assert!(none.iter().next().is_none());

    let b = Array::from(vec![1, 2, 3, 4]);
    let past = b.slice(&info(vec![ArrayIndex::from(Slice::range_from(4))]));

    assert_eq!(past.shape(), &[0]);
    assert_eq!(past.offset(), 4);
    assert!(past.is_empty());
}

#[test]
fn slice_is_refused_where_the_offset_leaves_the_machine_range() {
    let a = Array::from(counted(8));
    let back = a.slice(&info(vec![ArrayIndex::from(
        Slice::range_full().step_by(-1),
    )]));
    let beyond = info(vec![ArrayIndex::from(Slice::range_from(10))]);

    assert_eq!(back.offset(), 7);
    assert_eq!(back.strides(), &[-1]);
    assert!(!back.can_slice(&beyond));
    assert!(back.can_slice(&info(vec![ArrayIndex::from(Slice::range_from(7))])));
    assert!(a.can_slice(&beyond));
}

#[test]
fn broadcast_keeps_the_stride_of_an_axis_of_equal_size() {
    let a = Array::from(counted(10));
    let one = a.slice(&info(vec![ArrayIndex::from(
        Slice::range(0, 1).step_by(5),
    )]));

    assert_eq!(one.shape(), &[1]);
    assert_eq!(one.strides(), &[5]);
    assert_eq!(one.broadcast_to(&[1]).unwrap().strides(), &[5]);
    assert_eq!(one.broadcast_to(&[3, 1]).unwrap().strides(), &[0, 5]);
    assert_eq!(one.broadcast_to(&[3]).unwrap().strides(), &[0]);
}

#[test]
fn slice_of_several_axes() {
    let a = Array::from(counted(24)).into_shape([2, 3, 4]).unwrap();
    let subject = a.slice(&info(vec![
        ArrayIndex::from(-1),
        ArrayIndex::from(NewAxis),
        ArrayIndex::from(Slice::range_from(1)),
    ]));

    assert_eq!(subject.shape(), &[1, 2, 4]);
    assert_eq!(subject.strides(), &[0, 4, 1]);
    assert_eq!(subject.offset(), 16);
    assert_eq!(
        subject.iter().cloned_vec(),
        vec![16, 17, 18, 19, 20, 21, 22, 23]
    );
}

#[test]
fn stack() {
    let a = Array::from(counted(6)).into_shape([1, 2, 3]).unwrap();
    {
        let actual: Array<usize> = Array::stack(&[a.view(), a.view()], 0).unwrap();
        let expected = Array::from(vec![0, 1, 2, 3, 4, 5, 0, 1, 2, 3, 4, 5])
            .into_shape([2, 1, 2, 3])
            .unwrap();

        assert_eq!(actual, expected);
    }
    {
        let actual: Array<usize> = Array::stack(&[a.view(), a.view()], 1).unwrap();
        let expected = Array::from(vec![0, 1, 2, 3, 4, 5, 0, 1, 2, 3, 4, 5])
            .into_shape([1, 2, 2, 3])
            .unwrap();

        assert_eq!(actual, expected);
    }
    {
        let actual: Array<usize> = Array::stack(&[a.view(), a.view()], 2).unwrap();
        let expected = Array::from(vec![0, 1, 2, 0, 1, 2, 3, 4, 5, 3, 4, 5])
            .into_shape([1, 2, 2, 3])
            .unwrap();

        assert_eq!(actual, expected);
    }
    assert!(Array::<usize>::stack(&[a.view(), a.view()], 4).is_err());
}

#[test]
fn strides() {
    let shape = [2_isize, 3, 4];
    let a3 = Array::from((1..25).collect::<Vec<usize>>())
        .into_shape(shape)
        .unwrap();

    assert_eq!(
        a3.strides(),
        &shape.map(|x| x as usize).to_default_strides::<RowMajor>()
    );
}

#[test]
fn transpose() {
    let a2 = Array::from(vec![1_usize, 2, 3, 4, 5, 6])
        .into_shape([2, 3])
        .unwrap();
    let a2t = a2.transpose();

    assert_eq!(a2t.shape(), &[3, 2]);
    assert_eq!(a2t.iter().cloned_vec(), vec![1_usize, 4, 2, 5, 3, 6]);
}

#[test]
fn transpose_twice_is_the_view() {
    let a = Array::from(counted(24)).into_shape([2, 3, 4]).unwrap();
    let part = a.slice(&info(vec![full(), ArrayIndex::from(Slice::range_from(1))]));

    assert_eq!(part.transpose().transpose(), part.view());
    assert_eq!(part.transpose().shape(), &[4, 2, 2]);
    assert_eq!(part.transpose().strides(), &[1, 4, 12]);
}

#[test]
fn view() {
    let a = Array::from(vec![1, 2, 3]);
    let subject = a.view();

    assert_eq!(subject.storage(), &a.storage().view());
    assert!(std::ptr::eq(subject.storage().as_slice(), a.storage().as_slice()));
}

#[test]
fn to_owned_array_copies_in_logical_order() {
    let a = Array::from(counted(6)).into_shape([2, 3]).unwrap();
    let t = a.transpose().to_owned_array();

    assert_eq!(t.shape(), &[3, 2]);
    assert_eq!(t.strides(), &[2, 1]);
    assert_eq!(t.offset(), 0);
    assert_eq!(t.storage().as_slice(), &[0, 3, 1, 4, 2, 5]);
    assert_eq!(a.to_vec(), counted(6));
}

#[test]
fn clone_keeps_the_layout() {
    let a = Array::from(counted(6)).into_shape([2, 3]).unwrap();
    let b = a.clone();

    assert_eq!(a, b);
}

#[test]
fn reshape_skips_axes_of_one_index() {
    let a = Array::from(counted(6)).into_shape([2, 1, 3]).unwrap();
    let flat = a.to_shape([6]).unwrap();

    assert!(matches!(flat.storage().0, CowBuffer::Borrowed(_)));
    assert_eq!(flat.strides(), &[1]);

    let point = Array::from(vec![7_usize]);
    let scalar = point.slice(&info(vec![ArrayIndex::from(0)]));
    let wide = scalar.to_shape([1, 1]).unwrap();

    assert!(matches!(wide.storage().0, CowBuffer::Borrowed(_)));
    assert_eq!(wide.shape(), &[1, 1]);
    assert_eq!(wide.strides(), &[1, 1]);
    assert_eq!(wide.iter().cloned_vec(), vec![7]);
    assert_eq!(scalar.to_shape([-1]).unwrap().shape(), &[1]);
}

#[test]
fn views_of_an_empty_array_are_empty() {
    let a: Array<usize> = Array::from(vec![]).into_shape([2, 0, 3]).unwrap();

    assert!(a.flip().is_empty());
    assert_eq!(a.flip().offset(), 5);
    assert_eq!(a.flip().strides(), &[-3, 3, -1]);
    assert_eq!(a.flip_along_axes(&[0]).unwrap().offset(), 3);
    assert_eq!(a.flip_along_axes(&[1]).unwrap().offset(), 0);
    assert!(a.transpose().is_empty());
    assert!(a.permute(&[1, 2, 0]).unwrap().is_empty());
    assert_eq!(a.expand_shape(1).unwrap().shape(), &[2, 1, 0, 3]);
    assert!(a.broadcast_to(&[4, 2, 0, 3]).unwrap().iter().next().is_none());
    assert_eq!(a.to_shape([0, -1]).is_err(), true);
    assert_eq!(a.to_shape([5, 0]).unwrap().shape(), &[5, 0]);
    assert!(a.to_owned_array().is_empty());
}
