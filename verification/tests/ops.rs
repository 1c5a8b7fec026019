use strided_array::array_index::ArrayIndex;
use strided_array::order::ColumnMajor;
use strided_array::slice::Slice;
use strided_array::slice_info::SliceInfo;
use strided_array::{Array, Error, ShapeError};

fn last_two() -> SliceInfo {
    let full = ArrayIndex::from(Slice::range_full());
    SliceInfo::from(vec![full, full, ArrayIndex::from(Slice::range_from(2))])
}

#[test]
fn unary_ops() {
    let a3 = Array::from((0_isize..24).collect::<Vec<isize>>())
        .into_shape(vec![2, 3, 4])
        .unwrap();
    {
        let subject = a3.to_owned_array().map(|x| -x);

        assert_eq!(subject.len(), 24);
        for (i, (actual, expected)) in subject.to_vec().into_iter().zip((0..).map(|x: isize| -x)).enumerate() {
            assert_eq!(actual, expected, "{}th element is not equal", i);
        }
    }
    {
        let subject = a3.map(|x| -x);

        assert_eq!(subject.len(), 24);
        for (i, (actual, expected)) in subject.to_vec().into_iter().zip((0..).map(|x: isize| -x)).enumerate() {
            assert_eq!(actual, expected, "{}th element is not equal", i);
        }
    }
}

#[test]
fn binary_ops() {
    let a3_ = Array::from((10_usize..34).collect::<Vec<usize>>())
        .into_shape(vec![2, 3, 4])
        .unwrap();
    let a3 = a3_.slice(&last_two());
    let b3_ = Array::from((0_usize..24).collect::<Vec<usize>>())
        .into_shape(vec![2, 3, 4])
        .unwrap();
    let b3 = b3_.slice(&last_two());
    {
        let subject = a3
            .to_owned_array()
            .zip_map(&b3.to_owned_array(), |l, r| l - r)
            .unwrap();

        assert_eq!(subject.len(), 12);
        for (i, elem) in subject.to_vec().into_iter().enumerate() {
            assert_eq!(elem, 10, "{}th element is not equal", i);
        }
    }
    {
        let subject = a3.to_owned_array().zip_map(&b3, |l, r| l - r).unwrap();

        assert_eq!(subject.len(), 12);
        for (i, elem) in subject.to_vec().into_iter().enumerate() {
            assert_eq!(elem, 10, "{}th element is not equal", i);
        }
    }
    {
        let subject = a3.zip_map(&b3.to_owned_array(), |l, r| l - r).unwrap();

        assert_eq!(subject.len(), 12);
        for (i, elem) in subject.to_vec().into_iter().enumerate() {
            assert_eq!(elem, 10, "{}th element is not equal", i);
        }
    }
    {
        let subject = a3.zip_map(&b3, |l, r| l - r).unwrap();

        assert_eq!(subject.len(), 12);
        for (i, elem) in subject.to_vec().into_iter().enumerate() {
            assert_eq!(elem, 10, "{}th element is not equal", i);
        }
    }
    {
        let subject = a3.to_owned_array().map(|x| x - 3);

        assert_eq!(subject.len(), 12);
        for (i, (actual, expected)) in subject
            .to_vec()
            .into_iter()
            .zip([9, 10, 13, 14, 17, 18, 21, 22])
            .enumerate()
        {
            assert_eq!(actual, expected, "{}th element is not equal", i);
        }
    }
    {
        let subject = a3.map(|x| x - 3);

        assert_eq!(subject.len(), 12);
        for (i, (actual, expected)) in subject
            .to_vec()
            .into_iter()
            .zip([9, 10, 13, 14, 17, 18, 21, 22])
            .enumerate()
        {
            assert_eq!(actual, expected, "{}th element is not equal", i);
        }
    }
    {
        let subject = b3.to_owned_array().map(|x| 23 - x);

        assert_eq!(subject.len(), 12);
        for (i, (actual, expected)) in subject
            .to_vec()
            .into_iter()
            .zip([21, 20, 17, 16, 13, 12, 9, 8, 5, 4, 1, 0])
            .enumerate()
        {
            assert_eq!(actual, expected, "{}th element is not equal", i);
        }
    }
    {
        let subject = b3.map(|x| 23 - x);

        assert_eq!(subject.len(), 12);
        for (i, (actual, expected)) in subject
            .to_vec()
            .into_iter()
            .zip([21, 20, 17, 16, 13, 12, 9, 8, 5, 4, 1, 0])
            .enumerate()
        {
            assert_eq!(actual, expected, "{}th element is not equal", i);
        }
    }
}

#[test]
fn binary_assign_ops() {
    let a3_ = Array::from((10_usize..34).collect::<Vec<usize>>())
        .into_shape(vec![2, 3, 4])
        .unwrap();
    let a3 = a3_.slice(&last_two());
    let b3_ = Array::from((0_usize..24).collect::<Vec<usize>>())
        .into_shape(vec![2, 3, 4])
        .unwrap();
    let b3 = b3_.slice(&last_two());
    {
        let mut subject = a3.to_owned_array();
        subject.zip_apply(&b3, |l, r| l - r).unwrap();

        assert_eq!(subject.len(), 12);
        for (i, elem) in subject.to_vec().into_iter().enumerate() {
            assert_eq!(elem, 10, "{}th element is not equal", i);
        }
    }
    {
        let mut subject = a3.to_owned_array();
        let lowered = subject.map(|x| x - 3).to_vec();
        subject.assign_elements(lowered);

        assert_eq!(subject.len(), 12);
        for (i, (actual, expected)) in subject
            .to_vec()
            .into_iter()
            .zip([9, 10, 13, 14, 17, 18, 21, 22])
            .enumerate()
        {
            assert_eq!(actual, expected, "{}th element is not equal", i);
        }
    }
}

#[test]
fn zip_map_broadcasts_both_operands() {
    let column = Array::from(vec![10, 20]).into_shape([2, 1]).unwrap();
    let row = Array::from(vec![1, 2, 3]);
    let sum = column.zip_map(&row, |l, r| l + r).unwrap();

    assert_eq!(sum.shape(), &[2, 3]);
    assert_eq!(sum.to_vec(), vec![11, 12, 13, 21, 22, 23]);
    assert!(matches!(
        row.zip_map(&Array::from(vec![1, 2]), |l, r| l + r),
        Err(Error::Shape(ShapeError::IncompatibleShape(_)))
    ));
}

#[test]
fn zip_apply_stretches_the_right_operand_only() {
    let mut table = Array::from(vec![1, 2, 3, 4, 5, 6]).into_shape([2, 3]).unwrap();
    let row = Array::from(vec![10, 20, 30]);
    table.zip_apply(&row, |l, r| l * r).unwrap();

    assert_eq!(table.to_vec(), vec![10, 40, 90, 40, 100, 180]);

    let mut narrow = Array::from(vec![1, 2, 3]);
    let before = narrow.clone();

    assert!(matches!(
        narrow.zip_apply(&table, |l, r| l * r),
        Err(Error::Shape(ShapeError::IncompatibleDimension(_)))
    ));
    assert_eq!(narrow, before);
}

#[test]
fn array_from_elements_in_logical_order() {
    let c: Array<u8, ColumnMajor> = Array::from_elements(&[2, 3], vec![1, 2, 3, 4, 5, 6]).unwrap();

    assert_eq!(c.strides(), &[1, 2]);
    assert_eq!(c.storage().0, vec![1, 4, 2, 5, 3, 6]);
    assert_eq!(c.to_vec(), vec![1, 2, 3, 4, 5, 6]);

    let point: Array<u8, ColumnMajor> = Array::from_elements(&[0_usize; 0], vec![7]).unwrap();

    assert_eq!(point.ndims(), 0);
    assert_eq!(point.to_vec(), vec![7]);
    assert!(Array::<u8>::from_elements(&[2, 3], vec![1, 2, 3]).is_none());
}

#[test]
fn assign_elements_writes_in_logical_order() {
    let mut a = Array::from(vec![0; 6]).into_shape([2, 3]).unwrap();
    {
        let mut t = a.slice_mut(&SliceInfo::from(vec![
            ArrayIndex::from(Slice::range_full().step_by(-1)),
            ArrayIndex::from(Slice::range_from(1)),
        ]));
        t.assign_elements(vec![1, 2, 3, 4]);
    }

    assert_eq!(a.storage().0, vec![0, 3, 4, 0, 1, 2]);
}
