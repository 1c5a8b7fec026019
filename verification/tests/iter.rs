use strided_array::array_index::ArrayIndex;
use strided_array::iter::{increment_indices, Cursor, ElementIterator};
use strided_array::slice::Slice;
use strided_array::slice_info::SliceInfo;
use strided_array::{Array, Iter, IterMut, SequenceIter};

fn full() -> ArrayIndex {
    ArrayIndex::from(Slice::range_full())
}

fn every(step: isize) -> ArrayIndex {
    ArrayIndex::from(Slice::range_full().step_by(step))
}

#[test]
fn iterate_1d_array() {
    let data = vec![1, 2, 3, 4];
    let a1 = Array::from(data.clone());
    {
        let mut iter = Iter::new(&a1);

        assert_eq!(iter.offset(), 0);
        assert_eq!(iter.indices(), Some(&vec![0]));
        assert_eq!(iter.shape(), a1.shape());
        assert_eq!(iter.strides(), a1.strides());
        assert_eq!(iter.len(), data.len());
        assert!(!iter.is_empty());

        for (i, &expected) in data.iter().enumerate() {
            assert_eq!(*iter.next().unwrap(), expected, "{}th element is not equal", i);
        }
        assert!(iter.next().is_none());
        assert!(iter.is_empty());
        assert_eq!(iter.indices(), None);
    }
    let view = a1.slice(&SliceInfo::from(vec![every(-1)]));
    {
        let mut iter = Iter::new(&view);

        assert_eq!(view.offset(), data.len() - 1);
        assert_eq!(iter.offset(), data.len() - 1);
        assert_eq!(iter.indices(), Some(&vec![0]));
        assert_eq!(iter.shape(), view.shape());
        assert_eq!(iter.strides(), view.strides());
        assert_eq!(iter.strides(), &[-1]);
        assert_eq!(iter.len(), data.len());
        assert!(!iter.is_empty());

        for (i, &expected) in data.iter().rev().enumerate() {
            assert_eq!(*iter.next().unwrap(), expected, "{}th element is not equal", i);
        }
        assert!(iter.next().is_none());
    }
}

#[test]
fn iterate_1d_zst_array() {
    let data = vec![(), (), (), ()];
    let a1 = Array::from(data.clone());
    {
        let mut counter = 0;
        let mut iter = Iter::new(&a1);
        while iter.next().is_some() {
            counter += 1;
        }

        assert_eq!(counter, data.len());
    }
}

#[test]
fn iterate_1d_array_mutably() {
    let data = vec![1, 2, 3, 4];
    let mut a1 = Array::from(data.clone());
    {
        let shape = a1.shape().clone();
        let strides = a1.strides().clone();
        let mut iter = IterMut::new(&mut a1);

        assert_eq!(iter.offset(), 0);
        assert_eq!(iter.indices(), Some(&vec![0]));
        assert_eq!(iter.shape(), &shape);
        assert_eq!(iter.strides(), &strides);
        assert_eq!(iter.len(), data.len());
        assert!(!iter.is_empty());

        for (i, &expected) in data.iter().enumerate() {
            assert_eq!(*iter.next().unwrap(), expected, "{}th element is not equal", i);
        }
        assert!(iter.next().is_none());
        assert_eq!(iter.indices(), None);
    }
    let mut view = a1.slice_mut(&SliceInfo::from(vec![every(-1)]));
    {
        let shape = view.shape().clone();
        let strides = view.strides().clone();
        let mut iter = IterMut::new(&mut view);

        assert_eq!(iter.offset(), data.len() - 1);
        assert_eq!(iter.indices(), Some(&vec![0]));
        assert_eq!(iter.shape(), &shape);
        assert_eq!(iter.strides(), &strides);
        assert_eq!(iter.strides(), &[-1]);
        assert_eq!(iter.len(), data.len());
        assert!(!iter.is_empty());

        for (i, &expected) in data.iter().rev().enumerate() {
            assert_eq!(*iter.next().unwrap(), expected, "{}th element is not equal", i);
        }
        assert!(iter.next().is_none());
    }
}

#[test]
fn write_through_a_mutable_iterator() {
    let mut a = Array::from(vec![1, 2, 3, 4, 5, 6]).into_shape([2, 3]).unwrap();
    {
        let mut column = a.slice_mut(&SliceInfo::from(vec![full(), ArrayIndex::from(-1)]));
        let mut iter = column.iter_mut();
        while let Some(x) = iter.next() {
            *x *= 10;
        }
    }

    assert_eq!(a.to_vec(), vec![1, 2, 30, 4, 5, 60]);
}

#[test]
fn iterate_empty_array() {
    let a = Array::<u64>::zeros(&[1_usize, 0, 3]);

    assert!(a.iter().next().is_none());
    assert_eq!(a.iter().len(), 0);
}

#[test]
fn iterate_nd_array() {
    let data = (1..25).collect::<Vec<usize>>();
    let a3 = Array::from(data.clone()).into_shape([2, 3, 4]).unwrap();

    let view = a3.slice(&SliceInfo::from(vec![full(), full(), every(2)]));
    {
        let mut iter = Iter::new(&view);

        assert!(iter.offset() < data.len());
        assert_eq!(iter.indices(), Some(&vec![0; 3]));
        assert_eq!(iter.shape(), view.shape());
        assert_eq!(iter.strides(), view.strides());
        assert_eq!(iter.len(), data.len() / 2);
        assert!(!iter.is_empty());

        for (i, &expected) in data.iter().step_by(2).enumerate() {
            assert_eq!(*iter.next().unwrap(), expected, "{}th element is not equal", i);
        }
        assert!(iter.next().is_none());
    }

    let view = a3.slice(&SliceInfo::from(vec![full(), full(), every(-2)]));
    {
        let mut iter = Iter::new(&view);

        assert!(iter.offset() < data.len());
        assert_eq!(iter.indices(), Some(&vec![0; 3]));
        assert_eq!(iter.shape(), view.shape());
        assert_eq!(iter.strides(), view.strides());
        assert_eq!(iter.len(), data.len() / 2);
        assert!(!iter.is_empty());

        for (i, expected) in (1..25)
            .step_by(4)
            .flat_map(|x| (x..x + 4).rev().step_by(2))
            .enumerate()
        {
            assert_eq!(*iter.next().unwrap(), expected, "{}th element is not equal", i);
        }
        assert!(iter.next().is_none());
    }
}

#[test]
fn iterate_nd_array_mutably() {
    let data = (1..25).collect::<Vec<usize>>();
    let mut a3 = Array::from(data.clone()).into_shape([2, 3, 4]).unwrap();

    {
        let mut view = a3.slice_mut(&SliceInfo::from(vec![full(), full(), every(2)]));
        let shape = view.shape().clone();
        let strides = view.strides().clone();
        let mut iter = IterMut::new(&mut view);

        assert!(iter.offset() < data.len());
        assert_eq!(iter.indices(), Some(&vec![0; 3]));
        assert_eq!(iter.shape(), &shape);
        assert_eq!(iter.strides(), &strides);
        assert_eq!(iter.len(), data.len() / 2);
        assert!(!iter.is_empty());

        for (i, &expected) in data.iter().step_by(2).enumerate() {
            assert_eq!(*iter.next().unwrap(), expected, "{}th element is not equal", i);
        }
        assert!(iter.next().is_none());
    }
    {
        let mut view = a3.slice_mut(&SliceInfo::from(vec![full(), full(), every(-2)]));
        let shape = view.shape().clone();
        let strides = view.strides().clone();
        let mut iter = IterMut::new(&mut view);

        assert!(iter.offset() < data.len());
        assert_eq!(iter.indices(), Some(&vec![0; 3]));
        assert_eq!(iter.shape(), &shape);
        assert_eq!(iter.strides(), &strides);
        assert_eq!(iter.len(), data.len() / 2);
        assert!(!iter.is_empty());

        for (i, expected) in (1..25)
            .step_by(4)
            .flat_map(|x| (x..x + 4).rev().step_by(2))
            .enumerate()
        {
            assert_eq!(*iter.next().unwrap(), expected, "{}th element is not equal", i);
        }
        assert!(iter.next().is_none());
    }
}

#[test]
fn iterate_2d_array() {
    let data = (1..7).collect::<Vec<usize>>();
    let a2 = Array::from(data.clone()).into_shape([2, 3]).unwrap();
    {
        let axis_to_exclude = 0;
        let mut seq_iter = SequenceIter::new(&a2, axis_to_exclude);

        assert_eq!(seq_iter.offset(), 0);
        assert_eq!(seq_iter.indices(), Some(&vec![0, 0]));

        let mut shape_expected = a2.shape().clone();
        shape_expected[axis_to_exclude] = 0;
        assert_eq!(seq_iter.shape(), shape_expected);

        assert_eq!(seq_iter.strides(), a2.strides());
        assert_eq!(seq_iter.axis(), axis_to_exclude);

        assert_eq!(seq_iter.len(), a2.len() / a2.shape()[axis_to_exclude]);

        let mut i = 0;
        while let Some(mut elem_iter) = seq_iter.next() {
            assert_eq!(elem_iter.len(), a2.shape()[axis_to_exclude]);
            for expected in [1_usize, 4].map(|x| x + i) {
                assert_eq!(*elem_iter.next().unwrap(), expected);
            }
            assert!(elem_iter.next().is_none());
            i += 1;
        }
        assert_eq!(i, 3);
    }
    {
        let axis_to_exclude = 1;
        let mut seq_iter = SequenceIter::new(&a2, axis_to_exclude);

        assert_eq!(seq_iter.offset(), 0);
        assert_eq!(seq_iter.indices(), Some(&vec![0, 0]));

        let mut shape_expected = a2.shape().clone();
        shape_expected[axis_to_exclude] = 0;
        assert_eq!(seq_iter.shape(), shape_expected);

        assert_eq!(seq_iter.strides(), a2.strides());
        assert_eq!(seq_iter.axis(), axis_to_exclude);

        assert_eq!(seq_iter.len(), a2.len() / a2.shape()[axis_to_exclude]);

        let mut i = 0;
        while let Some(mut elem_iter) = seq_iter.next() {
            assert_eq!(elem_iter.len(), a2.shape()[axis_to_exclude]);
            for expected in [1_usize, 2, 3].map(|x| x + 3 * i) {
                assert_eq!(*elem_iter.next().unwrap(), expected);
            }
            assert!(elem_iter.next().is_none());
            i += 1;
        }
        assert_eq!(i, 2);
    }
}

#[test]
fn iterate_2d_zst_array() {
    let data = [(); 6].to_vec();
    let a2 = Array::from(data.clone()).into_shape([2, 3]).unwrap();
    {
        let axis_to_exclude = 0;
        let mut seq_iter = SequenceIter::new(&a2, axis_to_exclude);
        let mut counter1 = 0;
        while let Some(mut elem_iter) = seq_iter.next() {
            counter1 += 1;
            let mut counter2 = 0;
            while elem_iter.next().is_some() {
                counter2 += 1;
            }

            assert_eq!(counter2, a2.shape()[axis_to_exclude]);
        }

        assert_eq!(counter1, a2.shape()[1]);
    }
}

#[test]
fn an_empty_array_has_no_lines() {
    let a: Array<usize> = Array::from(vec![]).into_shape([2, 0]).unwrap();

    assert!(SequenceIter::new(&a, 1).next().is_none());
    assert!(SequenceIter::new(&a, 1).is_empty());
    assert!(SequenceIter::new(&a, 0).next().is_none());
}

#[test]
fn cursor_walks_positions() {
    let mut cursor = Cursor::new(vec![2, 2], vec![-1, 3], 1, 6);
    let mut positions = Vec::new();

    assert_eq!(cursor.len(), 4);

    while let Some(p) = cursor.next_position() {
        positions.push(p);
    }

    assert_eq!(positions, vec![1, 4, 0, 3]);
    assert_eq!(cursor.len(), 0);
}

#[test]
fn increment_indices_carries() {
    let shape = [2_usize, 3];
    let mut indices = Some(vec![0_usize, 2]);
    let mut len = 3_usize;
    increment_indices(&mut indices, &shape, &mut len);

    assert_eq!(indices, Some(vec![1, 0]));
    assert_eq!(len, 2);

    let mut indices = Some(vec![1_usize, 2]);
    let mut len = 1_usize;
    increment_indices(&mut indices, &shape, &mut len);

    assert_eq!(indices, None);
    assert_eq!(len, 0);
}

#[test]
fn increment_indices_leaves_a_finished_walk() {
    let shape = [2_usize, 3];
    let mut indices: Option<Vec<usize>> = None;
    let mut len = 0_usize;
    increment_indices(&mut indices, &shape, &mut len);

    assert_eq!(indices, None);
    assert_eq!(len, 0);

    let mut len = 4_usize;
    increment_indices(&mut indices, &shape, &mut len);

    assert_eq!(indices, None);
    assert_eq!(len, 4);
}

#[test]
fn cursor_tells_where_it_stands() {
    let mut cursor = Cursor::new(vec![2, 2], vec![-2, 1], 2, 4);

    assert_eq!(cursor.shape(), &[2, 2]);
    assert_eq!(cursor.strides(), &[-2, 1]);
    assert_eq!(cursor.offset(), 2);
    assert_eq!(cursor.indices(), Some(&vec![0, 0]));
    assert_eq!(cursor.next_position(), Some(2));
    assert_eq!(cursor.indices(), Some(&vec![0, 1]));
    assert_eq!(cursor.next_position(), Some(3));
    assert_eq!(cursor.indices(), Some(&vec![1, 0]));
    assert_eq!(cursor.next_position(), Some(0));
    assert_eq!(cursor.next_position(), Some(1));
    assert_eq!(cursor.indices(), None);
    assert_eq!(cursor.next_position(), None);
    assert_eq!(cursor.len(), 0);
}

#[test]
fn element_iterator_walks_a_line() {
    let data = [0, 1, 2, 3, 4, 5, 6];
    let mut line = ElementIterator::new(&data, 5, 3, -2);
    let copy = line.clone();

    assert_eq!(line.len(), 3);
    assert!(!line.is_empty());
    assert_eq!(line.next(), Some(&5));
    assert_eq!(line.next(), Some(&3));
    assert_eq!(line.next(), Some(&1));
    assert_eq!(line.next(), None);
    assert!(line.is_empty());
    assert_eq!(copy.len(), 3);
}
