use strided_array::array_index::{ArrayIndex, NewAxis};
use strided_array::slice::Slice;
use strided_array::slice_info::SliceInfo;

#[test]
fn convert_from_index() {
    let idx = ArrayIndex::from(3);

    assert!(idx.is_index());
}

#[test]
fn convert_from_new_axis() {
    let idx = ArrayIndex::from(NewAxis);

    assert!(idx.is_new_axis());
}

#[test]
fn convert_from_range() {
    let idx = ArrayIndex::from(2..3);

    assert!(idx.is_slice());
}

#[test]
fn convert_from_range_from() {
    let idx = ArrayIndex::from(Slice::range_from(2));

    assert!(idx.is_slice());
}

#[test]
fn convert_from_range_full() {
    let idx = ArrayIndex::from(Slice::range_full());

    assert!(idx.is_slice());
}

#[test]
fn convert_from_range_inclusive() {
    let idx = ArrayIndex::from(Slice::range_inclusive(2, 3));

    assert!(idx.is_slice());
}

#[test]
fn convert_from_range_to_inclusive() {
    let idx = ArrayIndex::from(Slice::range_to_inclusive(3));

    assert!(idx.is_slice());
}

#[test]
fn convert_from_range_to() {
    let idx = ArrayIndex::from(Slice::range_to(3));

    assert!(idx.is_slice());
}

#[test]
fn convert_from_slice() {
    let idx = ArrayIndex::from(Slice::from(3..5));

    assert!(idx.is_slice());
}

#[test]
fn from_vec() {
    let subject = SliceInfo::from(vec![
        NewAxis.into(),
        Slice::range_full().into(),
        1.into(),
    ]);

    assert!(subject.as_ref()[0].is_new_axis());
    assert!(subject.as_ref()[1].is_slice());
    assert!(subject.as_ref()[2].is_index());
    assert_eq!(subject.dim_diff, 0);
}

#[test]
fn s_with_index() {
    let info = SliceInfo::from(vec![ArrayIndex::from(1)]);

    assert_eq!(info.dim_diff, -1);
}

#[test]
fn dyn_s_with_index() {
    let x = 1;
    let info = SliceInfo::from(vec![ArrayIndex::from(x)]);

    assert_eq!(info.dim_diff, -1);
    assert_eq!(info.indices[0], ArrayIndex::Index(1));
}

#[test]
fn s_with_ranges() {
    let info = SliceInfo::from(vec![
        ArrayIndex::from(2..3),
        ArrayIndex::from(Slice::range_from(1)),
        ArrayIndex::from(Slice::range_to(2)),
        ArrayIndex::from(Slice::range_inclusive(2, 3)),
        ArrayIndex::from(Slice::range_to_inclusive(4)),
        ArrayIndex::from(Slice::range_full()),
        ArrayIndex::from(Slice::from(2..7).step_by(2)),
        ArrayIndex::from(Slice::range_from(1).step_by(3)),
    ]);

    assert_eq!(info.dim_diff, 0);
    assert_eq!(info.indices.len(), 8);
    assert_eq!(info.indices[0], ArrayIndex::Slice((2..3).into()));
    assert_eq!(info.indices[1], ArrayIndex::Slice(Slice::range_from(1)));
    assert_eq!(info.indices[2], ArrayIndex::Slice(Slice::range_to(2)));
    assert_eq!(info.indices[3], ArrayIndex::Slice(Slice::range_inclusive(2, 3)));
    assert_eq!(info.indices[4], ArrayIndex::Slice(Slice::range_to_inclusive(4)));
    assert_eq!(info.indices[5], ArrayIndex::Slice(Slice::range_full()));
    assert_eq!(
        info.indices[6],
        ArrayIndex::Slice(Slice::from(2..7).step_by(2))
    );
    assert_eq!(
        info.indices[7],
        ArrayIndex::Slice(Slice::range_from(1).step_by(3))
    );
}

#[test]
fn dyn_s_with_ranges() {
    let x1 = 2..3;
    let x2 = Slice::range_from(1);
    let x3 = Slice::range_to(2);
    let x4 = Slice::range_inclusive(2, 3);
    let x5 = Slice::range_to_inclusive(4);
    let x6 = Slice::range_full();
    let info = SliceInfo::from(vec![
        ArrayIndex::from(x1),
        ArrayIndex::from(x2),
        ArrayIndex::from(x3),
        ArrayIndex::from(x4),
        ArrayIndex::from(x5),
        ArrayIndex::from(x6),
        ArrayIndex::from(Slice::from(2..7).step_by(2)),
        ArrayIndex::from(Slice::range_from(1).step_by(3)),
    ]);

    assert_eq!(info.dim_diff, 0);
    assert_eq!(info.indices.len(), 8);
    assert_eq!(info.indices[0], ArrayIndex::Slice((2..3).into()));
    assert_eq!(info.indices[1], ArrayIndex::Slice(Slice::range_from(1)));
    assert_eq!(info.indices[2], ArrayIndex::Slice(Slice::range_to(2)));
    assert_eq!(info.indices[3], ArrayIndex::Slice(Slice::range_inclusive(2, 3)));
    assert_eq!(info.indices[4], ArrayIndex::Slice(Slice::range_to_inclusive(4)));
    assert_eq!(info.indices[5], ArrayIndex::Slice(Slice::range_full()));
    assert_eq!(
        info.indices[6],
        ArrayIndex::Slice(Slice::from(2..7).step_by(2))
    );
    assert_eq!(
        info.indices[7],
        ArrayIndex::Slice(Slice::range_from(1).step_by(3))
    );
}

#[test]
fn s_with_new_axis() {
    let info = SliceInfo::from(vec![ArrayIndex::from(NewAxis)]);

    assert_eq!(info.dim_diff, 1);
    assert_eq!(info.indices.len(), 1);
    assert_eq!(info.indices[0], ArrayIndex::NewAxis);
}

#[test]
fn dyn_s_with_new_axis() {
    let x = NewAxis;
    let info = SliceInfo::from(vec![ArrayIndex::from(x)]);

    assert_eq!(info.dim_diff, 1);
    assert_eq!(info.indices.len(), 1);
    assert_eq!(info.indices[0], ArrayIndex::NewAxis);
}
