use strided_array::slice::{Bound, Slice};

#[test]
fn new() {
    {
        let s = Slice::from(-2..2);

        assert_eq!(s.start(), Bound::Included(-2));
        assert_eq!(s.end(), Bound::Excluded(2));
        assert_eq!(s.step(), 1);
    }
    {
        let s = Slice::from(2..-2);

        assert_eq!(s.start(), Bound::Included(2));
        assert_eq!(s.end(), Bound::Excluded(-2));
        assert_eq!(s.step(), 1);
    }
    {
        let s = Slice::from(-2..2).step_by(2);

        assert_eq!(s.start(), Bound::Included(-2));
        assert_eq!(s.end(), Bound::Excluded(2));
        assert_eq!(s.step(), 2);
    }
    {
        let s = Slice::from(2..-2).step_by(-2);

        assert_eq!(s.start(), Bound::Included(2));
        assert_eq!(s.end(), Bound::Excluded(-2));
        assert_eq!(s.step(), -2);
    }
}

#[test]
fn exclusive_end() {
    let dim = 4_usize;
    for end in -(dim as isize * 2)..-(dim as isize) {
        let s1 = Slice::range_to(end);
        let s2 = Slice::range_to(end).step_by(-1);

        assert_eq!(s1.end_with_dim(dim), -1, "end: {}", end);
        assert_eq!(s2.end_with_dim(dim), -1, "end: {}", end);
    }
    for end in -(dim as isize)..0 {
        let s1 = Slice::range_to(end);
        let s2 = Slice::range_to(end).step_by(-1);

        assert_eq!(s1.end_with_dim(dim), end + dim as isize);
        assert_eq!(s2.end_with_dim(dim), end + dim as isize);
    }
    for end in 0_isize..(dim as isize) {
        let s1 = Slice::range_to(end);
        let s2 = Slice::range_to(end).step_by(-1);

        assert_eq!(s1.end_with_dim(dim), end);
        assert_eq!(s2.end_with_dim(dim), end);
    }
    for end in (dim as isize)..(dim as isize * 2) {
        let s1 = Slice::range_to(end);
        let s2 = Slice::range_to(end).step_by(-1);

        assert_eq!(s1.end_with_dim(dim), dim as isize, "end: {}", end);
        assert_eq!(s2.end_with_dim(dim), dim as isize, "end: {}", end);
    }
}

#[test]
fn inclusive_end_with_negative_step() {
    let dim = 4_usize;
    for end in -(dim as isize * 2)..-(dim as isize) {
        let s = Slice::range_to_inclusive(end).step_by(-1);

        assert_eq!(s.end_with_dim(dim), -1, "end: {}", end);
    }
    for end in -(dim as isize)..0 {
        let s = Slice::range_to_inclusive(end).step_by(-1);

        assert_eq!(s.end_with_dim(dim), end - 1 + dim as isize);
    }
    for end in 0_isize..=(dim as isize) {
        let s = Slice::range_to_inclusive(end).step_by(-1);

        assert_eq!(s.end_with_dim(dim), end - 1);
    }
    for end in (dim as isize + 1)..(dim as isize * 2) {
        let s = Slice::range_to_inclusive(end).step_by(-1);

        assert_eq!(s.end_with_dim(dim), dim as isize, "end: {}", end);
    }
}

#[test]
fn inclusive_end_with_positive_step() {
    let dim = 4_usize;
    for end in -(dim as isize * 2)..(-(dim as isize) - 1) {
        let s = Slice::range_to_inclusive(end);

        assert_eq!(s.end_with_dim(dim), -1, "end: {}", end);
    }
    for end in (-(dim as isize) - 1)..0 {
        let s = Slice::range_to_inclusive(end);

        assert_eq!(s.end_with_dim(dim), end + 1 + dim as isize);
    }
    for end in 0_isize..(dim as isize) {
        let s = Slice::range_to_inclusive(end);

        assert_eq!(s.end_with_dim(dim), end + 1);
    }
    for end in (dim as isize)..(dim as isize * 2) {
        let s = Slice::range_to_inclusive(end);

        assert_eq!(s.end_with_dim(dim), dim as isize, "end: {}", end);
    }
}

#[test]
fn len_with_range_from() {
    assert_eq!(Slice::range_from(-11).len_with_dim(10), 10);
    assert_eq!(Slice::range_from(-10).len_with_dim(10), 10);
    assert_eq!(Slice::range_from(-5).len_with_dim(10), 5);
    assert_eq!(Slice::range_from(-1).len_with_dim(10), 1);
    assert_eq!(Slice::range_from(0).len_with_dim(10), 10);
    assert_eq!(Slice::range_from(5).len_with_dim(10), 5);
    assert_eq!(Slice::range_from(10).len_with_dim(10), 0);
    assert_eq!(Slice::range_from(11).len_with_dim(10), 0);

    {
        let step = -1;

        assert_eq!(Slice::range_from(10).step_by(step).len_with_dim(10), 10);
        assert_eq!(Slice::range_from(9).step_by(step).len_with_dim(10), 10);
        assert_eq!(Slice::range_from(4).step_by(step).len_with_dim(10), 5);
        assert_eq!(Slice::range_from(0).step_by(step).len_with_dim(10), 1);
        assert_eq!(Slice::range_from(-1).step_by(step).len_with_dim(10), 10);
        assert_eq!(Slice::range_from(-6).step_by(step).len_with_dim(10), 5);
        assert_eq!(Slice::range_from(-11).step_by(step).len_with_dim(10), 0);
        assert_eq!(Slice::range_from(-12).step_by(step).len_with_dim(10), 0);
    }
    {
        let step = 3;

        assert_eq!(Slice::range_from(-10).step_by(step).len_with_dim(10), 4);
        assert_eq!(Slice::range_from(1).step_by(step).len_with_dim(10), 3);
    }
    {
        let step = -3;

        assert_eq!(Slice::range_from(9).step_by(step).len_with_dim(10), 4);
        assert_eq!(Slice::range_from(-2).step_by(step).len_with_dim(10), 3);
    }
}

#[test]
fn len_with_range() {
    assert_eq!(Slice::from(5..12).len_with_dim(10), 5);
    assert_eq!(Slice::from(0..5).len_with_dim(10), 5);
    assert_eq!(Slice::from(-1..1).len_with_dim(10), 0);
    assert_eq!(Slice::from(-6..-1).len_with_dim(10), 5);
    assert_eq!(Slice::from(-12..-5).len_with_dim(10), 5);

    {
        let step = -1;

        assert_eq!(Slice::from(12..4).step_by(step).len_with_dim(10), 5);
        assert_eq!(Slice::from(5..0).step_by(step).len_with_dim(10), 5);
        assert_eq!(Slice::from(1..-1).step_by(step).len_with_dim(10), 0);
        assert_eq!(Slice::from(-1..-6).step_by(step).len_with_dim(10), 5);
        assert_eq!(Slice::from(-6..-12).step_by(step).len_with_dim(10), 5);
    }
    {
        let step = 3;

        assert_eq!(Slice::from(2..10).step_by(step).len_with_dim(10), 3);
        assert_eq!(Slice::from(-8..-1).step_by(step).len_with_dim(10), 3);
    }
    {
        let step = -3;

        assert_eq!(Slice::from(9..1).step_by(step).len_with_dim(10), 3);
        assert_eq!(Slice::from(-1..-11).step_by(step).len_with_dim(10), 4);
    }
}

#[test]
fn len_with_range_full() {
    assert_eq!(Slice::range_full().len_with_dim(10), 10);
    assert_eq!(Slice::range_full().step_by(2).len_with_dim(10), 5);
    assert_eq!(Slice::range_full().step_by(-2).len_with_dim(10), 5);
}

#[test]
fn len_with_range_to() {
    assert_eq!(Slice::range_to(-11).len_with_dim(10), 0);
    assert_eq!(Slice::range_to(-10).len_with_dim(10), 0);
    assert_eq!(Slice::range_to(-9).len_with_dim(10), 1);
    assert_eq!(Slice::range_to(-1).len_with_dim(10), 9);
    assert_eq!(Slice::range_to(0).len_with_dim(10), 0);
    assert_eq!(Slice::range_to(5).len_with_dim(10), 5);
    assert_eq!(Slice::range_to(10).len_with_dim(10), 10);
    assert_eq!(Slice::range_to(11).len_with_dim(10), 10);

    {
        let step = -1;

        assert_eq!(Slice::range_to(10).step_by(step).len_with_dim(10), 0);
        assert_eq!(Slice::range_to(9).step_by(step).len_with_dim(10), 0);
        assert_eq!(Slice::range_to(8).step_by(step).len_with_dim(10), 1);
        assert_eq!(Slice::range_to(0).step_by(step).len_with_dim(10), 9);
        assert_eq!(Slice::range_to(-1).step_by(step).len_with_dim(10), 0);
        assert_eq!(Slice::range_to(-2).step_by(step).len_with_dim(10), 1);
        assert_eq!(Slice::range_to(-10).step_by(step).len_with_dim(10), 9);
        assert_eq!(Slice::range_to(-11).step_by(step).len_with_dim(10), 10);
        assert_eq!(Slice::range_to(-12).step_by(step).len_with_dim(10), 10);
    }
    {
        let step = 3;

        assert_eq!(Slice::range_to(10).step_by(step).len_with_dim(10), 4);
        assert_eq!(Slice::range_to(-2).step_by(step).len_with_dim(10), 3);
    }
    {
        let step = -3;

        assert_eq!(Slice::range_to(1).step_by(step).len_with_dim(10), 3);
        assert_eq!(Slice::range_to(-11).step_by(step).len_with_dim(10), 4);
    }
}

#[test]
fn len_with_range_to_inclusive() {
    assert_eq!(Slice::range_to_inclusive(-12).len_with_dim(10), 0);
    assert_eq!(Slice::range_to_inclusive(-11).len_with_dim(10), 0);
    assert_eq!(Slice::range_to_inclusive(-10).len_with_dim(10), 1);
    assert_eq!(Slice::range_to_inclusive(-1).len_with_dim(10), 10);
    assert_eq!(Slice::range_to_inclusive(0).len_with_dim(10), 1);
    assert_eq!(Slice::range_to_inclusive(5).len_with_dim(10), 6);
    assert_eq!(Slice::range_to_inclusive(9).len_with_dim(10), 10);
    assert_eq!(Slice::range_to_inclusive(10).len_with_dim(10), 10);

    {
        let step = -1;

        assert_eq!(Slice::range_to_inclusive(11).step_by(step).len_with_dim(10), 0);
        assert_eq!(Slice::range_to_inclusive(10).step_by(step).len_with_dim(10), 0);
        assert_eq!(Slice::range_to_inclusive(9).step_by(step).len_with_dim(10), 1);
        assert_eq!(Slice::range_to_inclusive(0).step_by(step).len_with_dim(10), 10);
        assert_eq!(Slice::range_to_inclusive(-1).step_by(step).len_with_dim(10), 1);
        assert_eq!(Slice::range_to_inclusive(-9).step_by(step).len_with_dim(10), 9);
        assert_eq!(Slice::range_to_inclusive(-10).step_by(step).len_with_dim(10), 10);
        assert_eq!(Slice::range_to_inclusive(-11).step_by(step).len_with_dim(10), 10);
    }
    {
        let step = 3;

        assert_eq!(Slice::range_to_inclusive(9).step_by(step).len_with_dim(10), 4);
        assert_eq!(Slice::range_to_inclusive(-3).step_by(step).len_with_dim(10), 3);
    }
    {
        let step = -3;

        assert_eq!(Slice::range_to_inclusive(1).step_by(step).len_with_dim(10), 3);
        assert_eq!(Slice::range_to_inclusive(-10).step_by(step).len_with_dim(10), 4);
    }
}

#[test]
fn start_with_negative_step() {
    let dim = 4_usize;
    for start in -(dim as isize * 2)..-(dim as isize) {
        let s = Slice::range_from(start).step_by(-1);

        assert_eq!(s.start_with_dim(dim), -1, "start: {}", start);
    }
    for start in -(dim as isize)..0 {
        let s = Slice::range_from(start).step_by(-1);
        assert_eq!(s.start_with_dim(dim), start + dim as isize);
    }
    for start in 0_isize..(dim as isize) {
        let s = Slice::range_from(start).step_by(-1);
        assert_eq!(s.start_with_dim(dim), start);
    }
    for start in (dim as isize)..(dim as isize * 2) {
        let s = Slice::range_from(start).step_by(-1);
        assert_eq!(s.start_with_dim(dim), dim as isize - 1, "start: {}", start);
    }
}

#[test]
fn start_with_positive_step() {
    let dim = 4_usize;
    for start in -(dim as isize * 2)..=-(dim as isize) {
        let s = Slice::range_from(start);
        assert_eq!(s.start_with_dim(dim), 0, "start: {}", start);
    }
    for start in (-(dim as isize) + 1)..0 {
        let s = Slice::range_from(start);
        assert_eq!(s.start_with_dim(dim), start + dim as isize);
    }
    for start in 0_isize..(dim as isize) {
        let s = Slice::range_from(start);
        assert_eq!(s.start_with_dim(dim), start);
    }
    for start in (dim as isize)..(dim as isize * 2) {
        let s = Slice::range_from(start);
        assert_eq!(s.start_with_dim(dim), dim as isize, "start: {}", start);
    }
}

#[test]
fn inclusive_range_keeps_both_bounds() {
    let s = Slice::range_inclusive(2, 3);

    assert_eq!(s.start(), Bound::Included(2));
    assert_eq!(s.end(), Bound::Included(3));
    assert_eq!(s.len_with_dim(10), 2);
}
