use rngmap::Bound;
use rngmap::RangeMap;

#[test]
fn index() {
    let mut range = RangeMap::new('A');

    assert_eq!(*range.index(10), 'A');

    range.insert((Bound::Unbounded, Bound::Excluded(10)), 'B');

    assert_eq!(*range.index(-10), 'B');
    assert_eq!(*range.index(0), 'B');
    assert_eq!(*range.index(10), 'A');
    assert_eq!(*range.index(20), 'A');

    range.insert((Bound::Unbounded, Bound::Included(-10)), 'Z');

    assert_eq!(*range.index(-10), 'Z');
    assert_eq!(*range.index(0), 'B');
    assert_eq!(*range.index(10), 'A');
    assert_eq!(*range.index(20), 'A');

    range.insert((Bound::Excluded(10), Bound::Unbounded), 'C');

    assert_eq!(*range.index(-10), 'Z');
    assert_eq!(*range.index(0), 'B');
    assert_eq!(*range.index(10), 'A');
    assert_eq!(*range.index(20), 'C');
    assert_eq!(*range.index(30), 'C');

    range.insert((Bound::Excluded(20), Bound::Unbounded), 'C');

    assert_eq!(*range.index(-10), 'Z');
    assert_eq!(*range.index(0), 'B');
    assert_eq!(*range.index(10), 'A');
    assert_eq!(*range.index(20), 'C');
    assert_eq!(*range.index(30), 'C');

    range.insert((Bound::Included(-15), Bound::Excluded(-5)), 'B');
}

#[test]
fn fuzzy_crash_20220315_1() {
    let mut range = RangeMap::new('Z');
    assert!(range.check_canonical());

    range.insert((Bound::Included(-1), Bound::Included(16)), 'B');
    assert!(range.check_canonical());

    range.insert((Bound::Included(-1), Bound::Included(0)), 'C');
    assert!(range.check_canonical());

    range.insert((Bound::Included(0), Bound::Included(0)), 'C');
    assert!(range.check_canonical());
}

#[test]
fn fuzzy_crash_20220315_2() {
    let mut range = RangeMap::new('Z');
    assert_eq!(*range.index(0), 'Z');
    assert!(range.check_canonical());

    range.insert((Bound::Included(-1), Bound::Included(39)), 'B');
    assert_eq!(*range.index(-2), 'Z');
    assert_eq!(*range.index(-1), 'B');
    assert_eq!(*range.index(39), 'B');
    assert_eq!(*range.index(40), 'Z');
    assert!(range.check_canonical());

    range.insert((Bound::Included(0), Bound::Included(0)), 'Z');
    assert_eq!(*range.index(-2), 'Z');
    assert_eq!(*range.index(-1), 'B');
    assert_eq!(*range.index(0), 'Z');
    assert_eq!(*range.index(1), 'B');
    assert_eq!(*range.index(39), 'B');
    assert_eq!(*range.index(40), 'Z');
    assert!(range.check_canonical());

    range.insert((Bound::Included(0), Bound::Included(0)), 'Z');
    assert_eq!(*range.index(-2), 'Z');
    assert_eq!(*range.index(-1), 'B');
    assert_eq!(*range.index(0), 'Z');
    assert_eq!(*range.index(1), 'B');
    assert_eq!(*range.index(39), 'B');
    assert_eq!(*range.index(40), 'Z');
    assert!(range.check_canonical());
}
