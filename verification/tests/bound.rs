use rngmap::Bound;
use rngmap::Point;
use rngmap::is_valid_range;

#[test]
fn test_point_ord() {
    assert!(&Point::Included(1) <= &Point::Included(1));
    assert!(&Point::Included(1) == &Point::Included(1));
    assert!(&Point::Included(1) >= &Point::Included(1));

    assert!(&Point::Excluded(1) > &Point::Included(1));
    assert!(&Point::Included(1) < &Point::Excluded(1));

    assert!(&Point::Included(-1) < &Point::Excluded(0));

    assert!(&Point::Excluded(1) != &Point::Included(1));
    assert!(&Point::Included(1) != &Point::Excluded(1));

    assert!(&Point::Excluded(-1) < &Point::Included(0));
    assert!(&Point::Included(-1) < &Point::Included(0));
    assert!(&Point::Excluded(-1) < &Point::Excluded(0));
    assert!(&Point::Included(-1) < &Point::Excluded(0));
}

#[test]
fn test_range_point_swap_bound() {
    assert_eq!(Point::Included(1).swap_bound(), Point::Excluded(1));
    assert_eq!(Point::Excluded(1).swap_bound(), Point::Included(1));
}

#[test]
fn test_is_valid_range() {
    assert!(is_valid_range(&(Bound::Unbounded, Bound::Unbounded)));
    assert!(is_valid_range(&(Bound::Unbounded, Bound::Excluded(2))));
    assert!(is_valid_range(&(Bound::Included(2), Bound::Unbounded)));
    assert!(is_valid_range(&(Bound::Included(0), Bound::Excluded(1))));
    assert!(is_valid_range(&(Bound::Included(0), Bound::Included(0)))); // inc inc
    assert!(!is_valid_range(&(Bound::Included(0), Bound::Excluded(0)))); // inc exc
    assert!(!is_valid_range(&(Bound::Excluded(0), Bound::Included(0)))); // exc inc
    assert!(!is_valid_range(&(Bound::Excluded(0), Bound::Excluded(0)))); // exc exc
    assert!(!is_valid_range(&(Bound::Included(1), Bound::Excluded(0))));
}
