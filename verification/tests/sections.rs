use rngmap::Bound;
use rngmap::RangeMap;
use rngmap::SectionMap;

fn sections_of(map: &RangeMap) -> Vec<((Bound, Bound), char)> {
    let mut out: Vec<((Bound, Bound), char)> = Vec::new();
    let mut iter = map.iter();
    while let Some(sec) = iter.next() {
        out.push(sec);
    }
    out
}

#[test]
fn iter_sections() {
    let mut map = SectionMap::new('O');

    map.insert((Bound::Included(-1), Bound::Excluded(1)), 'I');

    let mut iter = map.iter();

    let (section, value) = iter.next().unwrap();
    assert_eq!(section, (Bound::Unbounded, Bound::Excluded(-1)));
    assert_eq!(value, 'O');

    let (section, value) = iter.next().unwrap();
    assert_eq!(section, (Bound::Included(-1), Bound::Excluded(1)));
    assert_eq!(value, 'I');

    let (section, value) = iter.next().unwrap();
    assert_eq!(section, (Bound::Included(1), Bound::Unbounded));
    assert_eq!(value, 'O');

    assert_eq!(iter.next(), None);
}

#[test]
fn iter_empty_map_is_one_unbounded_section() {
    let map = RangeMap::new('A');
    let secs = sections_of(&map);
    assert_eq!(secs, vec![((Bound::Unbounded, Bound::Unbounded), 'A')]);
}

#[test]
fn scenario_default_a() {
    let mut range = RangeMap::new('A');

    range.insert((Bound::Unbounded, Bound::Excluded(10)), 'B');
    assert_eq!(*range.index(-10), 'B');
    assert_eq!(*range.index(10), 'A');

    range.insert((Bound::Unbounded, Bound::Included(-10)), 'Z');
    assert_eq!(*range.index(-10), 'Z');
    assert_eq!(*range.index(0), 'B');

    range.insert((Bound::Excluded(10), Bound::Unbounded), 'C');
    assert_eq!(*range.index(20), 'C');
    assert_eq!(*range.index(10), 'A');

    // overwriting with 'C' where 'C' is already in effect adds no boundary
    let before = sections_of(&range);
    range.insert((Bound::Excluded(20), Bound::Unbounded), 'C');
    let after = sections_of(&range);
    assert_eq!(before, after);
    assert!(range.check_canonical());
}

#[test]
fn insert_is_idempotent() {
    let mut once = RangeMap::new('A');
    once.insert((Bound::Unbounded, Bound::Excluded(10)), 'B');
    once.insert((Bound::Included(3), Bound::Included(12)), 'C');

    let mut twice = RangeMap::new('A');
    twice.insert((Bound::Unbounded, Bound::Excluded(10)), 'B');
    twice.insert((Bound::Included(3), Bound::Included(12)), 'C');
    twice.insert((Bound::Included(3), Bound::Included(12)), 'C');

    assert_eq!(sections_of(&once), sections_of(&twice));
    assert!(once.check_canonical());
    assert!(twice.check_canonical());
}

#[test]
fn redundant_insert_changes_nothing() {
    let mut range = RangeMap::new('A');
    range.insert((Bound::Included(0), Bound::Excluded(10)), 'B');
    let before = sections_of(&range);

    // 'B' is already in effect on [0, 10) and on [2, 5)
    range.insert((Bound::Included(0), Bound::Excluded(10)), 'B');
    assert_eq!(before, sections_of(&range));
    range.insert((Bound::Included(2), Bound::Excluded(5)), 'B');
    assert_eq!(before, sections_of(&range));

    // 'A' is already in effect everywhere above 10
    range.insert((Bound::Included(10), Bound::Unbounded), 'A');
    assert_eq!(before, sections_of(&range));
}

#[test]
fn invalid_ranges_are_ignored() {
    let mut range = RangeMap::new('A');
    range.insert((Bound::Included(0), Bound::Excluded(10)), 'B');
    let before = sections_of(&range);

    range.insert((Bound::Excluded(5), Bound::Excluded(5)), 'X');
    range.insert((Bound::Included(5), Bound::Excluded(5)), 'X');
    range.insert((Bound::Excluded(5), Bound::Included(5)), 'X');
    range.insert((Bound::Included(7), Bound::Included(3)), 'X');
    range.insert((Bound::Included(7), Bound::Excluded(3)), 'X');
    range.insert((Bound::Excluded(7), Bound::Included(3)), 'X');

    assert_eq!(before, sections_of(&range));
    assert_eq!(*range.index(5), 'B');
    assert!(range.check_canonical());
}

#[test]
fn single_key_range() {
    let mut range = RangeMap::new('A');
    range.insert((Bound::Included(5), Bound::Included(5)), 'B');
    assert_eq!(*range.index(4), 'A');
    assert_eq!(*range.index(5), 'B');
    assert_eq!(*range.index(6), 'A');
    assert!(range.check_canonical());
}

#[test]
fn full_overwrite_collapses_everything() {
    let mut range = RangeMap::new('A');
    range.insert((Bound::Included(0), Bound::Excluded(10)), 'B');
    range.insert((Bound::Included(20), Bound::Excluded(30)), 'C');
    range.insert((Bound::Unbounded, Bound::Unbounded), 'D');
    assert_eq!(
        sections_of(&range),
        vec![((Bound::Unbounded, Bound::Unbounded), 'D')]
    );
    assert!(range.check_canonical());
}

#[test]
fn extreme_keys() {
    let mut range = RangeMap::new('A');
    range.insert((Bound::Included(i32::MIN), Bound::Included(i32::MIN)), 'B');
    range.insert((Bound::Included(i32::MAX), Bound::Unbounded), 'C');
    assert_eq!(*range.index(i32::MIN), 'B');
    assert_eq!(*range.index(i32::MIN + 1), 'A');
    assert_eq!(*range.index(i32::MAX - 1), 'A');
    assert_eq!(*range.index(i32::MAX), 'C');
    assert!(range.check_canonical());
}

#[test]
fn sections_cover_every_key_and_agree_with_index() {
    let mut range = RangeMap::new('A');
    range.insert((Bound::Unbounded, Bound::Excluded(0)), 'B');
    range.insert((Bound::Included(4), Bound::Included(8)), 'C');
    range.insert((Bound::Excluded(6), Bound::Excluded(12)), 'D');

    let secs = sections_of(&range);
    for k in -20..20 {
        let mut holders: Vec<char> = Vec::new();
        for ((start, end), v) in &secs {
            let after_start = match start {
                Bound::Unbounded => true,
                Bound::Included(a) => *a <= k,
                Bound::Excluded(a) => *a < k,
            };
            let before_end = match end {
                Bound::Unbounded => true,
                Bound::Included(b) => k <= *b,
                Bound::Excluded(b) => k < *b,
            };
            if after_start && before_end {
                holders.push(*v);
            }
        }
        // exactly one section holds the key, and it carries index's value
        assert_eq!(holders.len(), 1);
        assert_eq!(holders[0], *range.index(k));
    }
}

#[test]
fn touching_and_merging_ranges() {
    let mut range = RangeMap::new('A');
    range.insert((Bound::Included(0), Bound::Excluded(5)), 'B');
    range.insert((Bound::Included(5), Bound::Excluded(10)), 'B');
    // the two touching 'B' ranges form one section
    assert_eq!(
        sections_of(&range),
        vec![
            ((Bound::Unbounded, Bound::Excluded(0)), 'A'),
            ((Bound::Included(0), Bound::Excluded(10)), 'B'),
            ((Bound::Included(10), Bound::Unbounded), 'A'),
        ]
    );

    // overwriting the middle with 'A' splits it again
    range.insert((Bound::Included(3), Bound::Excluded(7)), 'A');
    assert_eq!(*range.index(2), 'B');
    assert_eq!(*range.index(3), 'A');
    assert_eq!(*range.index(6), 'A');
    assert_eq!(*range.index(7), 'B');
    assert!(range.check_canonical());
}
