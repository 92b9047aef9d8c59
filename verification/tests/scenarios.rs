use inversion_list::map::Entry;
use inversion_list::InversionMap;
use std::ops::Range;

fn entries_of<V>(pairs: Vec<(Range<i64>, V)>) -> Vec<Entry<i64, V>> {
    let mut list = Vec::new();
    for (range, value) in pairs {
        list.push(Entry { range, value });
    }
    list
}

fn build<V>(pairs: Vec<(Range<i64>, V)>) -> InversionMap<i64, V> {
    InversionMap::from_entries(entries_of(pairs)).expect("the entries are ascending and disjoint")
}

#[test]
fn remove_across_three_entries() {
    let mut map = build(vec![(0..10, 0), (20..30, 0), (40..50, 0)]);
    map.remove_range(5..45, |_, _| 1, |_, _| 2);
    assert_eq!(map, build(vec![(0..5, 1), (45..50, 2)]));
}

#[test]
fn insert_into_the_inside_of_an_entry() {
    let mut map = build(vec![(5..100, false)]);
    map.insert_range(7..9, true);
    assert_eq!(map, build(vec![(5..7, false), (7..9, true), (9..100, false)]));
}

#[test]
fn split_at_the_end_of_an_entry_changes_nothing() {
    let mut map = build(vec![(0..100, 'x')]);
    assert_eq!(map.split(100), None);
    assert_eq!(map, build(vec![(0..100, 'x')]));
}

#[test]
fn split_answers_with_the_places() {
    let mut map = build(vec![(0..10, 'a'), (20..30, 'b')]);
    assert_eq!(map.split(25), Some((1, 2)));
    assert_eq!(map.split(25), Some((2, 2)));
    assert_eq!(map.split(20), Some((1, 1)));
    assert_eq!(map.split(15), None);
    assert_eq!(map.split(5), Some((0, 1)));
    assert_eq!(map, build(vec![(0..5, 'a'), (5..10, 'a'), (20..25, 'b'), (25..30, 'b')]));
}

#[test]
fn split_with_sees_the_whole_entry() {
    let mut map = build(vec![(0..10, 7), (20..30, 100)]);
    let places = map.split_with(24, |range, value| {
        assert_eq!(range, 20..30);
        assert_eq!(value, 100);
        (value / 4, value - value / 4)
    });
    assert_eq!(places, Some((1, 2)));
    assert_eq!(map, build(vec![(0..10, 7), (20..24, 25), (24..30, 75)]));
    let places = map.split_with(24, |_, _| unreachable!());
    assert_eq!(places, Some((2, 2)));
    let places = map.split_with(10, |_, _| unreachable!());
    assert_eq!(places, None);
    assert_eq!(map, build(vec![(0..10, 7), (20..24, 25), (24..30, 75)]));
}

#[test]
fn inserted_value_is_read_back_and_the_rest_is_kept() {
    let mut map = build(vec![(0..10, 1), (10..20, 2), (30..40, 3)]);
    map.insert_range(5..35, 9);
    for point in 5..35 {
        assert_eq!(map.lookup(point), Some((5..35, &9)));
    }
    for point in 0..5 {
        assert_eq!(map.lookup(point), Some((0..5, &1)));
    }
    for point in 35..40 {
        assert_eq!(map.lookup(point), Some((35..40, &3)));
    }
    assert_eq!(map.lookup(-1), None);
    assert_eq!(map.lookup(40), None);
    assert_eq!(map, build(vec![(0..5, 1), (5..35, 9), (35..40, 3)]));
}

#[test]
fn insert_hands_the_overlapped_entries_over() {
    let mut map = build(vec![(0..1, 10), (5..10, 20), (15..20, 30), (100..101, 40)]);
    map.insert_range_with(6..18, |entries| {
        assert!(!entries.is_empty());
        assert_eq!(entries.len(), 2);
        let owned = entries.into_vec();
        assert_eq!(owned, entries_of(vec![(5..10, 20), (15..20, 30)]));
        owned.into_iter().map(|e| e.value).sum()
    });
    assert_eq!(
        map,
        build(vec![(0..1, 10), (5..6, 20), (6..18, 50), (18..20, 30), (100..101, 40)])
    );
    map.insert_range_with(30..30, |_| unreachable!());
    map.insert_range_with(2..4, |entries| {
        assert!(entries.is_empty());
        7
    });
    assert_eq!(
        map,
        build(vec![(0..1, 10), (2..4, 7), (5..6, 20), (6..18, 50), (18..20, 30), (100..101, 40)])
    );
}

#[test]
fn touching_entries_are_not_overlapped() {
    let mut map = build(vec![(0..5, 1), (10..15, 2)]);
    map.insert_range_with(5..10, |entries| {
        assert_eq!(entries.len(), 0);
        3
    });
    assert_eq!(map, build(vec![(0..5, 1), (5..10, 3), (10..15, 2)]));
    map.add_range_with(5..10, |entries| {
        assert_eq!(entries.len(), 1);
        assert_eq!(entries.get(0), (5..10, &3));
        4
    });
    assert_eq!(map, build(vec![(0..5, 1), (5..10, 4), (10..15, 2)]));
    map.add_range_with(4..11, |entries| {
        assert_eq!(entries.len(), 3);
        5
    });
    assert_eq!(map, build(vec![(0..15, 5)]));
    map.add_range_with(20..20, |_| unreachable!());
}

#[test]
fn add_before_the_first_and_behind_the_last() {
    let mut map = build(vec![(10..20, 'm')]);
    map.add_range(0..5, 'a');
    map.add_range(30..40, 'z');
    assert_eq!(map, build(vec![(0..5, 'a'), (10..20, 'm'), (30..40, 'z')]));
    map.add_range(-5..12, 'b');
    assert_eq!(map, build(vec![(-5..20, 'b'), (30..40, 'z')]));
}

#[test]
fn remove_sees_the_entries_as_they_were() {
    let mut map = build(vec![(0..10, 5), (20..30, 6)]);
    map.remove_range(
        8..22,
        |range, value| {
            assert_eq!(range, 0..10);
            assert_eq!(*value, 5);
            50
        },
        |range, value| {
            assert_eq!(range, 20..30);
            assert_eq!(*value, 6);
            60
        },
    );
    assert_eq!(map, build(vec![(0..8, 50), (22..30, 60)]));
    map.remove_range(
        2..4,
        |range, value| {
            assert_eq!(range, 0..8);
            *value + 1
        },
        |range, value| {
            assert_eq!(range, 0..8);
            *value + 2
        },
    );
    assert_eq!(map, build(vec![(0..2, 51), (4..8, 52), (22..30, 60)]));
    map.remove_range(9..9, |_, _| unreachable!(), |_, _| unreachable!());
    map.remove_range(10..20, |_, _| unreachable!(), |_, _| unreachable!());
    map.remove_range(4..8, |_, _| unreachable!(), |_, _| unreachable!());
    assert_eq!(map, build(vec![(0..2, 51), (22..30, 60)]));
}

#[test]
fn add_unit_overwrites_or_inserts() {
    let mut map = build(vec![(0..10, 'a'), (20..30, 'b')]);
    assert!(!map.add_unit(5, 'c'));
    assert_eq!(map, build(vec![(0..10, 'c'), (20..30, 'b')]));
    assert!(map.add_unit(10, 'd'));
    assert_eq!(map, build(vec![(0..10, 'c'), (10..11, 'd'), (20..30, 'b')]));
    assert!(map.add_unit(-7, 'e'));
    assert!(map.add_unit(40, 'f'));
    assert_eq!(
        map,
        build(vec![(-7..-6, 'e'), (0..10, 'c'), (10..11, 'd'), (20..30, 'b'), (40..41, 'f')])
    );
}

#[test]
fn insert_unit_parts_or_inserts() {
    let mut map = build(vec![(0..10, 'a'), (20..30, 'b')]);
    assert!(!map.insert_unit(5, 'c'));
    assert_eq!(map, build(vec![(0..5, 'a'), (5..10, 'a'), (20..30, 'b')]));
    assert!(!map.insert_unit(20, 'c'));
    assert_eq!(map, build(vec![(0..5, 'a'), (5..10, 'a'), (20..30, 'b')]));
    assert!(map.insert_unit(15, 'c'));
    assert_eq!(map, build(vec![(0..5, 'a'), (5..10, 'a'), (15..16, 'c'), (20..30, 'b')]));
}

#[test]
fn unit_next_to_the_largest_index() {
    let mut map: InversionMap<u8, u8> = InversionMap::new();
    assert!(map.add_unit(254, 1));
    assert_eq!(map.span(), Some(254..255));
    assert!(!map.add_unit(254, 2));
    assert_eq!(map.lookup(254), Some((254..255, &2)));
    assert_eq!(map.len(), 1);
    assert!(!map.contains(255));
    assert!(map.add_unit(0, 3));
    assert_eq!(map.first(), Some((0..1, &3)));
}

#[test]
fn queries() {
    let map = build(vec![(1..10, 'a'), (15..26, 'b'), (61..100, 'c')]);
    assert_eq!(map.len(), 3);
    assert!(!map.is_empty());
    assert!(map.capacity() >= 3);
    assert_eq!(map.start(), Some(1));
    assert_eq!(map.end(), Some(100));
    assert_eq!(map.span(), Some(1..100));
    assert_eq!(map.first(), Some((1..10, &'a')));
    assert_eq!(map.last(), Some((61..100, &'c')));
    assert!(map.contains(1));
    assert!(map.contains(25));
    assert!(!map.contains(26));
    assert!(!map.contains(0));
    assert_eq!(map.lookup(61), Some((61..100, &'c')));
    assert_eq!(map.lookup(60), None);
    let found = map.lookup_range(0..16).expect("two entries meet the range");
    assert_eq!(found.len(), 2);
    assert_eq!(found.get(0), (1..10, &'a'));
    assert_eq!(found.get(1), (15..26, &'b'));
    assert!(map.lookup_range(10..15).is_none());
    assert!(map.lookup_range(26..61).is_none());
    assert!(map.lookup_range(5..5).is_none());
    assert!(map.lookup_range(9..2).is_none());
    assert!(!map.intersects(5..5));
    assert!(!map.intersects(20..2));
    assert!(map.intersects(99..1000));
    assert!(!map.intersects(100..1000));
}

#[test]
fn empty_map() {
    let mut map: InversionMap<i64, u8> = InversionMap::new();
    assert!(map.is_empty());
    assert_eq!(map.len(), 0);
    assert_eq!(map.start(), None);
    assert_eq!(map.end(), None);
    assert_eq!(map.span(), None);
    assert_eq!(map.first(), None);
    assert_eq!(map.last(), None);
    assert_eq!(map.binary_search(3), Err(0));
    assert!(!map.contains(3));
    assert!(!map.intersects(0..10));
    assert_eq!(map.split(3), None);
    map.remove_range(0..10, |_, _| unreachable!(), |_, _| unreachable!());
    assert_eq!(map, InversionMap::default());
    assert_eq!(map, InversionMap::with_capacity(10));
    assert!(InversionMap::<i64, u8>::with_capacity(10).capacity() >= 10);
    map.insert_range(3..4, 1);
    map.clear();
    assert!(map.is_empty());
}

#[test]
fn range_binary_search_finds_both_ends() {
    let map = build(vec![(0..5, 0), (5..15, 0), (20..25, 0)]);
    assert_eq!(map.range_binary_search(0..5), (Ok(0), Ok(0)));
    assert_eq!(map.range_binary_search(3..6), (Ok(0), Ok(1)));
    assert_eq!(map.range_binary_search(3..20), (Ok(0), Err(2)));
    assert_eq!(map.range_binary_search(15..20), (Err(2), Err(2)));
    assert_eq!(map.range_binary_search(15..21), (Err(2), Ok(2)));
    assert_eq!(map.range_binary_search(-5..30), (Err(0), Err(3)));
}

#[test]
fn from_entries_wants_order() {
    assert!(InversionMap::from_entries(entries_of(vec![(0..5, 1), (5..6, 2)])).is_some());
    assert!(InversionMap::from_entries(entries_of::<u8>(vec![])).is_some());
    assert!(InversionMap::from_entries(entries_of(vec![(0..5, 1), (4..6, 2)])).is_none());
    assert!(InversionMap::from_entries(entries_of(vec![(5..6, 1), (0..5, 2)])).is_none());
    assert!(InversionMap::from_entries(entries_of(vec![(0..5, 1), (7..7, 2)])).is_none());
    assert!(InversionMap::from_entries(entries_of(vec![(5..0, 1)])).is_none());
}

#[test]
fn clone_keeps_the_entries() {
    let map = build(vec![(0..5, String::from("a")), (7..9, String::from("b"))]);
    let copy = map.clone();
    assert_eq!(map, copy);
}

#[test]
fn intersection_of_maps_far_apart() {
    let a = build(vec![(0..5, 1)]);
    let b = build(vec![(10..20, 2)]);
    assert!(a.bitand(&b, |x, y| x & y).is_empty());
    assert!(b.bitand(&a, |x, y| x & y).is_empty());
    let none: InversionMap<i64, i32> = InversionMap::new();
    assert!(a.bitand(&none, |x, y| x & y).is_empty());
    assert!(none.bitand(&a, |x, y| x & y).is_empty());
}

#[test]
fn intersection_puts_the_larger_map_first() {
    let a = build(vec![(0..10, 100)]);
    let b = build(vec![(2..4, 1), (6..12, 2)]);
    let expected = build(vec![(2..4, -99), (6..10, -98)]);
    assert_eq!(a.bitand(&b, |x, y| x - y), expected);
    assert_eq!(b.bitand(&a, |x, y| x - y), expected);
    let c = build(vec![(5..20, 7)]);
    assert_eq!(a.bitand(&c, |x, y| x - y), build(vec![(5..10, 93)]));
    assert_eq!(c.bitand(&a, |x, y| x - y), build(vec![(5..10, -93)]));
}

#[test]
fn union_folds_from_the_first_to_the_last() {
    let a = build(vec![(0..10, String::from("a")), (20..30, String::from("b"))]);
    let b = build(vec![(5..25, String::from("x"))]);
    let join = |left: &String, right: &String| format!("{left}{right}");
    assert_eq!(a.bitor(&b, join), build(vec![(0..30, String::from("xab"))]));
    assert_eq!(b.bitor(&a, join), build(vec![(0..30, String::from("xab"))]));
    let c = build(vec![(40..50, String::from("c"))]);
    assert_eq!(
        b.bitor(&c, join),
        build(vec![(5..25, String::from("x")), (40..50, String::from("c"))])
    );
    let d = build(vec![(0..6, String::from("p")), (24..41, String::from("q"))]);
    assert_eq!(
        b.bitor(&c, join).bitor(&d, join),
        build(vec![(0..50, String::from("qpxc"))])
    );
}

#[test]
fn assigning_forms_replace_the_receiver() {
    let mut a = build(vec![(0..10, 0b1100)]);
    let b = build(vec![(5..15, 0b1010)]);
    a.bitand_assign(&b, |x, y| x & y);
    assert_eq!(a, build(vec![(5..10, 0b1000)]));
    a.bitor_assign(&b, |x, y| x | y);
    assert_eq!(a, build(vec![(5..15, 0b1010)]));
    assert_eq!(b, build(vec![(5..15, 0b1010)]));
}
