use inversion_list::map::Entry;
use inversion_list::{InversionMap, OrderedIndex};
use std::ops::Range;

fn map_of<Idx: OrderedIndex, V>(entries: Vec<(Range<Idx>, V)>) -> InversionMap<Idx, V> {
    let mut list = Vec::new();
    for (range, value) in entries {
        list.push(Entry { range, value });
    }
    InversionMap::from_entries(list).expect("the entries are ascending and disjoint")
}

#[test]
fn binary_search() {
    let im = map_of(vec![(0..5, 0), (5..15, 0), (20..25, 0)]);
    assert_eq!(Ok(0), im.binary_search(0));
    assert_eq!(Ok(0), im.binary_search(1));
    assert_eq!(Ok(1), im.binary_search(5));
    assert_eq!(Err(2), im.binary_search(15));
    assert_eq!(Err(2), im.binary_search(16));
    assert_eq!(Ok(2), im.binary_search(20));
    assert_eq!(Err(3), im.binary_search(25));
}

#[test]
fn split_inorder() {
    let mut im = map_of(vec![(0..100, 0)]);
    im.split(5);
    im.split(15);
    im.split(25);
    assert_eq!(im, map_of(vec![(0..5, 0), (5..15, 0), (15..25, 0), (25..100, 0)]));
}

#[test]
fn split_outoforder() {
    let mut im = map_of(vec![(0..100, 0)]);
    im.split(25);
    im.split(5);
    im.split(15);
    assert_eq!(im, map_of(vec![(0..5, 0), (5..15, 0), (15..25, 0), (25..100, 0)]));
}

#[test]
fn split_double() {
    let mut im = map_of(vec![(0..100, 0)]);
    im.split(50);
    im.split(50);
    assert_eq!(im, map_of(vec![(0..50, 0), (50..100, 0)]));
}

#[test]
fn split_boundary_left() {
    let mut im = map_of(vec![(0..100, 0)]);
    im.split(0);
    assert_eq!(im, map_of(vec![(0..100, 0)]));
}

#[test]
fn split_boundary_right() {
    let mut im = map_of(vec![(0..100, 0)]);
    im.split(100);
    assert_eq!(im, map_of(vec![(0..100, 0)]));
}

#[test]
fn split_out_of_bounds() {
    let mut im = map_of(vec![(1..100, 0)]);
    im.split(101);
    im.split(1);
    assert_eq!(im, map_of(vec![(1..100, 0)]));
}

#[test]
fn add_range_in_in() {
    let mut im = map_of(vec![(0..1, 0), (5..10, 0), (100..101, 0)]);
    im.add_range_with(6..8, |entries| {
        assert_eq!(entries.len(), 1);
        1
    });
    assert_eq!(im, map_of(vec![(0..1, 0), (5..10, 1), (100..101, 0)]));

    let mut im = map_of(vec![(0..1, 0), (5..10, 0), (15..20, 0), (100..101, 0)]);
    im.add_range_with(6..18, |entries| {
        assert_eq!(entries.len(), 2);
        1
    });
    assert_eq!(im, map_of(vec![(0..1, 0), (5..20, 1), (100..101, 0)]));

    let mut im = map_of(vec![(0..1, 0), (5..10, 0), (15..20, 0), (25..30, 0), (100..101, 0)]);
    im.add_range_with(6..28, |entries| {
        assert_eq!(entries.len(), 3);
        1
    });
    assert_eq!(im, map_of(vec![(0..1, 0), (5..30, 1), (100..101, 0)]));
}

#[test]
fn add_range_in_out() {
    let mut im = map_of(vec![(0..1, 0), (5..10, 0), (100..101, 0)]);
    im.add_range_with(6..12, |entries| {
        assert_eq!(entries.len(), 1);
        1
    });
    assert_eq!(im, map_of(vec![(0..1, 0), (5..12, 1), (100..101, 0)]));

    let mut im = map_of(vec![(0..1, 0), (5..10, 0), (15..20, 0), (100..101, 0)]);
    im.add_range_with(6..22, |entries| {
        assert_eq!(entries.len(), 2);
        1
    });
    assert_eq!(im, map_of(vec![(0..1, 0), (5..22, 1), (100..101, 0)]));

    let mut im = map_of(vec![(0..1, 0), (5..10, 0), (15..20, 0), (25..30, 0), (100..101, 0)]);
    im.add_range_with(6..32, |entries| {
        assert_eq!(entries.len(), 3);
        1
    });
    assert_eq!(im, map_of(vec![(0..1, 0), (5..32, 1), (100..101, 0)]));
}

#[test]
fn add_range_out_in() {
    let mut im = map_of(vec![(0..1, 0), (5..10, 0), (100..101, 0)]);
    im.add_range_with(3..8, |entries| {
        assert_eq!(entries.len(), 1);
        1
    });
    assert_eq!(im, map_of(vec![(0..1, 0), (3..10, 1), (100..101, 0)]));

    let mut im = map_of(vec![(0..1, 0), (5..10, 0), (15..20, 0), (100..101, 0)]);
    im.add_range_with(3..18, |entries| {
        assert_eq!(entries.len(), 2);
        1
    });
    assert_eq!(im, map_of(vec![(0..1, 0), (3..20, 1), (100..101, 0)]));

    let mut im = map_of(vec![(0..1, 0), (5..10, 0), (15..20, 0), (25..30, 0), (100..101, 0)]);
    im.add_range_with(3..28, |entries| {
        assert_eq!(entries.len(), 3);
        1
    });
    assert_eq!(im, map_of(vec![(0..1, 0), (3..30, 1), (100..101, 0)]));
}

#[test]
fn add_range_out_out() {
    let mut im = map_of(vec![(0..1, 0), (5..10, 0), (100..101, 0)]);
    im.add_range_with(10..12, |entries| {
        assert_eq!(entries.len(), 0);
        1
    });
    assert_eq!(im, map_of(vec![(0..1, 0), (5..10, 0), (10..12, 1), (100..101, 0)]));

    let mut im = map_of(vec![(0..1, 0), (5..10, 0), (100..101, 0)]);
    im.add_range_with(3..12, |entries| {
        assert_eq!(entries.len(), 1);
        1
    });
    assert_eq!(im, map_of(vec![(0..1, 0), (3..12, 1), (100..101, 0)]));

    let mut im = map_of(vec![(0..1, 0), (5..10, 0), (15..20, 0), (100..101, 0)]);
    im.add_range_with(3..22, |entries| {
        assert_eq!(entries.len(), 2);
        1
    });
    assert_eq!(im, map_of(vec![(0..1, 0), (3..22, 1), (100..101, 0)]));

    let mut im = map_of(vec![(0..1, 0), (5..10, 0), (15..20, 0), (25..30, 0), (100..101, 0)]);
    im.add_range_with(3..32, |entries| {
        assert_eq!(entries.len(), 3);
        1
    });
    assert_eq!(im, map_of(vec![(0..1, 0), (3..32, 1), (100..101, 0)]));
}

#[test]
fn add_range_ignore_max_range() {
    let mut im = map_of(vec![(0usize..10, 0), (20..30, 0), (40..50, 0), (60..70, 0)]);
    im.add_range(!0..!0, 1);
    assert_eq!(im, map_of(vec![(0..10, 0), (20..30, 0), (40..50, 0), (60..70, 0)]));
}

#[test]
fn add_range_ignore_min_range() {
    let mut im = map_of(vec![(0usize..10, 0), (20..30, 0), (40..50, 0), (60..70, 0)]);
    im.add_range(0..0, 1);
    assert_eq!(im, map_of(vec![(0..10, 0), (20..30, 0), (40..50, 0), (60..70, 0)]));
}

#[test]
fn insert_range_in_in() {
    let mut im = map_of(vec![(0..1, 0), (5..10, 0), (100..101, 0)]);
    im.insert_range_with(6..8, |entries| {
        assert_eq!(entries.len(), 1);
        1
    });
    assert_eq!(
        im,
        map_of(vec![(0..1, 0), (5..6, 0), (6..8, 1), (8..10, 0), (100..101, 0)])
    );

    let mut im = map_of(vec![(0..1, 0), (5..10, 0), (15..20, 0), (100..101, 0)]);
    im.insert_range_with(6..18, |entries| {
        assert_eq!(entries.len(), 2);
        1
    });
    assert_eq!(
        im,
        map_of(vec![(0..1, 0), (5..6, 0), (6..18, 1), (18..20, 0), (100..101, 0)])
    );

    let mut im = map_of(vec![(0..1, 0), (5..10, 0), (15..20, 0), (25..30, 0), (100..101, 0)]);
    im.insert_range_with(6..28, |entries| {
        assert_eq!(entries.len(), 3);
        1
    });
    assert_eq!(
        im,
        map_of(vec![(0..1, 0), (5..6, 0), (6..28, 1), (28..30, 0), (100..101, 0)])
    );
}

#[test]
fn insert_range_in_out() {
    let mut im = map_of(vec![(0..1, 0), (5..10, 0), (100..101, 0)]);
    im.insert_range_with(6..12, |entries| {
        assert_eq!(entries.len(), 1);
        1
    });
    assert_eq!(im, map_of(vec![(0..1, 0), (5..6, 0), (6..12, 1), (100..101, 0)]));

    let mut im = map_of(vec![(0..1, 0), (5..10, 0), (15..20, 0), (100..101, 0)]);
    im.insert_range_with(6..22, |entries| {
        assert_eq!(entries.len(), 2);
        1
    });
    assert_eq!(im, map_of(vec![(0..1, 0), (5..6, 0), (6..22, 1), (100..101, 0)]));

    let mut im = map_of(vec![(0..1, 0), (5..10, 0), (15..20, 0), (25..30, 0), (100..101, 0)]);
    im.insert_range_with(6..32, |entries| {
        assert_eq!(entries.len(), 3);
        1
    });
    assert_eq!(im, map_of(vec![(0..1, 0), (5..6, 0), (6..32, 1), (100..101, 0)]));
}

#[test]
fn insert_range_out_in() {
    let mut im = map_of(vec![(0..1, 0), (5..10, 0), (100..101, 0)]);
    im.insert_range_with(3..8, |entries| {
        assert_eq!(entries.len(), 1);
        1
    });
    assert_eq!(im, map_of(vec![(0..1, 0), (3..8, 1), (8..10, 0), (100..101, 0)]));

    let mut im = map_of(vec![(0..1, 0), (5..10, 0), (15..20, 0), (100..101, 0)]);
    im.insert_range_with(3..18, |entries| {
        assert_eq!(entries.len(), 2);
        1
    });
    assert_eq!(im, map_of(vec![(0..1, 0), (3..18, 1), (18..20, 0), (100..101, 0)]));

    let mut im = map_of(vec![(0..1, 0), (5..10, 0), (15..20, 0), (25..30, 0), (100..101, 0)]);
    im.insert_range_with(3..28, |entries| {
        assert_eq!(entries.len(), 3);
        1
    });
    assert_eq!(im, map_of(vec![(0..1, 0), (3..28, 1), (28..30, 0), (100..101, 0)]));
}

#[test]
fn insert_range_out_out() {
    let mut im = map_of(vec![(0..1, 0), (5..10, 0), (100..101, 0)]);
    im.insert_range_with(10..12, |entries| {
        assert_eq!(entries.len(), 0);
        1
    });
    assert_eq!(im, map_of(vec![(0..1, 0), (5..10, 0), (10..12, 1), (100..101, 0)]));

    let mut im = map_of(vec![(0..1, 0), (5..10, 0), (100..101, 0)]);
    im.insert_range_with(3..12, |entries| {
        assert_eq!(entries.len(), 1);
        1
    });
    assert_eq!(im, map_of(vec![(0..1, 0), (3..12, 1), (100..101, 0)]));

    let mut im = map_of(vec![(0..1, 0), (5..10, 0), (15..20, 0), (100..101, 0)]);
    im.insert_range_with(3..22, |entries| {
        assert_eq!(entries.len(), 2);
        1
    });
    assert_eq!(im, map_of(vec![(0..1, 0), (3..22, 1), (100..101, 0)]));

    let mut im = map_of(vec![(0..1, 0), (5..10, 0), (15..20, 0), (25..30, 0), (100..101, 0)]);
    im.insert_range_with(3..32, |entries| {
        assert_eq!(entries.len(), 3);
        1
    });
    assert_eq!(im, map_of(vec![(0..1, 0), (3..32, 1), (100..101, 0)]));
}

#[test]
fn insert_range_ignore_max_range() {
    let mut im = map_of(vec![(0usize..10, 0), (20..30, 0), (40..50, 0), (60..70, 0)]);
    im.insert_range(!0..!0, 1);
    assert_eq!(im, map_of(vec![(0..10, 0), (20..30, 0), (40..50, 0), (60..70, 0)]));
}

#[test]
fn insert_range_ignore_min_range() {
    let mut im = map_of(vec![(0usize..10, 0), (20..30, 0), (40..50, 0), (60..70, 0)]);
    im.insert_range(0..0, 1);
    assert_eq!(im, map_of(vec![(0..10, 0), (20..30, 0), (40..50, 0), (60..70, 0)]));
}

#[test]
fn remove_range_in_in() {
    let mut im = map_of(vec![(1..10, 0), (20..30, 0), (40..50, 0)]);
    im.remove_range(5..45, |_, _| 1, |_, _| 2);
    assert_eq!(im, map_of(vec![(1..5, 1), (45..50, 2)]));
    let mut im = map_of(vec![(1..10, 0), (20..30, 0), (40..50, 0)]);
    im.remove_range(5..40, |_, _| 1, |_, _| 2);
    assert_eq!(im, map_of(vec![(1..5, 1), (40..50, 0)]));
}

#[test]
fn remove_range_in_out() {
    let mut im = map_of(vec![(1..10, 0), (20..30, 0), (40..50, 0)]);
    im.remove_range(5..35, |_, _| 1, |_, _| 2);
    assert_eq!(im, map_of(vec![(1..5, 1), (40..50, 0)]));
}

#[test]
fn remove_range_out_in() {
    let mut im = map_of(vec![(1..10, 0), (20..30, 0), (40..50, 0)]);
    im.remove_range(15..45, |_, _| 1, |_, _| 2);
    assert_eq!(im, map_of(vec![(1..10, 0), (45..50, 2)]));
}

#[test]
fn remove_range_out_out() {
    let mut im = map_of(vec![(1..10, 0), (20..30, 0), (40..50, 0)]);
    im.remove_range(15..35, |_, _| 1, |_, _| 2);
    assert_eq!(im, map_of(vec![(1..10, 0), (40..50, 0)]));
    let mut im = map_of(vec![(1..10, 0), (20..30, 0), (40..50, 0)]);
    im.remove_range(15..30, |_, _| 1, |_, _| 2);
    assert_eq!(im, map_of(vec![(1..10, 0), (40..50, 0)]));
}

#[test]
fn remove_range_subset() {
    let mut im = map_of(vec![(0..100, 0)]);
    im.remove_range(50..75, |_, _| 1, |_, _| 2);
    assert_eq!(im, map_of(vec![(0..50, 1), (75..100, 2)]));
}

#[test]
fn remove_range_superset() {
    let mut im = map_of(vec![(0..100, 0)]);
    im.remove_range(0..175, |_, _| 1, |_, _| 2);
    assert_eq!(im, map_of(Vec::<(Range<i32>, i32)>::new()));
}

#[test]
fn remove_range_end() {
    let mut im = map_of(vec![(0..100, 0)]);
    im.remove_range(50..100, |_, _| 1, |_, _| 2);
    assert_eq!(im, map_of(vec![(0..50, 1)]));
}

#[test]
fn remove_range_start() {
    let mut im = map_of(vec![(0..100, 0)]);
    im.remove_range(0..50, |_, _| 1, |_, _| 2);
    assert_eq!(im, map_of(vec![(50..100, 2)]));
}

#[test]
fn intersects() {
    let im = map_of(vec![(1..10, 0), (15..26, 0), (61..100, 0)]);
    assert!(im.intersects(5..10));
    assert!(!im.intersects(0..1));
    assert!(im.intersects(12..17));
    assert!(im.intersects(20..30));
    assert!(im.intersects(2..8));
    assert!(im.intersects(0..11));
}

#[test]
fn test_bitand() {
    let im = map_of(vec![(0..5, 0xaaaa), (5..15, 0xaaaa), (20..25, 0xaaaa), (50..80, 0xaaaa)]);
    let im2 = map_of(vec![(0..5, 0xaa55), (7..10, 0xaa55), (12..18, 0xaa55), (19..27, 0xaa55), (30..40, 0xaa55), (45..55, 0xaa55), (57..60, 0xaa55), (78..82, 0xaa55)]);
    assert_eq!(
        im.bitand(&im2, |a: &i32, b: &i32| a & b),
        map_of(vec![(0..5, 0xaa00), (7..10, 0xaa00), (12..15, 0xaa00), (20..25, 0xaa00), (50..55, 0xaa00), (57..60, 0xaa00), (78..80, 0xaa00)])
    );
}

#[test]
fn test_bitor() {
    let im = map_of(vec![(0..5, 0xaaaa), (5..15, 0xaaaa), (20..25, 0xaaaa), (50..80, 0xaaaa)]);
    let im2 = map_of(vec![(0..5, 0x55), (7..10, 0x55), (12..18, 0x55), (19..27, 0x55), (30..40, 0x55), (45..55, 0x55), (57..60, 0x55), (78..82, 0x55)]);
    assert_eq!(
        im.bitor(&im2, |a: &i32, b: &i32| a | b),
        map_of(vec![(0..5, 0xAAFF), (5..18, 0xAAFF), (19..27, 0xAAFF), (30..40, 0x55), (45..82, 0xAAFF)])
    );
}
