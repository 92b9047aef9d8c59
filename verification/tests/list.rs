use inversion_list::InversionList;
use std::ops::Range;

fn list_of(ranges: Vec<Range<usize>>) -> InversionList<usize> {
    let list = InversionList::from_ranges(ranges.clone());
    assert_eq!(ranges_of(&list), ranges);
    list
}

fn ranges_of(list: &InversionList<usize>) -> Vec<Range<usize>> {
    let mut out = Vec::new();
    let mut it = list.iter();
    while let Some(range) = it.next() {
        out.push(range);
    }
    out
}

#[test]
fn new_list_is_empty() {
    let list: InversionList<usize> = InversionList::new();
    assert!(list.is_empty());
    assert_eq!(list.len(), 0);
    assert_eq!(list.start(), None);
    assert_eq!(list.end(), None);
    assert_eq!(list.span(), None);
    assert_eq!(list.first(), None);
    assert_eq!(list.last(), None);
    assert_eq!(list, InversionList::default());
    assert_eq!(list, InversionList::with_capacity(8));
}

#[test]
fn list_capacity_holds_len() {
    let list = list_of(vec![0..5, 7..9, 20..21]);
    assert!(list.capacity() >= list.len());
    let roomy: InversionList<usize> = InversionList::with_capacity(16);
    assert!(roomy.capacity() >= 16);
}

#[test]
fn list_ends() {
    let mut list = list_of(vec![1..10, 15..26, 61..100]);
    assert_eq!(list.len(), 3);
    assert!(!list.is_empty());
    assert_eq!(list.start(), Some(1));
    assert_eq!(list.end(), Some(100));
    assert_eq!(list.span(), Some(1..100));
    assert_eq!(list.first(), Some(1..10));
    assert_eq!(list.last(), Some(61..100));
    list.clear();
    assert!(list.is_empty());
}

#[test]
fn list_contains_and_lookup() {
    let list = list_of(vec![1..10, 15..26, 61..100]);
    assert!(list.contains(1));
    assert!(list.contains(9));
    assert!(!list.contains(10));
    assert!(!list.contains(0));
    assert!(list.contains(99));
    assert!(!list.contains(100));
    assert_eq!(list.lookup(20), Some(15..26));
    assert_eq!(list.lookup(14), None);
    let found = list.lookup_range(9..62).expect("three ranges meet the range");
    assert_eq!(found.len(), 3);
    assert!(!found.is_empty());
    assert_eq!(found.get(1).0, 15..26);
    assert!(list.lookup_range(10..15).is_none());
    assert!(list.lookup_range(20..20).is_none());
    assert!(list.intersects(9..11));
    assert!(!list.intersects(10..15));
    assert!(!list.intersects(30..30));
}

#[test]
fn contains_range_wants_every_point() {
    let list = list_of(vec![1..10, 10..26, 30..40]);
    assert!(list.contains_range(2..8));
    assert!(list.contains_range(1..10));
    assert!(list.contains_range(5..20));
    assert!(list.contains_range(1..26));
    assert!(!list.contains_range(1..27));
    assert!(!list.contains_range(20..35));
    assert!(!list.contains_range(0..5));
    assert!(!list.contains_range(26..30));
    assert!(!list.contains_range(5..5));
    assert!(!list.contains_range(8..2));
}

#[test]
fn is_subset() {
    let im = list_of(vec![1..10, 15..26, 61..100]);
    let im2 = list_of(vec![1..5, 17..22, 77..88]);
    let im3 = list_of(vec![1..10, 77..88]);
    assert!(im.is_subset(&im));
    assert!(im2.is_subset(&im));
    assert!(im3.is_subset(&im));
    assert!(!im.is_subset(&im2));
    assert!(!im.is_subset(&im3));

    assert!(im.is_superset(&im));
    assert!(im.is_superset(&im2));
    assert!(im.is_superset(&im3));
    assert!(!im2.is_superset(&im));
    assert!(!im3.is_superset(&im));
}

#[test]
fn subset_across_touching_ranges() {
    let whole = list_of(vec![0..18]);
    let parted = list_of(vec![0..5, 5..18]);
    assert!(whole.is_subset(&parted));
    assert!(parted.is_subset(&whole));
    let empty: InversionList<usize> = InversionList::new();
    assert!(empty.is_subset(&whole));
    assert!(!whole.is_subset(&empty));
}

#[test]
fn is_disjoint() {
    let im = list_of(vec![1..10, 15..26, 61..100]);
    let im2 = list_of(vec![1..5, 17..22, 77..88, 100..166]);
    let im3 = list_of(vec![1..10, 37..54, 66..100]);
    let im4 = list_of(vec![10..15, 44..55, 60..61]);
    assert!(!im.is_disjoint(&im));
    assert!(!im.is_disjoint(&im2));
    assert!(!im.is_disjoint(&im3));
    assert!(im.is_disjoint(&im4));
    assert!(im4.is_disjoint(&im));
}

#[test]
fn merge() {
    let mut im = list_of(vec![0..5, 5..15, 20..25]);
    im.merge(0, 2);
    assert_eq!(im, list_of(vec![0..25]));
    let mut im = list_of(vec![0..5, 7..15, 20..25, 30..31]);
    im.merge(1, 2);
    assert_eq!(im, list_of(vec![0..5, 7..25, 30..31]));
    im.merge(0, 0);
    assert_eq!(im, list_of(vec![0..5, 7..25, 30..31]));
}

#[test]
fn collapse() {
    let mut im = list_of(vec![1..10, 10..26, 30..33, 33..35, 35..40, 41..45]);
    im.collapse();
    assert_eq!(im, list_of(vec![1..26, 30..40, 41..45]));
}

#[test]
fn collapse_twice_is_collapse_once() {
    let mut once = list_of(vec![0..1, 1..2, 2..3, 5..6, 6..9, 11..12]);
    once.collapse();
    let mut twice = once.clone();
    twice.collapse();
    assert_eq!(once, twice);
    assert_eq!(once, list_of(vec![0..3, 5..9, 11..12]));
    let mut empty: InversionList<usize> = InversionList::new();
    empty.collapse();
    assert!(empty.is_empty());
}

#[test]
fn invert() {
    let mut im = list_of(vec![1..10, 10..26, 30..33, 33..35, 35..40, 41..45]);
    im.invert();
    assert_eq!(im, list_of(vec![0..1, 26..30, 40..41, 45..usize::MAX]));
    let mut im = list_of(vec![0..10, 15..26, 26..33, 34..35, 35..36]);
    im.invert();
    assert_eq!(im, list_of(vec![10..15, 33..34, 36..usize::MAX]));
}

#[test]
fn test_not() {
    let im = list_of(vec![0..5, 5..15, 20..25, 50..80]);
    assert_eq!(im.not(), list_of(vec![15..20, 25..50, 80..!0]));
    let im = list_of(vec![5..15, 20..25, 50..80]);
    assert_eq!(im.not(), list_of(vec![0..5, 15..20, 25..50, 80..!0]));
}

#[test]
fn complement_of_nothing_and_of_everything() {
    let empty: InversionList<u8> = InversionList::new();
    let full = empty.not();
    assert_eq!(full, InversionList::from_ranges(vec![0..255]));
    assert_eq!(full.not(), empty);
    let flush = InversionList::from_ranges(vec![0u8..7, 200..255]);
    assert_eq!(flush.not(), InversionList::from_ranges(vec![7u8..200]));
}

#[test]
fn complement_twice_gives_the_set_back() {
    let set = list_of(vec![3..9, 12..13, 40..usize::MAX]);
    assert_eq!(set.not().not(), set);
    let touching = list_of(vec![3..9, 9..13]);
    let mut merged = touching.clone();
    merged.collapse();
    assert_eq!(touching.not().not(), merged);
}

#[test]
fn union_of_sets() {
    let a = list_of(vec![0..5, 5..15, 20..25, 50..80]);
    let b = list_of(vec![0..5, 7..10, 12..18, 19..27, 30..40, 45..55, 57..60, 78..82]);
    let union = a.bitor(&b);
    assert_eq!(union, list_of(vec![0..18, 19..27, 30..40, 45..82]));
    assert_eq!(b.bitor(&a), union);
}

#[test]
fn intersection_of_sets() {
    let a = list_of(vec![0..5, 5..15, 20..25, 50..80]);
    let b = list_of(vec![0..5, 7..10, 12..18, 19..27, 30..40, 45..55, 57..60, 78..82]);
    let both = list_of(vec![0..5, 7..10, 12..15, 20..25, 50..55, 57..60, 78..80]);
    assert_eq!(a.bitand(&b), both);
    assert_eq!(b.bitand(&a), both);
    let far = list_of(vec![100..200]);
    assert!(a.bitand(&far).is_empty());
    assert!(far.bitand(&a).is_empty());
    let empty: InversionList<usize> = InversionList::new();
    assert!(a.bitand(&empty).is_empty());
    assert_eq!(a.bitor(&empty), list_of(vec![0..15, 20..25, 50..80]));
    assert_eq!(empty.bitor(&far), far);
}

#[test]
fn union_holds_both_and_intersection_is_held_by_both() {
    let a = list_of(vec![0..5, 5..15, 20..25, 50..80]);
    let b = list_of(vec![2..3, 14..21, 24..51, 90..91]);
    let union = a.bitor(&b);
    let both = a.bitand(&b);
    assert!(a.is_subset(&union));
    assert!(b.is_subset(&union));
    assert!(both.is_subset(&a));
    assert!(both.is_subset(&b));
    assert!(!union.is_subset(&a));
    assert_eq!(both, list_of(vec![2..3, 14..15, 20..21, 24..25, 50..51]));
    assert_eq!(union, list_of(vec![0..80, 90..91]));
}

#[test]
fn list_insert_range_cuts() {
    let mut list = list_of(vec![5..100]);
    list.insert_range(7..9);
    assert_eq!(list, list_of(vec![5..7, 7..9, 9..100]));
    list.insert_range(0..8);
    assert_eq!(list, list_of(vec![0..8, 8..9, 9..100]));
    list.insert_range(4..4);
    list.insert_range(9..2);
    assert_eq!(list, list_of(vec![0..8, 8..9, 9..100]));
}

#[test]
fn list_add_range_merges() {
    let mut list = list_of(vec![0..1, 5..10, 15..20, 100..101]);
    list.add_range(6..18);
    assert_eq!(list, list_of(vec![0..1, 5..20, 100..101]));
    list.add_range(20..30);
    assert_eq!(list, list_of(vec![0..1, 5..20, 20..30, 100..101]));
    list.add_range(19..21);
    assert_eq!(list, list_of(vec![0..1, 5..30, 100..101]));
    list.add_range(7..7);
    assert_eq!(list, list_of(vec![0..1, 5..30, 100..101]));
}

#[test]
fn list_remove_range_cuts() {
    let mut list = list_of(vec![0..10, 20..30, 40..50]);
    list.remove_range(5..45);
    assert_eq!(list, list_of(vec![0..5, 45..50]));
    list.remove_range(46..47);
    assert_eq!(list, list_of(vec![0..5, 45..46, 47..50]));
    list.remove_range(3..3);
    assert_eq!(list, list_of(vec![0..5, 45..46, 47..50]));
    list.remove_range(0..100);
    assert!(list.is_empty());
}

#[test]
fn list_units() {
    let mut list: InversionList<usize> = InversionList::new();
    assert!(list.add_unit(4));
    assert!(list.add_unit(2));
    assert!(list.add_unit(3));
    assert_eq!(list, list_of(vec![2..3, 3..4, 4..5]));
    assert!(!list.add_unit(3));
    assert_eq!(list, list_of(vec![2..3, 3..4, 4..5]));
    let mut list = list_of(vec![0..10]);
    assert!(!list.insert_unit(4));
    assert_eq!(list, list_of(vec![0..4, 4..10]));
    assert!(!list.insert_unit(4));
    assert_eq!(list, list_of(vec![0..4, 4..10]));
    assert!(list.insert_unit(12));
    assert_eq!(list, list_of(vec![0..4, 4..10, 12..13]));
}

#[test]
fn units_at_the_end_of_the_domain() {
    let mut list: InversionList<u8> = InversionList::new();
    assert!(list.add_unit(254));
    assert_eq!(list, InversionList::from_ranges(vec![254..255]));
    assert!(!list.add_unit(254));
    assert_eq!(list, InversionList::from_ranges(vec![254..255]));
    assert!(!list.contains(255));
    let mut list: InversionList<i8> = InversionList::new();
    assert!(list.insert_unit(-128));
    assert!(list.insert_unit(126));
    assert!(!list.insert_unit(126));
    assert_eq!(list, InversionList::from_ranges(vec![-128..-127, 126..127]));
}

#[test]
fn list_split() {
    let mut list = list_of(vec![0..100]);
    list.split(25);
    list.split(5);
    list.split(100);
    list.split(0);
    list.split(200);
    assert_eq!(list, list_of(vec![0..5, 5..25, 25..100]));
}

#[test]
fn from_ranges_writes_in_order() {
    let list = InversionList::from_ranges(vec![0usize..10, 5..7, 20..30, 3..3, 29..40]);
    assert_eq!(ranges_of(&list), vec![0..5, 5..7, 7..10, 20..29, 29..40]);
}
