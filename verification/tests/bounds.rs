use inversion_list::index::{index_eq, index_le, index_lt, index_max, index_min};
use inversion_list::util::{bounds_to_range, non_empty, Bound};
use inversion_list::OrderedIndex;

#[test]
fn included_start_excluded_end() {
    assert_eq!(bounds_to_range(Bound::Included(3u8), Bound::Excluded(7)), Some(3..7));
    assert_eq!(bounds_to_range(Bound::Included(3i64), Bound::Excluded(4)), Some(3..4));
}

#[test]
fn excluded_start_steps_up() {
    assert_eq!(bounds_to_range(Bound::Excluded(3u8), Bound::Excluded(7)), Some(4..7));
    assert_eq!(bounds_to_range(Bound::Excluded(253u8), Bound::Unbounded), Some(254..255));
    assert_eq!(bounds_to_range(Bound::Excluded(-1i32), Bound::Included(0)), Some(0..1));
}

#[test]
fn included_end_steps_up() {
    assert_eq!(bounds_to_range(Bound::Included(3u8), Bound::Included(7)), Some(3..8));
    assert_eq!(bounds_to_range(Bound::Included(3u8), Bound::Included(3)), Some(3..4));
    assert_eq!(bounds_to_range(Bound::Unbounded, Bound::Included(254u8)), Some(0..255));
}

#[test]
fn unbounded_ends_reach_the_domain() {
    assert_eq!(bounds_to_range::<u8>(Bound::Unbounded, Bound::Unbounded), Some(0..255));
    assert_eq!(bounds_to_range::<i8>(Bound::Unbounded, Bound::Unbounded), Some(-128..127));
    assert_eq!(bounds_to_range(Bound::Unbounded, Bound::Excluded(9u16)), Some(0..9));
    assert_eq!(bounds_to_range(Bound::Included(9usize), Bound::Unbounded), Some(9..usize::MAX));
}

#[test]
fn empty_bounds_give_no_range() {
    assert_eq!(bounds_to_range(Bound::Included(5u8), Bound::Excluded(5)), None);
    assert_eq!(bounds_to_range(Bound::Included(7u8), Bound::Excluded(3)), None);
    assert_eq!(bounds_to_range(Bound::Excluded(5u8), Bound::Excluded(6)), None);
    assert_eq!(bounds_to_range(Bound::Excluded(5u8), Bound::Included(5)), None);
    assert_eq!(bounds_to_range(Bound::Unbounded, Bound::Excluded(0u8)), None);
    assert_eq!(bounds_to_range(Bound::Included(255u8), Bound::Unbounded), None);
    assert_eq!(bounds_to_range(Bound::Excluded(254u8), Bound::Unbounded), None);
}

#[test]
fn non_empty_keeps_ranges_with_points() {
    assert_eq!(non_empty(3u32..7), Some(3..7));
    assert_eq!(non_empty(3u32..3), None);
    assert_eq!(non_empty(7u32..3), None);
    assert_eq!(non_empty(!0usize..!0), None);
}

#[test]
fn index_domain_of_unsigned() {
    assert_eq!(<u8 as OrderedIndex>::one(), 1);
    assert_eq!(<u8 as OrderedIndex>::min_value(), 0);
    assert_eq!(<u8 as OrderedIndex>::max_value(), 255);
    assert_eq!(OrderedIndex::checked_add(250u8, 5), Some(255));
    assert_eq!(OrderedIndex::checked_add(250u8, 6), None);
    assert_eq!(OrderedIndex::checked_sub(5u8, 5), Some(0));
    assert_eq!(OrderedIndex::checked_sub(5u8, 6), None);
    assert_eq!(<usize as OrderedIndex>::max_value(), usize::MAX);
    assert_eq!(<u128 as OrderedIndex>::max_value(), u128::MAX);
    assert_eq!(OrderedIndex::checked_add(u64::MAX, 1), None);
    assert_eq!(OrderedIndex::checked_add(u16::MAX - 1, 1), Some(u16::MAX));
    assert_eq!(OrderedIndex::checked_sub(0u32, 1), None);
}

#[test]
fn index_domain_of_signed() {
    assert_eq!(<i8 as OrderedIndex>::one(), 1);
    assert_eq!(<i8 as OrderedIndex>::min_value(), -128);
    assert_eq!(<i8 as OrderedIndex>::max_value(), 127);
    assert_eq!(OrderedIndex::checked_add(120i8, 7), Some(127));
    assert_eq!(OrderedIndex::checked_add(120i8, 8), None);
    assert_eq!(OrderedIndex::checked_sub(-120i8, 8), Some(-128));
    assert_eq!(OrderedIndex::checked_sub(-120i8, 9), None);
    assert_eq!(OrderedIndex::checked_add(-5i16, 5), Some(0));
    assert_eq!(<i32 as OrderedIndex>::min_value(), i32::MIN);
    assert_eq!(<i64 as OrderedIndex>::max_value(), i64::MAX);
    assert_eq!(<i128 as OrderedIndex>::min_value(), i128::MIN);
    assert_eq!(<isize as OrderedIndex>::max_value(), isize::MAX);
}

#[test]
fn index_comparisons() {
    assert!(index_lt(-3i32, 2));
    assert!(!index_lt(2i32, 2));
    assert!(index_le(2i32, 2));
    assert!(!index_le(3u8, 2));
    assert!(index_eq(7u64, 7));
    assert!(!index_eq(7u64, 8));
    assert_eq!(index_min(4u8, 9), 4);
    assert_eq!(index_min(9u8, 4), 4);
    assert_eq!(index_max(4i8, -9), 4);
    assert_eq!(index_max(-9i8, 4), 4);
}
