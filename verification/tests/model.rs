use inversion_list::map::Entry;
use inversion_list::{InversionList, InversionMap};

const POINTS: usize = 48;

struct Steps(u64);

impl Steps {
    fn next(&mut self, below: u64) -> u64 {
        self.0 = self.0.wrapping_mul(6364136223846793005).wrapping_add(1442695040888963407);
        (self.0 >> 33) % below
    }

    fn range(&mut self) -> std::ops::Range<u8> {
        let a = self.next(POINTS as u64 + 1) as u8;
        let b = self.next(POINTS as u64 + 1) as u8;
        a..b
    }
}

fn points_of(map: &InversionMap<u8, u32>) -> Vec<Option<u32>> {
    let mut points = Vec::new();
    for p in 0..POINTS as u8 {
        points.push(map.lookup(p).map(|(_, value)| *value));
    }
    points
}

fn sorted_and_disjoint(map: &InversionMap<u8, u32>) -> bool {
    let mut entries = Vec::new();
    let mut it = map.iter();
    while let Some((range, value)) = it.next() {
        entries.push(Entry { range, value: *value });
    }
    InversionMap::from_entries(entries).is_some()
}

fn held(list: &InversionList<u8>) -> Vec<bool> {
    (0..POINTS as u8).map(|p| list.contains(p)).collect()
}

fn random_set(steps: &mut Steps) -> InversionList<u8> {
    let mut list = InversionList::new();
    for _ in 0..steps.next(6) {
        let range = steps.range();
        if steps.next(2) == 0 {
            list.insert_range(range);
        } else {
            list.add_range(range);
        }
    }
    list
}

#[test]
fn map_agrees_with_a_table_of_points() {
    let mut steps = Steps(7);
    for _ in 0..200 {
        let mut map: InversionMap<u8, u32> = InversionMap::new();
        let mut table: Vec<Option<u32>> = vec![None; POINTS];
        for stamp in 1..40u32 {
            let range = steps.range();
            let inside = |p: usize| range.start as usize <= p && p < range.end as usize;
            match steps.next(5) {
                0 => {
                    map.insert_range(range.clone(), stamp);
                    for p in 0..POINTS {
                        if inside(p) {
                            table[p] = Some(stamp);
                        }
                    }
                }
                1 => {
                    let before = map.clone();
                    map.add_range(range.clone(), stamp);
                    if range.start < range.end {
                        for p in 0..POINTS {
                            let merged = match before.lookup(p as u8) {
                                Some((entry, _)) => entry.start < range.end && range.start < entry.end,
                                None => false,
                            };
                            if inside(p) || merged {
                                table[p] = Some(stamp);
                            }
                        }
                    }
                }
                2 => {
                    let before = map.clone();
                    map.remove_range(range.clone(), |_, _| stamp, |_, _| stamp + 1000);
                    if range.start < range.end {
                        for p in 0..POINTS {
                            if inside(p) {
                                table[p] = None;
                            } else if let Some((entry, _)) = before.lookup(p as u8) {
                                if entry.start < range.start && range.start < entry.end && p < range.start as usize {
                                    table[p] = Some(stamp);
                                }
                                if entry.start < range.end && range.end < entry.end && p >= range.end as usize {
                                    table[p] = Some(stamp + 1000);
                                }
                            }
                        }
                    }
                }
                3 => {
                    let at = range.start.min(POINTS as u8 - 1);
                    let parted = map.split(at);
                    assert_eq!(parted.is_some(), table[at as usize].is_some());
                    if let Some((left, right)) = parted {
                        assert!(right == left || right == left + 1);
                        assert_eq!(map.lookup(at).map(|(found, _)| found.start), Some(at));
                    }
                }
                _ => {
                    let at = range.start.min(POINTS as u8 - 1);
                    let covered = table[at as usize].is_some();
                    let added = map.add_unit(at, stamp);
                    assert_eq!(added, !covered);
                    if covered {
                        let entry = map.lookup(at).expect("the point is held").0;
                        for p in entry.start..entry.end {
                            table[p as usize] = Some(stamp);
                        }
                    } else {
                        table[at as usize] = Some(stamp);
                    }
                }
            }
            assert!(sorted_and_disjoint(&map));
            assert_eq!(points_of(&map), table);
        }
    }
}

#[test]
fn sets_agree_with_tables_of_points() {
    let mut steps = Steps(11);
    for _ in 0..300 {
        let a = random_set(&mut steps);
        let b = random_set(&mut steps);
        let in_a = held(&a);
        let in_b = held(&b);

        let union = a.bitor(&b);
        let both = a.bitand(&b);
        let inverse = a.not();
        for p in 0..POINTS {
            assert_eq!(union.contains(p as u8), in_a[p] || in_b[p]);
            assert_eq!(both.contains(p as u8), in_a[p] && in_b[p]);
            assert_eq!(inverse.contains(p as u8), !in_a[p]);
        }
        assert!(a.is_subset(&union));
        assert!(b.is_subset(&union));
        assert!(both.is_subset(&a));
        assert!(both.is_subset(&b));
        assert!(inverse.is_disjoint(&a));
        assert_eq!(a.is_subset(&b), (0..POINTS).all(|p| !in_a[p] || in_b[p]));
        assert_eq!(a.is_superset(&b), (0..POINTS).all(|p| !in_b[p] || in_a[p]));
        assert_eq!(a.is_disjoint(&b), (0..POINTS).all(|p| !(in_a[p] && in_b[p])));

        let mut collapsed = a.clone();
        collapsed.collapse();
        assert_eq!(held(&collapsed), in_a);
        let mut again = collapsed.clone();
        again.collapse();
        assert_eq!(again, collapsed);
        assert_eq!(inverse.not(), collapsed);
        assert_eq!(union, {
            let mut other_way = b.bitor(&a);
            other_way.collapse();
            other_way
        });

        let range = steps.range();
        let all = range.start < range.end && (range.start..range.end).all(|p| in_a[p as usize]);
        let any = (range.start..range.end).any(|p| in_a[p as usize]);
        assert_eq!(a.contains_range(range.clone()), all);
        assert_eq!(a.intersects(range.clone()), any);
        assert_eq!(a.lookup_range(range).is_some(), any);
    }
}
