use rosella::partition::{Extent, Partition, TransitionAction, TransitionFunction};
use rosella::region::Region;

fn e2(s: [i64; 2], e: [i64; 2]) -> Extent {
    Extent { start: s.to_vec(), end: e.to_vec() }
}

struct Inserter {
    expected: Extent,
    value: i32,
    calls: usize,
}

impl TransitionFunction<i32> for Inserter {
    fn apply(&mut self, extent: &Region, current: Option<&i32>) -> TransitionAction<i32> {
        assert_eq!(&self.expected, extent);
        assert!(current.is_none());
        self.calls += 1;
        TransitionAction::Update(self.value)
    }
}

struct AlwaysClear;

impl TransitionFunction<i32> for AlwaysClear {
    fn apply(&mut self, _extent: &Region, _current: Option<&i32>) -> TransitionAction<i32> {
        TransitionAction::Clear
    }
}

struct AlwaysUpdate(i32);

impl TransitionFunction<i32> for AlwaysUpdate {
    fn apply(&mut self, _extent: &Region, _current: Option<&i32>) -> TransitionAction<i32> {
        TransitionAction::Update(self.0)
    }
}

#[test]
fn test_extent_eq() {
    let a = Extent { start: vec![0, 1], end: vec![1, 3] };
    let a2 = Extent { start: vec![0, 1], end: vec![1, 3] };
    let b = Extent { start: vec![3, 1], end: vec![5, 2] };
    let b2 = Extent { start: vec![3, 1], end: vec![5, 2] };

    assert_eq!(a, a2);
    assert_eq!(b, b2);
    assert_ne!(a, b);
}

#[test]
fn test_extent_overlap() {
    let vals = [
        (
            e2([0, 0], [2, 2]),
            e2([1, 1], [4, 4]),
            Some(e2([1, 1], [2, 2])),
        ),
        (e2([0, 0], [1, 1]), e2([5, 5], [6, 9]), None),
        (e2([0, 0], [2, 2]), e2([0, 2], [4, 4]), None),
        (e2([0, 0], [2, 2]), e2([2, 0], [4, 4]), None),
        (e2([0, 0], [2, 2]), e2([0, 3], [4, 4]), None),
        (e2([0, 0], [2, 2]), e2([3, 0], [4, 4]), None),
        (
            e2([0, 0], [2, 2]),
            e2([0, 0], [2, 2]),
            Some(e2([0, 0], [2, 2])),
        ),
        (
            e2([0, 0], [2, 2]),
            e2([-4, -4], [436, 32673]),
            Some(e2([0, 0], [2, 2])),
        ),
    ];

    for (a, b, res) in vals {
        assert_eq!(a.get_overlap(&b), res);
        assert_eq!(b.get_overlap(&a), res);
    }
}

#[test]
fn test_empty() {
    let mut part: Partition<i32> = Partition::new(2);
    assert!(part.is_empty());
    part.transition(&e2([0, 0], [1, 1]), &mut AlwaysUpdate(0));
    assert!(!part.is_empty());
}

#[test]
fn test_disjoint() {
    let entries = vec![
        e2([0, 0], [2, 2]),
        e2([0, 2], [2, 6]),
        e2([2, 0], [6, 2]),
        e2([2, 4], [6, 6]),
        e2([4, 2], [6, 4]),
        e2([2, 2], [4, 4]),
        e2([-22, -41], [-13, 604]),
        e2([1232, 3215], [3145, 4633]),
    ];
    let mut part: Partition<i32> = Partition::new(2);
    for (i, entry) in entries.iter().enumerate() {
        let mut f = Inserter { expected: entry.clone(), value: i as i32, calls: 0 };
        part.transition(entry, &mut f);
        assert_eq!(f.calls, 1);
    }

    assert!(!part.is_empty());
    let mut it = part.iter();
    let mut seen = 0;
    while let Some((ext, val)) = it.next() {
        assert_eq!(entries.get(val as usize), Some(&ext));
        seen += 1;
    }
    assert_eq!(seen, entries.len());

    part.transition(&e2([-10000, -10000], [10000, 10000]), &mut AlwaysClear);

    assert!(part.is_empty());
}

#[test]
fn two_disjoint_writes_both_recorded() {
    let mut part: Partition<i32> = Partition::new(2);
    part.transition(&e2([0, 0], [2, 2]), &mut AlwaysUpdate(7));
    part.transition(&e2([0, 2], [2, 6]), &mut AlwaysUpdate(8));
    assert!(!part.is_empty());

    let mut it = part.iter();
    let mut found = Vec::new();
    while let Some((ext, val)) = it.next() {
        found.push((ext, val));
    }
    assert_eq!(found.len(), 2);
    assert!(found.contains(&(e2([0, 0], [2, 2]), 7)));
    assert!(found.contains(&(e2([0, 2], [2, 6]), 8)));
}

#[test]
fn clear_of_fully_covered_partition_empties_it() {
    let mut part: Partition<i32> = Partition::new(2);
    part.transition(&e2([0, 0], [4, 4]), &mut AlwaysUpdate(1));
    part.transition(&e2([4, 0], [8, 4]), &mut AlwaysUpdate(2));
    assert!(!part.is_empty());
    part.transition(&e2([0, 0], [8, 4]), &mut AlwaysClear);
    assert!(part.is_empty());
}

#[test]
fn overlapping_update_repartitions() {
    let mut part: Partition<i32> = Partition::new(1);
    part.transition(&Extent { start: vec![0], end: vec![10] }, &mut AlwaysUpdate(1));
    part.transition(&Extent { start: vec![4], end: vec![6] }, &mut AlwaysUpdate(2));

    let mut it = part.iter();
    let mut total_len: i64 = 0;
    let mut middle_value = None;
    while let Some((ext, val)) = it.next() {
        total_len += ext.end[0] - ext.start[0];
        if ext.start[0] <= 4 && 6 <= ext.end[0] {
            middle_value = Some(val);
        }
    }
    assert_eq!(total_len, 10);
    assert_eq!(middle_value, Some(2));
}

#[test]
fn iterator_is_exhausted_after_the_last_entry() {
    let mut part: Partition<i32> = Partition::new(1);
    part.transition(&Extent { start: vec![0], end: vec![3] }, &mut AlwaysUpdate(5));
    let mut it = part.iter();
    assert!(it.next().is_some());
    assert!(it.next().is_none());
    assert!(it.next().is_none());
}
