use rosella::region::Region;
use rosella::resource_state::{HistoryTracker, TransitionSystem};

fn r2(s: [i64; 2], e: [i64; 2]) -> Region {
    Region { start: s.to_vec(), end: e.to_vec() }
}

/// Records every callback so a test can check what a pass reported.
struct Recorder {
    next_value: i32,
    created: Vec<(Region, i32)>,
    updated: Vec<(Vec<Region>, i32)>,
    overridden: Vec<(Vec<Region>, i32)>,
}

impl Recorder {
    fn new(first_value: i32) -> Self {
        Recorder { next_value: first_value, created: Vec::new(), updated: Vec::new(), overridden: Vec::new() }
    }
}

impl TransitionSystem<i32> for Recorder {
    fn on_update(&mut self, affected_regions: &Vec<Region>, value: &mut i32, _value_region: &Region) {
        self.updated.push((affected_regions.clone(), *value));
    }

    fn on_override(&mut self, affected_regions: &Vec<Region>, value: &mut i32, _value_region: &Region) {
        self.overridden.push((affected_regions.clone(), *value));
    }

    fn on_clear(&mut self, affected_regions: &Vec<Region>, value: &mut i32, _value_region: &Region) {
        let _ = (affected_regions, value);
    }

    fn on_create(&mut self, value_region: &Region) -> i32 {
        let v = self.next_value;
        self.next_value += 1;
        self.created.push((value_region.clone(), v));
        v
    }
}

#[test]
fn update_on_an_empty_tracker_performs_no_callbacks() {
    let mut tracker: HistoryTracker<i32> = HistoryTracker::new(2);
    assert!(tracker.is_empty());
    let mut ts = Recorder::new(0);
    let mut regions = vec![r2([0, 0], [4, 4])];
    let mut tmp = Vec::new();
    tracker.update_regions_vec(&mut ts, &mut regions, &mut tmp);
    assert!(ts.created.is_empty());
    assert!(ts.updated.is_empty());
    assert!(ts.overridden.is_empty());
    assert!(tracker.is_empty());
    assert_eq!(regions, vec![r2([0, 0], [4, 4])]);
}

#[test]
fn override_creates_one_record_per_region() {
    let mut tracker: HistoryTracker<i32> = HistoryTracker::new(2);
    let mut ts = Recorder::new(10);
    let mut regions = vec![r2([0, 0], [2, 2]), r2([0, 2], [2, 6])];
    let mut tmp = Vec::new();
    tracker.override_regions_vec(&mut ts, &mut regions, &mut tmp);
    assert!(!tracker.is_empty());
    assert_eq!(ts.created.len(), 2);
    assert_eq!(ts.created[0], (r2([0, 0], [2, 2]), 10));
    assert_eq!(ts.created[1], (r2([0, 2], [2, 6]), 11));
    assert!(ts.overridden.is_empty());
}

#[test]
fn update_of_covered_region_reports_exactly_one_record() {
    let mut tracker: HistoryTracker<i32> = HistoryTracker::new(2);
    let mut ts = Recorder::new(0);
    let mut tmp = Vec::new();

    let mut first = vec![r2([0, 0], [8, 8])];
    tracker.override_regions_vec(&mut ts, &mut first, &mut tmp);
    let mut second = vec![r2([20, 20], [30, 30])];
    tracker.override_regions_vec(&mut ts, &mut second, &mut tmp);

    let query = r2([2, 2], [5, 5]);
    let mut regions = vec![query.clone()];
    tracker.update_regions_vec(&mut ts, &mut regions, &mut tmp);

    assert_eq!(ts.updated.len(), 1);
    assert_eq!(ts.updated[0], (vec![query], 0));
    assert!(regions.is_empty());
}

#[test]
fn repeated_queries_report_the_same_single_record() {
    let mut tracker: HistoryTracker<i32> = HistoryTracker::new(2);
    let mut ts = Recorder::new(0);
    let mut tmp = Vec::new();

    let mut footprint = vec![r2([0, 0], [8, 8])];
    tracker.override_regions_vec(&mut ts, &mut footprint, &mut tmp);

    let query = r2([1, 1], [7, 7]);
    for _ in 0..3 {
        let mut regions = vec![query.clone()];
        tracker.update_regions_vec(&mut ts, &mut regions, &mut tmp);
        assert!(regions.is_empty());
    }
    assert_eq!(ts.updated.len(), 3);
    for call in &ts.updated {
        assert_eq!(call, &(vec![query.clone()], 0));
    }
}

#[test]
fn override_splits_older_records_and_removes_superseded_ones() {
    let mut tracker: HistoryTracker<i32> = HistoryTracker::new(1);
    let mut ts = Recorder::new(0);
    let mut tmp = Vec::new();

    let mut base = vec![Region { start: vec![0], end: vec![10] }];
    tracker.override_regions_vec(&mut ts, &mut base, &mut tmp);

    // Overwrite the middle: the old record survives with its edges.
    let mut middle = vec![Region { start: vec![3], end: vec![7] }];
    tracker.override_regions_vec(&mut ts, &mut middle, &mut tmp);
    assert_eq!(ts.overridden.len(), 1);
    assert_eq!(ts.overridden[0].0, vec![Region { start: vec![3], end: vec![7] }]);

    // Overwrite everything: the old records are fully superseded.
    let mut all = vec![Region { start: vec![0], end: vec![10] }];
    tracker.override_regions_vec(&mut ts, &mut all, &mut tmp);

    // A further query is answered entirely by the newest record.
    let mut query = vec![Region { start: vec![0], end: vec![10] }];
    tracker.update_regions_vec(&mut ts, &mut query, &mut tmp);
    assert_eq!(ts.updated.len(), 1);
    assert_eq!(ts.updated[0].0, vec![Region { start: vec![0], end: vec![10] }]);
    assert_eq!(ts.updated[0].1, 2);
}

#[test]
fn update_consumes_only_the_covered_part() {
    let mut tracker: HistoryTracker<i32> = HistoryTracker::new(1);
    let mut ts = Recorder::new(0);
    let mut tmp = Vec::new();

    let mut base = vec![Region { start: vec![0], end: vec![10] }];
    tracker.override_regions_vec(&mut ts, &mut base, &mut tmp);

    let mut regions = vec![Region { start: vec![5], end: vec![20] }];
    tracker.update_regions_vec(&mut ts, &mut regions, &mut tmp);
    assert_eq!(ts.updated.len(), 1);
    assert_eq!(ts.updated[0].0, vec![Region { start: vec![5], end: vec![10] }]);
    assert_eq!(regions, vec![Region { start: vec![10], end: vec![20] }]);
}
