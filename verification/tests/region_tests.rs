use rosella::region::Region;

fn r1(s: i64, e: i64) -> Region {
    Region { start: vec![s], end: vec![e] }
}

fn r3(s: [i64; 3], e: [i64; 3]) -> Region {
    Region { start: s.to_vec(), end: e.to_vec() }
}

#[test]
fn test_region_volume() {
    let region = Region { start: vec![0], end: vec![12] };
    assert_eq!(region.volume(), 12);

    let region = Region { start: vec![-12], end: vec![5] };
    assert_eq!(region.volume(), 17);

    let region = Region { start: vec![3], end: vec![3] };
    assert_eq!(region.volume(), 0);

    let region = Region { start: vec![0], end: vec![5] };
    assert_eq!(region.volume(), 5);

    let region = Region { start: vec![8], end: vec![8] };
    assert_eq!(region.volume(), 0);

    let region = Region { start: vec![0, 0], end: vec![12, 12] };
    assert_eq!(region.volume(), 144);

    let region = Region { start: vec![-12, 8], end: vec![5, 10] };
    assert_eq!(region.volume(), 34);

    let region = Region { start: vec![3, 7], end: vec![3, 19] };
    assert_eq!(region.volume(), 0);

    let region = Region { start: vec![7, 3], end: vec![19, 3] };
    assert_eq!(region.volume(), 0);

    let region = Region { start: vec![0, 0], end: vec![5, 5] };
    assert_eq!(region.volume(), 25);

    let region = Region { start: vec![8, 0], end: vec![8, 2] };
    assert_eq!(region.volume(), 0);

    let region = Region { start: vec![0, 8], end: vec![2, 8] };
    assert_eq!(region.volume(), 0);
}

#[test]
fn test_region_cut1d() {
    let mut vec = Vec::<Region>::new();

    let mut intersection = r1(0, 2);
    let count = intersection.cut(&r1(1, 3), &mut vec);

    assert_eq!(intersection, r1(1, 2));
    assert_eq!(count, Some(1));
    assert_eq!(vec.len(), 1);
    assert_eq!(vec[0], r1(0, 1));

    let mut vec = Vec::<Region>::new();

    let mut intersection = r1(0, 2);
    let count = intersection.cut(&r1(-2, 5), &mut vec);

    assert_eq!(intersection, r1(0, 2));
    assert_eq!(count, Some(0));
    assert_eq!(vec.len(), 0);

    let mut vec = Vec::<Region>::new();

    let mut intersection = r1(12, 37);
    let count = intersection.cut(&r1(7, 20), &mut vec);

    assert_eq!(intersection, r1(12, 20));
    assert_eq!(count, Some(1));
    assert_eq!(vec.len(), 1);
    assert_eq!(vec[0], r1(20, 37));

    let mut vec = Vec::<Region>::new();

    let mut intersection = r1(-23, 38);
    let count = intersection.cut(&r1(5, 10), &mut vec);

    assert_eq!(intersection, r1(5, 10));
    assert_eq!(count, Some(2));
    assert_eq!(vec.len(), 2);
    assert_eq!(vec[0], r1(-23, 5));
    assert_eq!(vec[1], r1(10, 38));

    let mut vec = Vec::<Region>::new();

    let mut intersection = r1(-11, -1);
    let count = intersection.cut(&r1(-134, -22), &mut vec);

    assert_eq!(count, None);
    assert_eq!(vec.len(), 0);
}

#[test]
fn test_region_cut3d() {
    let mut vec = Vec::<Region>::new();

    let mut intersection = r3([0, 0, 0], [2, 2, 2]);
    let count = intersection.cut(&r3([1, 1, 1], [3, 3, 3]), &mut vec);

    assert_eq!(intersection, r3([1, 1, 1], [2, 2, 2]));
    assert_eq!(count, Some(3));
    assert_eq!(vec.len(), 3);
    assert_eq!(vec[0], r3([0, 0, 0], [1, 2, 2]));
    assert_eq!(vec[1], r3([1, 0, 0], [2, 1, 2]));
    assert_eq!(vec[2], r3([1, 1, 0], [2, 2, 1]));
}

#[test]
fn test_region_cut_regions1d() {
    let mut cuts = vec![r1(0, 10)];
    let mut intersections = Vec::new();

    let volume = r1(5, 20).cut_regions(&mut cuts, &mut intersections);

    assert_eq!(volume, 5);
    assert_eq!(cuts.len(), 1);
    assert_eq!(cuts[0], r1(0, 5));
    assert_eq!(intersections.len(), 1);
    assert_eq!(intersections[0], r1(5, 10));

    let mut cuts = vec![r1(0, 10)];
    let mut intersections = Vec::new();

    let volume = r1(-10, -5).cut_regions(&mut cuts, &mut intersections);

    assert_eq!(volume, 0);
    assert_eq!(cuts.len(), 1);
    assert_eq!(cuts[0], r1(0, 10));
    assert_eq!(intersections.len(), 0);

    let mut cuts = vec![r1(0, 10)];
    let mut intersections = Vec::new();

    let volume = r1(-5, 20).cut_regions(&mut cuts, &mut intersections);

    assert_eq!(volume, 10);
    assert_eq!(cuts.len(), 0);
    assert_eq!(intersections.len(), 1);
    assert_eq!(intersections[0], r1(0, 10));

    let mut cuts = vec![r1(5, 10), r1(-10, 3)];
    let mut intersections = Vec::new();
    let volume = r1(0, 8).cut_regions(&mut cuts, &mut intersections);

    assert_eq!(volume, 6);
    assert_eq!(cuts.len(), 2);
    assert_eq!(cuts[0], r1(8, 10));
    assert_eq!(cuts[1], r1(-10, 0));
    assert_eq!(intersections.len(), 2);
    assert_eq!(intersections[0], r1(5, 8));
    assert_eq!(intersections[1], r1(0, 3));
}

#[test]
fn volume_is_conserved_by_cut() {
    let mut region = Region { start: vec![-3, 2], end: vec![9, 14] };
    let before = region.volume();
    let mut splits = Vec::new();
    let count = region.cut(&Region { start: vec![0, 0], end: vec![5, 20] }, &mut splits);
    assert_eq!(count, Some(2));
    let mut total = region.volume();
    for s in &splits {
        total += s.volume();
    }
    assert_eq!(before, total);
}

#[test]
fn intersection_matches_both_argument_orders() {
    let a = Region { start: vec![0, 0], end: vec![2, 2] };
    let b = Region { start: vec![1, 1], end: vec![4, 4] };
    let expected = Region { start: vec![1, 1], end: vec![2, 2] };
    assert_eq!(a.intersection(&b), Some(expected.clone()));
    assert_eq!(b.intersection(&a), Some(expected));
}

#[test]
fn intersection_absent_without_overlap_in_one_dimension() {
    let a = Region { start: vec![0, 0], end: vec![2, 2] };
    let b = Region { start: vec![1, 2], end: vec![4, 4] };
    assert!(!a.intersects(&b));
    assert_eq!(a.intersection(&b), None);
    assert_eq!(b.intersection(&a), None);
}

#[test]
fn cut_fully_contained_yields_zero_splits() {
    let mut region = Region { start: vec![2, 2], end: vec![4, 4] };
    let mut splits = Vec::new();
    let count = region.cut(&Region { start: vec![0, 0], end: vec![10, 10] }, &mut splits);
    assert_eq!(count, Some(0));
    assert_eq!(splits.len(), 0);
    assert_eq!(region, Region { start: vec![2, 2], end: vec![4, 4] });
}

#[test]
fn one_dimensional_ranges_span_wide_offsets() {
    let region = Region { start: vec![0], end: vec![1 << 40] };
    assert_eq!(region.volume(), 1i128 << 40);

    let mut r = Region { start: vec![-(1 << 50)], end: vec![1 << 50] };
    let mut splits = Vec::new();
    let count = r.cut(&Region { start: vec![1 << 20], end: vec![1 << 49] }, &mut splits);
    assert_eq!(count, Some(2));
    assert_eq!(r, Region { start: vec![1 << 20], end: vec![1 << 49] });
    assert_eq!(splits[0], Region { start: vec![-(1 << 50)], end: vec![1 << 20] });
    assert_eq!(splits[1], Region { start: vec![1 << 49], end: vec![1 << 50] });
}
