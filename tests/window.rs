use tcx::{aggregate, GroupBy, Grouping, Qdh, Tag, TcxError, Trackpoint, Values, Window};

const S: i64 = 1_000_000;

fn pt(second: i64, distance: i64, altitude: i64) -> Trackpoint {
    Trackpoint {
        time: 1_672_488_000 * S + second * S,
        distance: Some(distance),
        altitude: Some(altitude),
        ..Default::default()
    }
}

fn five() -> Vec<Trackpoint> {
    (0..5).map(|k| pt(k, k * 3_600_000, 0)).collect()
}

fn distances(ws: &[Window]) -> Vec<u128> {
    ws.iter().map(|w| w.values.distance).collect()
}

#[test]
fn two_second_windows() {
    let ws = aggregate(&five(), Grouping::Length(GroupBy::Duration, 2_000_000), 50_000_000).unwrap();
    assert_eq!(distances(&ws), vec![7_200_000, 7_200_000]);
    assert_eq!(ws[0].values.duration, 2_000_000);
    assert_eq!(ws[1].values.duration, 2_000_000);
}

#[test]
fn three_second_windows_keep_final_partial() {
    let ws = aggregate(&five(), Grouping::Length(GroupBy::Duration, 3_000_000), 50_000_000).unwrap();
    assert_eq!(distances(&ws), vec![10_800_000, 3_600_000]);
    assert_eq!(ws[1].values.duration, 1_000_000);
    assert_eq!(ws[1].values.group_len, 1_000_000);
}

#[test]
fn boundary_splits_increment_fractionally() {
    // 2.5 s windows: the third step is split half and half
    let ws = aggregate(&five(), Grouping::Length(GroupBy::Duration, 2_500_000), 50_000_000).unwrap();
    assert_eq!(distances(&ws), vec![9_000_000, 5_400_000]);
    let total: u128 = ws.iter().map(|w| w.values.duration).sum();
    assert_eq!(total, 4_000_000);
}

#[test]
fn distance_windows() {
    let ws = aggregate(&five(), Grouping::Length(GroupBy::Distance, 5_000_000), 50_000_000).unwrap();
    assert_eq!(distances(&ws), vec![5_000_000, 5_000_000, 4_400_000]);
    let total: u128 = distances(&ws).iter().sum();
    assert_eq!(total, 14_400_000);
}

#[test]
fn gap_larger_than_a_window_closes_several() {
    let points = vec![pt(0, 0, 0), pt(10, 100_000_000, 0)];
    let ws = aggregate(&points, Grouping::Length(GroupBy::Duration, 4_000_000), 50_000_000).unwrap();
    assert_eq!(distances(&ws), vec![40_000_000, 40_000_000, 20_000_000]);
}

#[test]
fn count_sizing_two_windows() {
    let points: Vec<Trackpoint> = (0..=10).map(|k| pt(k * 10, k * 30_000_000, 0)).collect();
    let ws = aggregate(&points, Grouping::Count(GroupBy::Duration, 2), 50_000_000).unwrap();
    assert_eq!(ws.len(), 2);
    assert_eq!(ws[0].values.duration, 50_000_000);
    assert_eq!(ws[1].values.duration, 50_000_000);
    assert_eq!(ws[0].values.distance + ws[1].values.distance, 300_000_000);
}

#[test]
fn count_sizing_uneven_samples() {
    let points = vec![pt(0, 0, 0), pt(30, 1, 0), pt(70, 2, 0), pt(100, 3, 0)];
    let ws = aggregate(&points, Grouping::Count(GroupBy::Duration, 2), 50_000_000).unwrap();
    assert_eq!(ws.len(), 2);
    assert_eq!(ws[0].values.duration + ws[1].values.duration, 100_000_000);
}

#[test]
fn elevation_counts_only_climbs_and_power_is_trapezoidal() {
    let mut a = pt(0, 0, 100_000_000);
    let mut b = pt(10, 50_000_000, 80_000_000);
    let mut c = pt(20, 100_000_000, 130_000_000);
    a.power = Some(100_000_000);
    b.power = Some(200_000_000);
    c.power = None;
    a.heartrate = Some(120_000_000);
    let ws = aggregate(&vec![a, b, c], Grouping::Length(GroupBy::Duration, 600_000_000), 50_000_000).unwrap();
    assert_eq!(ws.len(), 1);
    let v: Values = ws[0].values;
    assert_eq!(v.elevation, 50_000_000);
    // (100 + 200) / 2 W over 10 s, then (200 + 0) / 2 W over 10 s
    assert_eq!(v.power, 150_000_000 * 10_000_000 + 100_000_000 * 10_000_000);
    assert_eq!(v.heartrate, 60_000_000 * 10_000_000);
    assert_eq!(v.duration, 20_000_000);
}

#[test]
fn trailing_crumb_is_discarded() {
    // window of 1 000 000 µm; the last step leaves 1 µm, a millionth of it
    let points = vec![pt(0, 0, 0), pt(1, 1_000_001, 0)];
    let ws = aggregate(&points, Grouping::Length(GroupBy::Distance, 1_000_000), 50_000_000).unwrap();
    assert_eq!(distances(&ws), vec![1_000_000]);
}

#[test]
fn window_qdh_score() {
    // 100 m of climbing over 40 m, then 20 m flat: one 50 m bucket closes
    let points = vec![pt(0, 0, 0), pt(10, 40_000_000, 100_000_000), pt(20, 60_000_000, 100_000_000)];
    let ws = aggregate(&points, Grouping::Length(GroupBy::Duration, 600_000_000), 50_000_000).unwrap();
    assert_eq!(ws.len(), 1);
    // 100² / 50 × 10 = 2000, then the 10 m flat remainder adds nothing
    assert_eq!(ws[0].qdh, 2_000_000_000);
}

#[test]
fn errors() {
    assert_eq!(
        aggregate(&five(), Grouping::Length(GroupBy::Duration, 0), 50_000_000),
        Err(TcxError::InvalidConfiguration)
    );
    assert_eq!(
        aggregate(&five(), Grouping::Count(GroupBy::Duration, 0), 50_000_000),
        Err(TcxError::InvalidConfiguration)
    );
    assert_eq!(
        aggregate(&vec![pt(0, 0, 0)], Grouping::Count(GroupBy::Duration, 2), 50_000_000),
        Err(TcxError::InvalidConfiguration)
    );
    assert_eq!(
        aggregate(&vec![], Grouping::Length(GroupBy::Duration, 1), 50_000_000),
        Err(TcxError::EmptyInput)
    );
    let mut points = five();
    points[2].altitude = None;
    assert_eq!(
        aggregate(&points, Grouping::Length(GroupBy::Duration, 1), 50_000_000),
        Err(TcxError::MissingRequiredField {
            sample: 2,
            tag: Tag::AltitudeMeters
        })
    );
    points[1].distance = None;
    assert_eq!(
        aggregate(&points, Grouping::Length(GroupBy::Duration, 1), 50_000_000),
        Err(TcxError::MissingRequiredField {
            sample: 1,
            tag: Tag::DistanceMeters
        })
    );
    let backwards = vec![pt(5, 0, 0), pt(4, 1, 0)];
    assert_eq!(
        aggregate(&backwards, Grouping::Length(GroupBy::Duration, 1), 50_000_000),
        Err(TcxError::OutOfRange)
    );
}

#[test]
fn single_sample_gives_no_window() {
    let ws = aggregate(&vec![pt(0, 0, 0)], Grouping::Length(GroupBy::Duration, 1), 50_000_000).unwrap();
    assert!(ws.is_empty());
}

#[test]
fn group_by_get() {
    let a = pt(0, 1_000_000, 0);
    let b = pt(3, 4_500_000, 0);
    assert_eq!(GroupBy::Distance.get(&a, &b), Some(3_500_000));
    assert_eq!(GroupBy::Duration.get(&a, &b), Some(3_000_000));
    let mut c = b;
    c.distance = None;
    assert_eq!(GroupBy::Distance.get(&a, &c), None);
    assert_eq!(GroupBy::Duration.get(&a, &c), Some(3_000_000));
    let mut d = a;
    d.distance = None;
    assert_eq!(GroupBy::Distance.get(&d, &b), None);
}

#[test]
fn qdh_bucket_closes_past_threshold() {
    let mut q = Qdh::zero();
    q.update(40_000_000, 100_000_000, 50_000_000, false);
    assert_eq!((q.qdh, q.distance, q.elevation), (0, 40_000_000, 100_000_000));
    q.update(20_000_000, 10_000_000, 50_000_000, false);
    // the split point takes half of the second increment's gain
    assert_eq!(q.qdh, 105_000_000u128 * 105_000_000 * 10 / 50_000_000);
    assert_eq!((q.distance, q.elevation), (10_000_000, 5_000_000));
}

#[test]
fn qdh_split_increment_matches_whole() {
    let mut whole = Qdh::zero();
    whole.update(90_000_000, 30_000_000, 50_000_000, false);
    let mut split = Qdh::zero();
    split.update(30_000_000, 10_000_000, 50_000_000, false);
    split.update(60_000_000, 20_000_000, 50_000_000, false);
    assert_eq!(whole, split);
    assert!(whole.qdh > 0);
}

#[test]
fn qdh_many_buckets_in_one_increment() {
    let mut q = Qdh::zero();
    q.update(100, 100, 10, true);
    // ten buckets of 10 µm with 10 µm gain each: 10 × (100 × 10 / 10)
    assert_eq!(q.qdh, 1000);
    assert_eq!((q.distance, q.elevation), (0, 0));
}

#[test]
fn qdh_zero_length_flushes_each_increment() {
    let mut q = Qdh::zero();
    q.update(10, 10, 0, false);
    assert_eq!((q.qdh, q.distance, q.elevation), (100, 0, 0));
    q.update(0, 5, 0, false);
    assert_eq!(q.qdh, 100);
}

#[test]
fn qdh_flush_empty_bucket_adds_nothing() {
    let mut q = Qdh::zero();
    q.flush();
    assert_eq!(q, Qdh::zero());
    q.increment(0, 7);
    q.flush();
    assert_eq!(q.qdh, 0);
}
