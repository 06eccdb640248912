use pedigree_paths::flux::average_by_pair;
use pedigree_paths::flux::FluxEntry;

fn fe(source_id: i64, target_id: i64, step: i64, rate: i64) -> FluxEntry {
    FluxEntry { source_id, target_id, time_index: Some(step), rate }
}

#[test]
fn average_of_three_steps() {
    // rates 2.0, 4.0, 6.0 in milli-units over three time steps: mean 4.0
    let entries = vec![fe(1, 2, 0, 2000), fe(1, 2, 1, 4000), fe(1, 2, 2, 6000)];
    let r = average_by_pair(&entries);
    assert_eq!(r.len(), 1);
    assert_eq!(r[0].source_id, 1);
    assert_eq!(r[0].target_id, 2);
    assert_eq!(r[0].rate_sum, 12000);
    assert_eq!(r[0].count, 3);
    let mean = r[0].rate_sum as f64 / r[0].count as f64 / 1000.0;
    assert_eq!(mean, 4.0);
}

#[test]
fn zero_and_negative_averages_excluded() {
    let entries = vec![fe(1, 2, 0, 0), fe(1, 2, 1, 0), fe(3, 4, 0, -5), fe(5, 6, 0, 7)];
    let r = average_by_pair(&entries);
    assert_eq!(r.len(), 1);
    assert_eq!(r[0].source_id, 5);
    assert_eq!(r[0].target_id, 6);
    assert_eq!(r[0].rate_sum, 7);
    assert_eq!(r[0].count, 1);
}

#[test]
fn averages_ordered_by_pair() {
    let entries = vec![fe(9, 1, 0, 4), fe(2, 8, 0, 3), fe(2, 5, 0, 2), fe(9, 1, 1, 6)];
    let r = average_by_pair(&entries);
    let keys: Vec<(i64, i64)> = r.iter().map(|a| (a.source_id, a.target_id)).collect();
    assert_eq!(keys, vec![(2, 5), (2, 8), (9, 1)]);
    assert_eq!(r[2].rate_sum, 10);
    assert_eq!(r[2].count, 2);
}

#[test]
fn average_bucket_rows_ignored() {
    // a row without a time index is a precomputed average, not a sample
    let bucket = FluxEntry { source_id: 1, target_id: 2, time_index: None, rate: 999 };
    let entries = vec![bucket, fe(1, 2, 0, 5)];
    let r = average_by_pair(&entries);
    assert_eq!(r.len(), 1);
    assert_eq!(r[0].rate_sum, 5);
    assert_eq!(r[0].count, 1);
}

#[test]
fn pair_missing_from_some_steps_still_averaged() {
    // the pair need not appear in every time step
    let entries = vec![fe(1, 2, 0, 10), fe(3, 4, 0, 1), fe(3, 4, 1, 1), fe(1, 2, 5, 20)];
    let r = average_by_pair(&entries);
    assert_eq!(r.len(), 2);
    assert_eq!(r[0].rate_sum, 30);
    assert_eq!(r[0].count, 2);
}

#[test]
fn empty_series_empty_result() {
    assert!(average_by_pair(&vec![]).is_empty());
}
