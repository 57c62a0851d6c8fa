use atlas4d::compact::{compact, deduplicate};
use atlas4d::model::{Observation, Position, Timestamp};

fn record(id: u64, secs: i64, quality: u32) -> Observation {
    Observation {
        obs_id: id,
        entity_id: 1,
        t: Timestamp::new(secs, 0).unwrap(),
        pos: Position { lat_bits: 0, lon_bits: 0, alt_m_bits: 0 },
        quality_bits: quality,
        sigma_m_bits: None,
        source: None,
    }
}

#[test]
fn compaction_keeps_first_slot_and_last_value() {
    let a1 = record(1, 100, 1);
    let b = record(2, 100, 7);
    let a2 = record(1, 100, 2);
    let out = compact(vec![a1, b.clone(), a2.clone()]);
    assert_eq!(out, vec![a2, b]);
}

#[test]
fn deduplication_leaves_order_of_first_appearance() {
    let input = vec![record(3, 50, 0), record(1, 40, 0), record(3, 30, 1), record(2, 20, 0), record(1, 10, 1)];
    let out = deduplicate(input);
    assert_eq!(out, vec![record(3, 30, 1), record(1, 10, 1), record(2, 20, 0)]);
}

#[test]
fn compaction_sorts_by_time() {
    let input = vec![record(3, 50, 0), record(1, 40, 0), record(3, 30, 1), record(2, 20, 0), record(1, 10, 1)];
    let out = compact(input);
    assert_eq!(out, vec![record(1, 10, 1), record(2, 20, 0), record(3, 30, 1)]);
}

#[test]
fn compaction_moves_the_slot_to_the_time_of_the_last_value() {
    let out = compact(vec![record(1, 10, 1), record(2, 20, 0), record(1, 30, 2)]);
    assert_eq!(out, vec![record(2, 20, 0), record(1, 30, 2)]);
}

#[test]
fn compaction_leaves_ties_in_slot_order() {
    let out = compact(vec![record(5, 7, 0), record(4, 7, 0), record(5, 7, 9), record(3, 7, 0)]);
    assert_eq!(out, vec![record(5, 7, 9), record(4, 7, 0), record(3, 7, 0)]);
}

#[test]
fn compaction_of_nothing_is_nothing() {
    assert_eq!(compact(Vec::new()), Vec::new());
}

#[test]
fn compaction_is_idempotent_on_a_sample() {
    let input = vec![record(9, 3, 0), record(8, 3, 0), record(9, 1, 5), record(7, 2, 0), record(8, 3, 4)];
    let once = compact(input);
    let twice = compact(once.clone());
    assert_eq!(once, twice);
}

#[test]
fn nanoseconds_decide_the_order_within_a_second() {
    let mut early = record(1, 10, 0);
    early.t = Timestamp::new(10, 5).unwrap();
    let mut late = record(2, 10, 0);
    late.t = Timestamp::new(10, 6).unwrap();
    assert_eq!(compact(vec![late.clone(), early.clone()]), vec![early, late]);
}
