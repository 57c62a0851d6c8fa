use atlas4d::model::{derive_id, Observation, Position, Timestamp, MAX_SECS, MIN_SECS};
use atlas4d::sort::Ranked;
use chrono::{DateTime, Utc};
use std::collections::hash_map::DefaultHasher;
use std::hash::{Hash, Hasher};

fn instant(secs: i64, nanos: u32) -> Timestamp {
    Timestamp::new(secs, nanos).expect("a valid instant")
}

fn place(lat: f64, lon: f64, alt: f64) -> Position {
    Position { lat_bits: lat.to_bits(), lon_bits: lon.to_bits(), alt_m_bits: alt.to_bits() }
}

fn hashed_step_by_step(entity: u128, nanos: i128, lat: f64, lon: f64) -> u64 {
    let mut hasher = DefaultHasher::new();
    uuid::Uuid::from_u128(entity).hash(&mut hasher);
    nanos.hash(&mut hasher);
    lat.to_bits().hash(&mut hasher);
    lon.to_bits().hash(&mut hasher);
    hasher.finish()
}

#[test]
fn timestamp_keeps_its_parts() {
    let t = instant(1_700_000_000, 123_456_789);
    assert_eq!(t.secs(), 1_700_000_000);
    assert_eq!(t.nanos(), 123_456_789);
}

#[test]
fn timestamp_range_is_that_of_chrono() {
    assert_eq!(DateTime::<Utc>::MIN_UTC.timestamp(), MIN_SECS);
    assert_eq!(DateTime::<Utc>::MAX_UTC.timestamp(), MAX_SECS);
    assert!(Timestamp::new(MIN_SECS, 0).is_some());
    assert!(Timestamp::new(MAX_SECS, 999_999_999).is_some());
    assert!(Timestamp::new(MIN_SECS - 1, 0).is_none());
    assert!(Timestamp::new(MAX_SECS + 1, 0).is_none());
}

#[test]
fn timestamp_is_valid_where_chrono_has_an_instant() {
    let cases: Vec<(i64, u32)> = vec![
        (0, 0),
        (0, 999_999_999),
        (0, 1_000_000_000),
        (59, 1_000_000_000),
        (59, 1_999_999_999),
        (59, 2_000_000_000),
        (-1, 1_500_000_000),
        (-61, 1_500_000_000),
        (-60, 1_500_000_000),
        (1_700_000_039, 1_000_000_000),
        (MAX_SECS, 1_999_999_999),
        (MIN_SECS, 1_000_000_000),
        (i64::MAX, 0),
        (i64::MIN, 0),
        (5, u32::MAX),
    ];
    for (secs, nanos) in cases {
        assert_eq!(
            Timestamp::new(secs, nanos).is_some(),
            DateTime::<Utc>::from_timestamp(secs, nanos).is_some(),
            "secs {} nanos {}",
            secs,
            nanos
        );
    }
}

#[test]
fn epoch_nanos_agree_with_chrono() {
    let cases: Vec<(i64, u32)> = vec![
        (0, 0),
        (1, 5),
        (-1, 999_999_999),
        (1_700_000_000, 123_456_789),
        (9_223_372_036, 854_775_807),
        (9_223_372_036, 854_775_808),
        (-9_223_372_037, 145_224_192),
        (-9_223_372_037, 145_224_191),
        (MAX_SECS, 0),
        (MIN_SECS, 0),
        (59, 1_500_000_000),
    ];
    for (secs, nanos) in cases {
        let ours = instant(secs, nanos).epoch_nanos();
        let theirs = DateTime::<Utc>::from_timestamp(secs, nanos).unwrap().timestamp_nanos_opt();
        assert_eq!(ours, theirs, "secs {} nanos {}", secs, nanos);
    }
}

#[test]
fn epoch_nanos_exact_values() {
    assert_eq!(instant(1, 5).epoch_nanos(), Some(1_000_000_005));
    assert_eq!(instant(-1, 999_999_999).epoch_nanos(), Some(-1));
    assert_eq!(instant(9_223_372_036, 854_775_807).epoch_nanos(), Some(i64::MAX));
    assert_eq!(instant(9_223_372_036, 854_775_808).epoch_nanos(), None);
    assert_eq!(instant(-9_223_372_037, 145_224_192).epoch_nanos(), Some(i64::MIN));
    assert_eq!(instant(-9_223_372_037, 145_224_191).epoch_nanos(), None);
}

#[test]
fn instants_order_as_chrono_orders_them() {
    let cases: Vec<(i64, u32)> =
        vec![(0, 0), (0, 1), (1, 0), (-1, 999_999_999), (59, 1_500_000_000), (60, 0), (59, 999_999_999)];
    for &(s1, n1) in &cases {
        for &(s2, n2) in &cases {
            let a = DateTime::<Utc>::from_timestamp(s1, n1).unwrap();
            let b = DateTime::<Utc>::from_timestamp(s2, n2).unwrap();
            assert_eq!(instant(s1, n1).not_after(&instant(s2, n2)), a <= b);
        }
    }
}

#[test]
fn identifier_is_the_hash_of_entity_instant_latitude_longitude() {
    let entity = 0x1234_5678_9abc_def0_0fed_cba9_8765_4321u128;
    let t = instant(1_700_000_000, 123_456_789);
    let pos = place(42.494, 27.470, 10.0);
    let expected = hashed_step_by_step(entity, 1_700_000_000_123_456_789, 42.494, 27.470);
    assert_eq!(derive_id(entity, &t, &pos), expected);
    let o = Observation::new(entity, t, pos, Some(1.5f64.to_bits()), 0.95f32.to_bits(), None);
    assert_eq!(o.obs_id, expected);
    assert_ne!(o.obs_id, entity as u64);
}

#[test]
fn identifier_takes_zero_for_an_instant_beyond_64_bit_nanoseconds() {
    let entity = 7u128;
    let t = instant(9_223_372_037, 0);
    let pos = place(1.0, 2.0, 3.0);
    assert_eq!(derive_id(entity, &t, &pos), hashed_step_by_step(entity, 0, 1.0, 2.0));
}

#[test]
fn identity_collapses_over_quality_uncertainty_and_provenance() {
    let entity = 42u128;
    let t = instant(1_700_000_000, 1);
    let a = Observation::new(entity, t, place(42.5, 27.5, 10.0), Some(1.5f64.to_bits()), 0.95f32.to_bits(), None);
    let b = Observation::new(
        entity,
        t,
        place(42.5, 27.5, 99.0),
        None,
        0.10f32.to_bits(),
        Some(String::from("{\"sensor\":\"b\"}")),
    );
    assert_eq!(a.obs_id, b.obs_id);
}

#[test]
fn identity_differs_with_entity_instant_or_place() {
    let t = instant(1_700_000_000, 1);
    let base = Observation::new(42, t, place(42.5, 27.5, 10.0), None, 0, None);
    let other_entity = Observation::new(43, t, place(42.5, 27.5, 10.0), None, 0, None);
    let other_instant = Observation::new(42, instant(1_700_000_000, 2), place(42.5, 27.5, 10.0), None, 0, None);
    let other_lat = Observation::new(42, t, place(42.6, 27.5, 10.0), None, 0, None);
    let other_lon = Observation::new(42, t, place(42.5, 27.6, 10.0), None, 0, None);
    assert_ne!(base.obs_id, other_entity.obs_id);
    assert_ne!(base.obs_id, other_instant.obs_id);
    assert_ne!(base.obs_id, other_lat.obs_id);
    assert_ne!(base.obs_id, other_lon.obs_id);
}

#[test]
fn new_keeps_every_field() {
    let t = instant(10, 20);
    let pos = place(1.0, 2.0, 3.0);
    let o = Observation::new(5, t, pos, Some(9), 8, Some(String::from("{}")));
    assert_eq!(o.entity_id, 5);
    assert_eq!(o.t, t);
    assert_eq!(o.pos, pos);
    assert_eq!(o.sigma_m_bits, Some(9));
    assert_eq!(o.quality_bits, 8);
    assert_eq!(o.source, Some(String::from("{}")));
}

#[test]
fn observations_rank_by_instant_alone() {
    let early = Observation::new(1, instant(10, 0), place(0.0, 0.0, 0.0), None, 0, None);
    let late = Observation::new(2, instant(10, 1), place(5.0, 5.0, 0.0), None, 0, None);
    let same = Observation::new(3, instant(10, 1), place(9.0, 9.0, 0.0), None, 0, None);
    assert!(early.le(&late));
    assert!(!late.le(&early));
    assert!(late.le(&same));
    assert!(same.le(&late));
}
