use atlas4d::ingest::{split_by_partition, Group, Located};
use atlas4d::model::{Observation, Position, Timestamp};
use atlas4d::partition::PartitionKey;
use atlas4d::segment::SegmentKind;
use atlas4d::store::{SegmentAppend, Store};

fn located(cell: u64, secs: i64, id: u64) -> Located {
    Located {
        obs: Observation {
            obs_id: id,
            entity_id: 1,
            t: Timestamp::new(secs, 0).unwrap(),
            pos: Position { lat_bits: 0, lon_bits: 0, alt_m_bits: 0 },
            quality_bits: 0,
            sigma_m_bits: None,
            source: None,
        },
        cell,
    }
}

fn group(cell: u64, bin: i64, members: &[usize]) -> Group {
    Group { key: PartitionKey { cell, bin }, members: members.to_vec() }
}

#[test]
fn batch_is_split_by_cell_and_bin() {
    let batch = vec![
        located(7, 10, 0),
        located(8, 10, 1),
        located(7, 299, 2),
        located(7, 300, 3),
        located(8, 0, 4),
        located(7, 599, 5),
    ];
    let groups = split_by_partition(&batch);
    assert_eq!(groups, vec![group(7, 0, &[0, 2]), group(8, 0, &[1, 4]), group(7, 300, &[3, 5])]);
}

#[test]
fn every_observation_lands_in_exactly_one_group() {
    let mut batch = Vec::new();
    for i in 0..200u64 {
        batch.push(located(i % 3, (i as i64 * 37) % 1200, i));
    }
    let groups = split_by_partition(&batch);
    let mut seen = vec![0usize; batch.len()];
    for g in &groups {
        for &m in &g.members {
            seen[m] += 1;
            assert_eq!(batch[m].cell, g.key.cell);
            assert_eq!(batch[m].obs.t.secs() - batch[m].obs.t.secs().rem_euclid(300), g.key.bin);
        }
        assert!(g.members.windows(2).all(|w| w[0] < w[1]));
    }
    assert!(seen.iter().all(|&n| n == 1));
    for (i, g) in groups.iter().enumerate() {
        for h in &groups[i + 1..] {
            assert_ne!(g.key, h.key);
        }
    }
}

#[test]
fn repeated_observation_is_kept_twice() {
    let batch = vec![located(7, 10, 5), located(7, 10, 5)];
    assert_eq!(split_by_partition(&batch), vec![group(7, 0, &[0, 1])]);
}

#[test]
fn cells_at_the_ends_of_the_range_stay_apart() {
    let batch = vec![located(0, 0, 0), located(u64::MAX, 0, 1), located(0, -1, 2), located(u64::MAX, -1, 3)];
    let groups = split_by_partition(&batch);
    assert_eq!(
        groups,
        vec![group(0, 0, &[0]), group(u64::MAX, 0, &[1]), group(0, -300, &[2]), group(u64::MAX, -300, &[3])]
    );
}

#[test]
fn empty_batch_has_no_group() {
    assert_eq!(split_by_partition(&Vec::new()), Vec::new());
}

#[test]
fn ingest_plan_names_the_segment_of_each_group() {
    let store = Store::new(String::from("./atlas4d-data"));
    let batch = vec![located(7, 10, 0), located(8, 310, 1), located(7, 20, 2)];
    let plan = store.ingest_many(&batch);
    assert_eq!(
        plan,
        vec![
            SegmentAppend {
                key: PartitionKey { cell: 7, bin: 0 },
                path: String::from("./atlas4d-data/segments/7_0.seg"),
                members: vec![0, 2],
            },
            SegmentAppend {
                key: PartitionKey { cell: 8, bin: 300 },
                path: String::from("./atlas4d-data/segments/8_300.seg"),
                members: vec![1],
            },
        ]
    );
}

#[test]
fn paths_lie_in_the_segments_directory() {
    let store = Store::new(String::from("/var/lib/atlas"));
    assert_eq!(store.segments_dir(), "/var/lib/atlas/segments");
    assert_eq!(store.indices_dir(), "/var/lib/atlas/indices");
    assert_eq!(store.seg_path(12, 600), "/var/lib/atlas/segments/12_600.seg");
    assert_eq!(store.legacy_path(12, 600), "/var/lib/atlas/segments/12_600.jsonl");
}

#[test]
fn paths_join_as_the_standard_library_joins() {
    for root in ["", "data", "data/", "/", "./x", "a/b"] {
        let store = Store::new(String::from(root));
        let expected = std::path::Path::new(root).join("segments").join("3_300.seg");
        assert_eq!(store.seg_path(3, 300), expected.to_string_lossy(), "root {:?}", root);
    }
}

#[test]
fn segment_kind_names_match_paths() {
    let store = Store::new(String::from("r"));
    assert!(store.seg_path(1, 0).ends_with(&atlas4d::names::segment_file_name(1, 0, SegmentKind::Current)));
    assert!(store.legacy_path(1, 0).ends_with(&atlas4d::names::segment_file_name(1, 0, SegmentKind::Legacy)));
}
