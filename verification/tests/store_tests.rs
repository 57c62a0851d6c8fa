use std::collections::BTreeMap;

use atlas4d::ingest::Located;
use atlas4d::inventory::FileEntry;
use atlas4d::model::{Observation, Position, Timestamp};
use atlas4d::names::is_segment_file;
use atlas4d::query::{choose_segment, query_candidates, Scanned};
use atlas4d::partition::PartitionKey;
use atlas4d::segment::{append_bytes, encode_segment, read_segment, SegmentData, SegmentError, SegmentKind};
use atlas4d::store::{collect_records, DecodedSegment, Store};

// A directory held in memory, and the caller's side of the store on it.

type Disk = BTreeMap<String, Vec<u8>>;

fn instant(secs: i64, nanos: u32) -> Timestamp {
    Timestamp::new(secs, nanos).unwrap()
}

fn observe(entity: u128, t: Timestamp, lat: f64, lon: f64, alt: f64, quality: f32) -> Observation {
    let pos = Position { lat_bits: lat.to_bits(), lon_bits: lon.to_bits(), alt_m_bits: alt.to_bits() };
    Observation::new(entity, t, pos, Some(1.5f64.to_bits()), quality.to_bits(), None)
}

fn cell_of(pos: &Position) -> u64 {
    let ll = h3o::LatLng::new(f64::from_bits(pos.lat_bits), f64::from_bits(pos.lon_bits)).unwrap();
    u64::from(ll.to_cell(h3o::Resolution::Nine))
}

fn haversine_m(lat1: f64, lon1: f64, lat2: f64, lon2: f64) -> f64 {
    let r = 6_371_000.0_f64;
    let d2r = std::f64::consts::PI / 180.0_f64;
    let (phi1, phi2) = (lat1 * d2r, lat2 * d2r);
    let dphi = (lat2 - lat1) * d2r;
    let dlambda = (lon2 - lon1) * d2r;
    let a = (dphi / 2.0).sin().powi(2) + phi1.cos() * phi2.cos() * (dlambda / 2.0).sin().powi(2);
    2.0 * r * a.sqrt().asin()
}

fn to_payload(o: &Observation) -> Vec<u8> {
    let mut out = Vec::new();
    out.extend_from_slice(&o.obs_id.to_le_bytes());
    out.extend_from_slice(&o.entity_id.to_le_bytes());
    out.extend_from_slice(&o.t.secs().to_le_bytes());
    out.extend_from_slice(&o.t.nanos().to_le_bytes());
    out.extend_from_slice(&o.pos.lat_bits.to_le_bytes());
    out.extend_from_slice(&o.pos.lon_bits.to_le_bytes());
    out.extend_from_slice(&o.pos.alt_m_bits.to_le_bytes());
    out.extend_from_slice(&o.quality_bits.to_le_bytes());
    match o.sigma_m_bits {
        Some(s) => {
            out.push(1);
            out.extend_from_slice(&s.to_le_bytes());
        }
        None => out.push(0),
    }
    out
}

fn from_payload(b: &[u8]) -> Option<Observation> {
    if b.len() != 65 && b.len() != 73 {
        return None;
    }
    let u64_at = |i: usize| u64::from_le_bytes(b[i..i + 8].try_into().unwrap());
    let sigma = match b[64] {
        0 if b.len() == 65 => None,
        1 if b.len() == 73 => Some(u64_at(65)),
        _ => return None,
    };
    Some(Observation {
        obs_id: u64_at(0),
        entity_id: u128::from_le_bytes(b[8..24].try_into().unwrap()),
        t: Timestamp::new(u64_at(24) as i64, u32::from_le_bytes(b[32..36].try_into().unwrap()))?,
        pos: Position { lat_bits: u64_at(36), lon_bits: u64_at(44), alt_m_bits: u64_at(52) },
        quality_bits: u32::from_le_bytes(b[60..64].try_into().unwrap()),
        sigma_m_bits: sigma,
        source: None,
    })
}

fn from_json_line(line: &[u8]) -> Option<Observation> {
    let v: serde_json::Value = serde_json::from_slice(line).ok()?;
    let pos = v.get("pos")?;
    Some(Observation {
        obs_id: v.get("obs_id")?.as_u64()?,
        entity_id: uuid::Uuid::parse_str(v.get("entity_id")?.as_str()?).ok()?.as_u128(),
        t: Timestamp::new(v.get("secs")?.as_i64()?, v.get("nanos")?.as_u64()? as u32)?,
        pos: Position {
            lat_bits: pos.get("lat")?.as_f64()?.to_bits(),
            lon_bits: pos.get("lon")?.as_f64()?.to_bits(),
            alt_m_bits: pos.get("alt_m")?.as_f64()?.to_bits(),
        },
        quality_bits: (v.get("quality")?.as_f64()? as f32).to_bits(),
        sigma_m_bits: v.get("sigma_m").and_then(|s| s.as_f64()).map(|s| s.to_bits()),
        source: None,
    })
}

fn read_file(bytes: &[u8]) -> Result<Vec<Observation>, SegmentError> {
    match read_segment(bytes)? {
        SegmentData::Binary(payloads) => {
            collect_records(SegmentKind::Current, payloads.iter().map(|p| from_payload(p)).collect())
        }
        SegmentData::Legacy(lines) => {
            collect_records(SegmentKind::Legacy, lines.iter().map(|l| from_json_line(l)).collect())
        }
    }
}

fn ingest(disk: &mut Disk, store: &Store, obs: &[Observation]) {
    let batch: Vec<Located> = obs.iter().map(|o| Located { obs: o.clone(), cell: cell_of(&o.pos) }).collect();
    for step in store.ingest_many(&batch) {
        let payloads: Vec<Vec<u8>> = step.members.iter().map(|&i| to_payload(&batch[i].obs)).collect();
        let file = disk.entry(step.path).or_default();
        let bytes = append_bytes(file.len() as u64, &payloads).unwrap();
        file.extend_from_slice(&bytes);
    }
}

fn file_name(path: &str) -> &str {
    path.rsplit('/').next().unwrap()
}

fn compact_all(disk: &mut Disk, store: &mut Store) -> usize {
    let dir = store.segments_dir();
    let mut segments = Vec::new();
    for (path, bytes) in disk.iter() {
        if is_segment_file(file_name(path)) {
            segments.push(DecodedSegment { name: String::from(file_name(path)), records: read_file(bytes).unwrap() });
        }
    }
    let rewrites = store.compact_all(segments);
    let count = rewrites.len();
    for rw in rewrites {
        let payloads: Vec<Vec<u8>> = rw.records.iter().map(to_payload).collect();
        let temp = format!("{}/{}", dir, rw.temp_name);
        disk.insert(temp.clone(), encode_segment(&payloads).unwrap());
        let bytes = disk.remove(&temp).unwrap();
        disk.insert(format!("{}/{}", dir, rw.name), bytes);
    }
    count
}

fn query(disk: &Disk, store: &Store, lat: f64, lon: f64, radius_m: f64, t0: Timestamp, t1: Timestamp) -> Vec<Observation> {
    let center = cell_of(&Position { lat_bits: lat.to_bits(), lon_bits: lon.to_bits(), alt_m_bits: 0 });
    let steps = (radius_m / 170.0).ceil() as u32;
    let mut found = Vec::new();
    for read in store.query_plan(center, steps, &t0, &t1).unwrap() {
        let path = match choose_segment(disk.contains_key(&read.current), disk.contains_key(&read.legacy)) {
            Some(SegmentKind::Current) => read.current,
            Some(SegmentKind::Legacy) => read.legacy,
            None => continue,
        };
        for o in read_file(&disk[&path]).unwrap() {
            let d = haversine_m(lat, lon, f64::from_bits(o.pos.lat_bits), f64::from_bits(o.pos.lon_bits));
            found.push(Scanned { obs: o, within_radius: d <= radius_m });
        }
    }
    store.query_near(found, &t0, &t1)
}

fn demo(start: i64, minutes: i64) -> Vec<Observation> {
    let mut obs = Vec::new();
    for i in 0..(minutes * 60 / 5) {
        let t = instant(start + i * 5, 0);
        let f = i as f64;
        obs.push(observe(1, t, 42.494 + 0.00005 * f, 27.470 + 0.00007 * f, 10.0, 0.95));
        obs.push(observe(2, t, 42.500 - 0.00005 * f, 27.480 - 0.00006 * f, 12.0, 0.92));
    }
    obs
}

#[test]
fn ingested_observation_is_found_at_its_own_place() {
    let store = Store::new(String::from("data"));
    let mut disk = Disk::new();
    let o = observe(9, instant(1_700_000_123, 456), 42.494, 27.470, 10.0, 0.5);
    ingest(&mut disk, &store, &[o.clone()]);
    let t = o.t;
    assert_eq!(query(&disk, &store, 42.494, 27.470, 0.0, t, t), vec![o.clone()]);
    assert_eq!(query(&disk, &store, 42.494, 27.470, 50.0, instant(1_700_000_000, 0), instant(1_700_000_200, 0)), vec![o]);
}

#[test]
fn reingested_observation_is_stored_twice_until_compaction() {
    let mut store = Store::new(String::from("data"));
    let mut disk = Disk::new();
    let o = observe(9, instant(1_700_000_123, 0), 42.494, 27.470, 10.0, 0.5);
    ingest(&mut disk, &store, &[o.clone()]);
    ingest(&mut disk, &store, &[o.clone()]);
    assert_eq!(query(&disk, &store, 42.494, 27.470, 10.0, o.t, o.t), vec![o.clone(), o.clone()]);
    assert_eq!(compact_all(&mut disk, &mut store), 1);
    assert_eq!(query(&disk, &store, 42.494, 27.470, 10.0, o.t, o.t), vec![o]);
}

#[test]
fn compaction_of_a_segment_keeps_first_slot_and_last_value() {
    let mut store = Store::new(String::from("data"));
    let t = instant(1_700_000_100, 0);
    let a1 = observe(1, t, 42.494, 27.470, 10.0, 0.1);
    let b = observe(2, t, 42.494, 27.470, 10.0, 0.5);
    let mut a2 = a1.clone();
    a2.quality_bits = 0.9f32.to_bits();
    assert_eq!(a1.obs_id, a2.obs_id);
    let segment = DecodedSegment { name: String::from("1_1700000100.seg"), records: vec![a1, b.clone(), a2.clone()] };
    let rewrites = store.compact_all(vec![segment]);
    assert_eq!(rewrites.len(), 1);
    assert_eq!(rewrites[0].name, "1_1700000100.seg");
    assert_eq!(rewrites[0].temp_name, "1_1700000100.seg.tmp");
    assert_eq!(rewrites[0].records, vec![a2, b]);
}

#[test]
fn compaction_passes_over_empty_and_foreign_files() {
    let mut store = Store::new(String::from("data"));
    let o = observe(1, instant(5, 0), 1.0, 2.0, 3.0, 0.5);
    let segments = vec![
        DecodedSegment { name: String::from("1_0.seg"), records: Vec::new() },
        DecodedSegment { name: String::from("2_0.seg"), records: vec![o.clone()] },
        DecodedSegment { name: String::from("3_0.seg.tmp"), records: vec![o.clone()] },
        DecodedSegment { name: String::from("4_0.jsonl"), records: vec![o.clone()] },
        DecodedSegment { name: String::from("notes.txt"), records: vec![o.clone()] },
    ];
    let rewrites = store.compact_all(segments);
    let names: Vec<&str> = rewrites.iter().map(|r| r.name.as_str()).collect();
    assert_eq!(names, vec!["2_0.seg", "4_0.jsonl"]);
    assert_eq!(rewrites[1].temp_name, "4_0.seg.tmp");
    assert_eq!(store, Store::new(String::from("data")));
}

#[test]
fn legacy_file_gives_its_valid_lines_in_file_order() {
    let text = [
        "{\"obs_id\":11,\"entity_id\":\"00000000-0000-0000-0000-000000000001\",\"secs\":100,\"nanos\":1,\
         \"pos\":{\"lat\":42.5,\"lon\":27.5,\"alt_m\":1.0},\"quality\":0.5,\"sigma_m\":null}",
        "this line is no observation",
        "{\"obs_id\":12,\"entity_id\":\"00000000-0000-0000-0000-000000000002\",\"secs\":50,\"nanos\":2,\
         \"pos\":{\"lat\":42.6,\"lon\":27.6,\"alt_m\":2.0},\"quality\":0.25,\"sigma_m\":3.0}",
        "{\"obs_id\":13}",
        "",
    ]
    .join("\n");
    let records = read_file(text.as_bytes()).unwrap();
    let ids: Vec<u64> = records.iter().map(|o| o.obs_id).collect();
    assert_eq!(ids, vec![11, 12]);
    assert_eq!(records[0].entity_id, 1);
    assert_eq!(records[1].t, instant(50, 2));
    assert_eq!(records[1].sigma_m_bits, Some(3.0f64.to_bits()));
}

#[test]
fn undecodable_record_fails_a_current_file_but_not_a_legacy_one() {
    let good = observe(1, instant(5, 0), 1.0, 2.0, 3.0, 0.5);
    let decoded = vec![Some(good.clone()), None, Some(good.clone())];
    assert_eq!(collect_records(SegmentKind::Current, decoded.clone()), Err(SegmentError::Undecodable));
    assert_eq!(collect_records(SegmentKind::Legacy, decoded), Ok(vec![good.clone(), good.clone()]));
    assert_eq!(collect_records(SegmentKind::Current, vec![Some(good.clone())]), Ok(vec![good]));
    assert_eq!(collect_records(SegmentKind::Current, Vec::new()), Ok(Vec::new()));
    let bytes = encode_segment(&vec![vec![1, 2, 3]]).unwrap();
    assert_eq!(read_file(&bytes), Err(SegmentError::Undecodable));
}

#[test]
fn query_reads_the_current_file_where_both_formats_exist() {
    let store = Store::new(String::from("data"));
    let mut disk = Disk::new();
    let o = observe(9, instant(1_700_000_123, 0), 42.494, 27.470, 10.0, 0.5);
    ingest(&mut disk, &store, &[o.clone()]);
    let cell = cell_of(&o.pos);
    disk.insert(store.legacy_path(cell, 1_700_000_100), b"{\"obs_id\":1}\n".to_vec());
    assert_eq!(query(&disk, &store, 42.494, 27.470, 10.0, o.t, o.t), vec![o]);
}

#[test]
fn query_falls_back_to_the_legacy_file() {
    let store = Store::new(String::from("data"));
    let mut disk = Disk::new();
    let cell = cell_of(&Position { lat_bits: 42.5f64.to_bits(), lon_bits: 27.5f64.to_bits(), alt_m_bits: 0 });
    let line = "{\"obs_id\":11,\"entity_id\":\"00000000-0000-0000-0000-000000000001\",\"secs\":100,\"nanos\":0,\
                \"pos\":{\"lat\":42.5,\"lon\":27.5,\"alt_m\":1.0},\"quality\":0.5}\n";
    disk.insert(store.legacy_path(cell, 0), line.as_bytes().to_vec());
    let found = query(&disk, &store, 42.5, 27.5, 10.0, instant(0, 0), instant(200, 0));
    assert_eq!(found.len(), 1);
    assert_eq!(found[0].obs_id, 11);
}

#[test]
fn query_plan_names_both_files_of_every_candidate() {
    let store = Store::new(String::from("data"));
    let center = cell_of(&Position { lat_bits: 42.494f64.to_bits(), lon_bits: 27.470f64.to_bits(), alt_m_bits: 0 });
    let (t0, t1) = (instant(310, 0), instant(320, 0));
    let keys: Vec<PartitionKey> = query_candidates(center, 1, &t0, &t1).unwrap();
    let plan = store.query_plan(center, 1, &t0, &t1).unwrap();
    assert_eq!(plan.len(), 14);
    assert_eq!(plan.iter().map(|r| r.key).collect::<Vec<PartitionKey>>(), keys);
    assert_eq!(plan[0].current, format!("data/segments/{}_300.seg", center));
    assert_eq!(plan[0].legacy, format!("data/segments/{}_300.jsonl", center));
    assert_eq!(plan[1].current, format!("data/segments/{}_600.seg", center));
    assert_eq!(store.query_plan(5, 1, &t0, &t1), None);
}

#[test]
fn rebuilding_indices_changes_nothing() {
    let mut store = Store::new(String::from("data"));
    assert_eq!(store.rebuild_indices(), Ok(()));
    assert_eq!(store, Store::new(String::from("data")));
}

#[test]
fn ten_minutes_of_two_entities() {
    let mut store = Store::new(String::from("./atlas4d-data"));
    let mut disk = Disk::new();
    let start = 1_700_000_000i64;
    let obs = demo(start, 10);
    assert_eq!(obs.len(), 240);
    ingest(&mut disk, &store, &obs);

    let populated: std::collections::BTreeSet<(u64, i64)> =
        obs.iter().map(|o| (cell_of(&o.pos), o.t.secs() - o.t.secs().rem_euclid(300))).collect();
    let rewritten = compact_all(&mut disk, &mut store);
    assert_eq!(rewritten, populated.len());

    let entries: Vec<FileEntry> =
        disk.iter().map(|(p, b)| FileEntry { name: String::from(file_name(p)), size_bytes: b.len() as u64 }).collect();
    let listed = store.list_segments(entries);
    assert_eq!(listed.iter().filter(|s| s.binary).count(), populated.len());
    for s in &listed {
        assert!(populated.contains(&(s.cell.parse::<u64>().unwrap(), s.time_bin)));
        assert_eq!(s.size_bytes, disk[&format!("./atlas4d-data/segments/{}", s.filename)].len() as u64);
    }
    assert!(listed.windows(2).all(|w| (&w[0].cell, w[0].time_bin) <= (&w[1].cell, w[1].time_bin)));

    let t0 = instant(start, 0);
    let t1 = instant(start + 600, 0);
    let found = query(&disk, &store, 42.494, 27.470, 100.0, t0, t1);
    assert!(!found.is_empty());
    assert!(found.iter().all(|o| o.entity_id == 1));
    assert!(found.windows(2).all(|w| (w[0].t.secs(), w[0].t.nanos()) <= (w[1].t.secs(), w[1].t.nanos())));
    let expected: Vec<Observation> = obs
        .iter()
        .filter(|o| {
            o.entity_id == 1
                && haversine_m(42.494, 27.470, f64::from_bits(o.pos.lat_bits), f64::from_bits(o.pos.lon_bits)) <= 100.0
        })
        .cloned()
        .collect();
    assert_eq!(found, expected);
    assert_eq!(found[0], obs[0]);
}
