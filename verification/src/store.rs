//! The store: one directory of segment files, and the operations on it.
//!
//! A `Store` touches no file. Each operation takes what the caller has
//! read and returns what the caller is to write, so the caller holds
//! whatever lock guards the directory for as long as it likes.

use crate::compact::{compact, compacted};
use crate::ingest::{first_keys, key_of, lemma_split_covers, positions, split_by_partition, Located};
use crate::inventory::{inventory_of, is_inventory_of, FileEntry, SegmentInfo};
use crate::model::{Observation, Timestamp};
use crate::names::{
    file_name, is_segment_file, is_segment_name, segment_file_name, temp_file_name, temp_name,
};
use crate::partition::PartitionKey;
use crate::query::{
    covers_center, in_window, key_at, query_candidates, select_matches, selected, spec_candidates,
    Scanned,
};
use crate::segment::{SegmentError, SegmentKind};
use crate::sort::stable_sort_of;
use vstd::prelude::*;
use vstd::string::*;

verus! {

/// A store rooted at a directory. Its segments lie in the directory
/// `segments` under the root; the directory `indices` beside it is
/// reserved.
#[derive(Clone, Debug, PartialEq, Eq)]
pub struct Store {
    pub root: String,
}

/// The share of one partition in a batch, with the file that takes it.
#[derive(Clone, Debug, PartialEq, Eq)]
pub struct SegmentAppend {
    pub key: PartitionKey,
    /// The path of the partition's segment in the current format.
    pub path: String,
    /// The places in the batch of the observations to append, in batch
    /// order.
    pub members: Vec<usize>,
}

/// A partition that a query reads, with the two files that may hold it.
/// The one in the current format is read where it exists, else the legacy
/// one where that exists; they are never merged.
#[derive(Clone, Debug, PartialEq, Eq)]
pub struct SegmentRead {
    pub key: PartitionKey,
    /// The path of the partition's segment in the current format.
    pub current: String,
    /// The path of the partition's segment in the legacy format.
    pub legacy: String,
}

/// A segment file with the records that were read from it.
#[derive(Clone, Debug, PartialEq, Eq)]
pub struct DecodedSegment {
    pub name: String,
    pub records: Vec<Observation>,
}

/// A segment file to replace: the records go to the temporary file, which
/// is then renamed to the segment's own name.
#[derive(Clone, Debug, PartialEq, Eq)]
pub struct Rewrite {
    pub name: String,
    pub temp_name: String,
    pub records: Vec<Observation>,
}

/// `base` with `child` below it: the two parted by one slash, unless
/// `base` is empty or ends with a slash already.
pub open spec fn joined(base: Seq<char>, child: Seq<char>) -> Seq<char> {
    if base.len() == 0 || base.last() == '/' {
        base + child
    } else {
        base + seq!['/'] + child
    }
}

/// The name of the directory that holds the segments.
pub open spec fn segments_name() -> Seq<char> {
    seq!['s', 'e', 'g', 'm', 'e', 'n', 't', 's']
}

/// The name of the reserved directory.
pub open spec fn indices_name() -> Seq<char> {
    seq!['i', 'n', 'd', 'i', 'c', 'e', 's']
}

/// Whether a decoded segment is rewritten by compaction: it has the
/// extension of a segment and holds a record.
pub open spec fn is_rewritten(seg: DecodedSegment) -> bool {
    is_segment_name(seg.name@) && seg.records@.len() > 0
}

/// The segments that compaction rewrites, in the order given.
pub open spec fn rewritten(segments: Seq<DecodedSegment>) -> Seq<DecodedSegment>
    decreases segments.len(),
{
    if segments.len() == 0 {
        Seq::empty()
    } else if is_rewritten(segments.last()) {
        rewritten(segments.drop_last()).push(segments.last())
    } else {
        rewritten(segments.drop_last())
    }
}

/// The observations that decoding gave, in order, without the failures.
pub open spec fn decoded_ones(d: Seq<Option<Observation>>) -> Seq<Observation>
    decreases d.len(),
{
    if d.len() == 0 {
        Seq::empty()
    } else {
        match d.last() {
            Some(o) => decoded_ones(d.drop_last()).push(o),
            None => decoded_ones(d.drop_last()),
        }
    }
}

/// Whether decoding failed nowhere.
pub open spec fn all_decoded(d: Seq<Option<Observation>>) -> bool {
    forall|i: int| 0 <= i < d.len() ==> (#[trigger] d[i]) is Some
}

/// What was ingested is read again: the partition to which ingestion
/// appends an observation is among those that a query reads whose center
/// lies in the observation's cell and whose window holds its instant.
pub proof fn lemma_ingested_partition_is_read(
    batch: Seq<Located>,
    i: int,
    keys: Seq<PartitionKey>,
    t0: Timestamp,
    t1: Timestamp,
)
    requires
        0 <= i < batch.len() <= usize::MAX,
        batch[i].obs.t.wf(),
        in_window(batch[i].obs.t, t0, t1),
        covers_center(keys, batch[i].cell, t0, t1),
    ensures
        first_keys(batch).contains(key_of(batch[i])),
        positions(batch, key_of(batch[i])).contains(i as usize),
        keys.contains(key_of(batch[i])),
{
    lemma_split_covers(batch, i);
    assert(key_of(batch[i]) == key_at(batch[i].cell, batch[i].obs.t));
}

/// Appends `child` to `base` as a path below it.
fn join(base: &str, child: &str) -> (r: String)
    ensures
        r@ == joined(base@, child@),
{
    let n = base.unicode_len();
    let mut out = String::from_str(base);
    if n > 0 && base.get_char(n - 1) != '/' {
        out.append("/");
        proof {
            reveal_strlit("/");
        }
    }
    out.append(child);
    proof {
        assert(out@ =~= joined(base@, child@));
    }
    out
}

/// The records of a segment from what decoding its payloads or lines
/// gave, `None` standing for one that is no observation. A file in the
/// current format is unreadable as a whole where one record fails; of a
/// legacy file the lines that fail are passed over.
pub fn collect_records(kind: SegmentKind, decoded: Vec<Option<Observation>>) -> (r: Result<
    Vec<Observation>,
    SegmentError,
>)
    ensures
        match r {
            Ok(v) => v@ == decoded_ones(decoded@) && (kind == SegmentKind::Legacy || all_decoded(
                decoded@,
            )),
            Err(e) => e == SegmentError::Undecodable && kind == SegmentKind::Current
                && !all_decoded(decoded@),
        },
{
    let ghost s = decoded@;
    let mut out: Vec<Observation> = Vec::new();
    let mut failed = false;
    proof {
        assert(s.take(0) =~= Seq::<Option<Observation>>::empty());
    }
    for d in it: decoded
        invariant
            s == it.seq(),
            out@ == decoded_ones(s.take(it.index() as int)),
            failed <==> !all_decoded(s.take(it.index() as int)),
    {
        proof {
            let i = it.index() as int;
            assert(s.take(i + 1).drop_last() =~= s.take(i));
            assert(s.take(i + 1).last() == d);
            if !all_decoded(s.take(i)) {
                let j = choose|j: int| 0 <= j < s.take(i).len() && !((#[trigger] s.take(i)[j]) is Some);
                assert(s.take(i + 1)[j] == s.take(i)[j]);
            }
            if d is None {
                assert(s.take(i + 1)[i] is None);
            }
            if all_decoded(s.take(i)) && d is Some {
                assert forall|j: int| 0 <= j < s.take(i + 1).len() implies (#[trigger] s.take(
                    i + 1,
                )[j]) is Some by {
                    if j < i {
                        assert(s.take(i)[j] is Some);
                    }
                }
            }
        }
        match d {
            Some(o) => {
                out.push(o);
            },
            None => {
                failed = true;
            },
        }
    }
    proof {
        assert(s.take(s.len() as int) =~= s);
    }
    match kind {
        SegmentKind::Current => if failed {
            Err(SegmentError::Undecodable)
        } else {
            Ok(out)
        },
        SegmentKind::Legacy => Ok(out),
    }
}

impl Store {
    /// A store rooted at `root`.
    pub fn new(root: String) -> (s: Store)
        ensures
            s.root == root,
    {
        Store { root }
    }

    /// The directory that holds the segments.
    pub open spec fn spec_segments_dir(&self) -> Seq<char> {
        joined(self.root@, segments_name())
    }

    /// The path of the segment of a partition in the given format.
    pub open spec fn spec_path(&self, cell: u64, bin: i64, kind: SegmentKind) -> Seq<char> {
        joined(self.spec_segments_dir(), file_name(cell, bin, kind))
    }

    /// The directory that holds the segments: `segments` under the root.
    pub fn segments_dir(&self) -> (dir: String)
        ensures
            dir@ == self.spec_segments_dir(),
    {
        proof {
            reveal_strlit("segments");
            assert("segments"@ =~= segments_name());
        }
        join(self.root.as_str(), "segments")
    }

    /// The reserved directory: `indices` under the root.
    pub fn indices_dir(&self) -> (dir: String)
        ensures
            dir@ == joined(self.root@, indices_name()),
    {
        proof {
            reveal_strlit("indices");
            assert("indices"@ =~= indices_name());
        }
        join(self.root.as_str(), "indices")
    }

    /// The path of the segment of a partition in the current format.
    pub fn seg_path(&self, cell: u64, bin: i64) -> (path: String)
        ensures
            path@ == self.spec_path(cell, bin, SegmentKind::Current),
    {
        let dir = self.segments_dir();
        let name = segment_file_name(cell, bin, SegmentKind::Current);
        join(dir.as_str(), name.as_str())
    }

    /// The path of the segment of a partition in the legacy format.
    pub fn legacy_path(&self, cell: u64, bin: i64) -> (path: String)
        ensures
            path@ == self.spec_path(cell, bin, SegmentKind::Legacy),
    {
        let dir = self.segments_dir();
        let name = segment_file_name(cell, bin, SegmentKind::Legacy);
        join(dir.as_str(), name.as_str())
    }

    /// Plans the ingestion of a batch: one append for each partition that
    /// the batch touches, in the order in which the partitions first
    /// appear, each with all observations of the partition in batch order.
    /// Every observation goes by its own cell and the bin of its own
    /// instant, and none is left out or looked up: one that was stored
    /// before is stored again.
    pub fn ingest_many(&self, batch: &Vec<Located>) -> (plan: Vec<SegmentAppend>)
        ensures
            plan@.len() == first_keys(batch@).len(),
            forall|g: int|
                0 <= g < plan@.len() ==> {
                    let key = first_keys(batch@)[g];
                    &&& (#[trigger] plan@[g]).key == key
                    &&& plan@[g].members@ == positions(batch@, key)
                    &&& plan@[g].path@ == self.spec_path(key.cell, key.bin, SegmentKind::Current)
                },
    {
        let groups = split_by_partition(batch);
        let ghost gs = groups@;
        let mut plan: Vec<SegmentAppend> = Vec::new();
        for g in it: groups
            invariant
                gs == it.seq(),
                plan@.len() == it.index(),
                forall|k: int|
                    0 <= k < plan@.len() ==> (#[trigger] plan@[k]).key == gs[k].key
                        && plan@[k].members@ == gs[k].members@ && plan@[k].path@ == self.spec_path(
                        gs[k].key.cell,
                        gs[k].key.bin,
                        SegmentKind::Current,
                    ),
        {
            let path = self.seg_path(g.key.cell, g.key.bin);
            plan.push(SegmentAppend { key: g.key, path, members: g.members });
        }
        plan
    }

    /// Plans the reads of a range query around the cell `center`, for a
    /// radius of `steps` begun edge lengths and the instants from `t0` to
    /// `t1`: one read for each cell of the ring with each bin from the bin
    /// of `t0` to the bin after the bin of `t1`. `None` where `center` is no
    /// cell.
    pub fn query_plan(&self, center: u64, steps: u32, t0: &Timestamp, t1: &Timestamp) -> (plan:
        Option<Vec<SegmentRead>>)
        ensures
            match plan {
                Some(reads) => match spec_candidates(center, steps, *t0, *t1) {
                    Some(keys) => reads@.len() == keys.len() && forall|i: int|
                        0 <= i < reads@.len() ==> {
                            &&& (#[trigger] reads@[i]).key == keys[i]
                            &&& reads@[i].current@ == self.spec_path(
                                keys[i].cell,
                                keys[i].bin,
                                SegmentKind::Current,
                            )
                            &&& reads@[i].legacy@ == self.spec_path(
                                keys[i].cell,
                                keys[i].bin,
                                SegmentKind::Legacy,
                            )
                        },
                    None => false,
                },
                None => spec_candidates(center, steps, *t0, *t1) is None,
            },
    {
        let keys = match query_candidates(center, steps, t0, t1) {
            Some(keys) => keys,
            None => {
                return None;
            },
        };
        let mut reads: Vec<SegmentRead> = Vec::new();
        let mut i: usize = 0;
        while i < keys.len()
            invariant
                i <= keys.len(),
                reads@.len() == i,
                forall|j: int|
                    0 <= j < reads@.len() ==> {
                        &&& (#[trigger] reads@[j]).key == keys@[j]
                        &&& reads@[j].current@ == self.spec_path(
                            keys@[j].cell,
                            keys@[j].bin,
                            SegmentKind::Current,
                        )
                        &&& reads@[j].legacy@ == self.spec_path(
                            keys@[j].cell,
                            keys@[j].bin,
                            SegmentKind::Legacy,
                        )
                    },
            decreases keys.len() - i,
        {
            let key = keys[i];
            let current = self.seg_path(key.cell, key.bin);
            let legacy = self.legacy_path(key.cell, key.bin);
            reads.push(SegmentRead { key, current, legacy });
            i += 1;
        }
        Some(reads)
    }

    /// Compacts the segments given: each that has the extension of a
    /// segment and holds a record is rewritten with one record for each
    /// identifier, sorted by time; the others are left alone. The number of
    /// segments rewritten is the length of the result.
    pub fn compact_all(&mut self, segments: Vec<DecodedSegment>) -> (rewrites: Vec<Rewrite>)
        ensures
            *final(self) == *old(self),
            rewrites@.len() == rewritten(segments@).len(),
            forall|j: int|
                0 <= j < rewrites@.len() ==> {
                    let seg = rewritten(segments@)[j];
                    &&& (#[trigger] rewrites@[j]).name@ == seg.name@
                    &&& rewrites@[j].temp_name@ == temp_name(seg.name@)
                    &&& compacted(rewrites@[j].records@, seg.records@)
                },
    {
        let ghost s = segments@;
        let mut out: Vec<Rewrite> = Vec::new();
        proof {
            assert(s.take(0) =~= Seq::<DecodedSegment>::empty());
        }
        for seg in it: segments
            invariant
                s == it.seq(),
                out@.len() == rewritten(s.take(it.index() as int)).len(),
                forall|j: int|
                    0 <= j < out@.len() ==> {
                        let src = rewritten(s.take(it.index() as int))[j];
                        &&& (#[trigger] out@[j]).name@ == src.name@
                        &&& out@[j].temp_name@ == temp_name(src.name@)
                        &&& compacted(out@[j].records@, src.records@)
                    },
        {
            let ghost i = it.index() as int;
            let ghost before = out@;
            proof {
                assert(s.take(i + 1).drop_last() =~= s.take(i));
                assert(s.take(i + 1).last() == seg);
            }
            if is_segment_file(seg.name.as_str()) && seg.records.len() > 0 {
                let temp = temp_file_name(seg.name.as_str());
                let records = compact(seg.records);
                out.push(Rewrite { name: seg.name, temp_name: temp, records });
                proof {
                    assert forall|j: int| 0 <= j < out@.len() implies {
                        let src = rewritten(s.take(i + 1))[j];
                        &&& (#[trigger] out@[j]).name@ == src.name@
                        &&& out@[j].temp_name@ == temp_name(src.name@)
                        &&& compacted(out@[j].records@, src.records@)
                    } by {
                        if j < before.len() {
                            assert(out@[j] == before[j]);
                        }
                    }
                }
            }
        }
        proof {
            assert(s.take(s.len() as int) =~= s);
        }
        out
    }

    /// The inventory of the files of the segment directory: for each its
    /// name, its size, the cell label and the bin start that the name
    /// shows, and whether the extension is that of the current format;
    /// sorted by cell label and bin start.
    pub fn list_segments(&self, entries: Vec<FileEntry>) -> (r: Vec<SegmentInfo>)
        ensures
            is_inventory_of(r@, entries@),
    {
        inventory_of(entries)
    }

    /// Rebuilds the indices. There are none: the store stays as it is.
    pub fn rebuild_indices(&mut self) -> (r: Result<(), SegmentError>)
        ensures
            r is Ok,
            *final(self) == *old(self),
    {
        Ok(())
    }

    /// The result of a range query from the records read for it: those of
    /// an instant from `t0` to `t1`, both included, that lie within the
    /// radius, sorted by time. Records of one instant stay in the order in
    /// which they were read, and a record read twice is returned twice.
    pub fn query_near(&self, found: Vec<Scanned>, t0: &Timestamp, t1: &Timestamp) -> (r: Vec<
        Observation,
    >)
        ensures
            stable_sort_of(r@, selected(found@, *t0, *t1)),
    {
        select_matches(found, t0, t1)
    }
}

} // verus!
