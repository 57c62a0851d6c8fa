//! Range queries: which partitions a query has to read, and which of the
//! records read it returns.

use crate::model::{Observation, Timestamp, MAX_SECS, MIN_SECS};
use crate::partition::{bin_start, time_bin_5min, PartitionKey};
use crate::segment::SegmentKind;
use crate::sort::{lemma_sort_keeps_values, stable_sort, stable_sort_of};
use std::collections::HashSet;
use vstd::prelude::*;
use vstd::std_specs::hash::group_hash_axioms;

verus! {

/// The edge of a cell in metres, rounded: a radius reaches one ring of
/// cells further for each edge length that it begins.
pub const CELL_EDGE_M: u32 = 170;

/// The widest ring of cells that a query reads. A radius that needs more
/// is searched no further, and matches beyond the ring are not found.
pub const MAX_RING: u32 = 8;

/// The ring that a query reads for a radius of `steps` begun edge lengths.
pub open spec fn spec_ring_size(steps: u32) -> u32 {
    if steps <= MAX_RING {
        steps
    } else {
        MAX_RING
    }
}

/// The ring that a query reads for a radius of `steps` begun edge lengths:
/// `steps`, and at most `MAX_RING`.
#[verifier::when_used_as_spec(spec_ring_size)]
pub fn ring_size(steps: u32) -> (k: u32)
    ensures
        k == spec_ring_size(steps),
{
    if steps <= MAX_RING {
        steps
    } else {
        MAX_RING
    }
}

/// The cells within grid distance `k` of `cell` as `h3o` lists them, each
/// as its 64-bit index; `None` where `cell` is no index of a cell.
pub uninterp spec fn grid_disk_cells(cell: u64, k: u32) -> Option<Seq<u64>>;

/// Calls `h3o::CellIndex::grid_disk` on the cell that `h3o::CellIndex::try_from`
/// makes of `cell`. The contract names the list and claims one thing of it:
/// it holds the cell itself, which is its ring 0.
#[verifier::external_body]
fn grid_disk(cell: u64, k: u32) -> (out: Option<Vec<u64>>)
    requires
        k <= MAX_RING,
    ensures
        out is Some <==> grid_disk_cells(cell, k) is Some,
        out matches Some(v) ==> grid_disk_cells(cell, k) == Some(v@) && v@.contains(cell),
{
    match h3o::CellIndex::try_from(cell) {
        Ok(c) => Some(c.grid_disk::<Vec<h3o::CellIndex>>(k).into_iter().map(u64::from).collect()),
        Err(_) => None,
    }
}

/// `s` with each value kept where it first stands.
pub open spec fn without_repeats(s: Seq<u64>) -> Seq<u64>
    decreases s.len(),
{
    if s.len() == 0 {
        Seq::empty()
    } else {
        let r = without_repeats(s.drop_last());
        if r.contains(s.last()) {
            r
        } else {
            r.push(s.last())
        }
    }
}

/// A list without its repeats holds the same values, each once.
pub proof fn lemma_without_repeats(s: Seq<u64>)
    ensures
        without_repeats(s).no_duplicates(),
        forall|c: u64| without_repeats(s).contains(c) <==> s.contains(c),
    decreases s.len(),
{
    if s.len() > 0 {
        let init = s.drop_last();
        let r = without_repeats(init);
        lemma_without_repeats(init);
        let w = without_repeats(s);
        assert forall|c: u64| w.contains(c) implies s.contains(c) by {
            let j = choose|j: int| 0 <= j < w.len() && w[j] == c;
            if j < r.len() {
                assert(r[j] == c);
                assert(r.contains(c));
                assert(init.contains(c));
                let i = choose|i: int| 0 <= i < init.len() && init[i] == c;
                assert(s[i] == c);
            } else {
                assert(s[s.len() - 1] == c);
            }
        }
        assert forall|c: u64| s.contains(c) implies w.contains(c) by {
            let i = choose|i: int| 0 <= i < s.len() && s[i] == c;
            if i < init.len() {
                assert(init[i] == c);
                assert(init.contains(c));
                assert(r.contains(c));
                let j = choose|j: int| 0 <= j < r.len() && r[j] == c;
                assert(w[j] == c);
            } else {
                if r.contains(c) {
                    let j = choose|j: int| 0 <= j < r.len() && r[j] == c;
                    assert(w[j] == c);
                } else {
                    assert(w[r.len() as int] == c);
                }
            }
        }
    }
}

/// The cells that a query around `center` reads: those within `ring_size(steps)`
/// of it, each once, in the order of the grid disk.
pub open spec fn spec_candidate_cells(center: u64, steps: u32) -> Option<Seq<u64>> {
    match grid_disk_cells(center, spec_ring_size(steps)) {
        Some(disk) => Some(without_repeats(disk)),
        None => None,
    }
}

/// The cells that a query around the cell `center` reads, for a radius of
/// `steps` begun edge lengths. `None` where `center` is no cell. The
/// center is among them.
pub fn candidate_cells(center: u64, steps: u32) -> (r: Option<Vec<u64>>)
    ensures
        match r {
            Some(v) => spec_candidate_cells(center, steps) == Some(v@) && v@.contains(center)
                && v@.no_duplicates(),
            None => spec_candidate_cells(center, steps) is None,
        },
{
    broadcast use group_hash_axioms;

    let k = ring_size(steps);
    let disk = match grid_disk(center, k) {
        Some(d) => d,
        None => {
            return None;
        },
    };
    let mut seen: HashSet<u64> = HashSet::new();
    let mut out: Vec<u64> = Vec::new();
    let mut i: usize = 0;
    proof {
        assert(disk@.take(0) =~= Seq::<u64>::empty());
    }
    while i < disk.len()
        invariant
            i <= disk.len(),
            out@ == without_repeats(disk@.take(i as int)),
            forall|c: u64| seen@.contains(c) <==> out@.contains(c),
        decreases disk.len() - i,
    {
        let c = disk[i];
        proof {
            assert(disk@.take(i + 1).drop_last() =~= disk@.take(i as int));
            assert(disk@.take(i + 1).last() == c);
        }
        let ghost before = out@;
        if seen.insert(c) {
            out.push(c);
            proof {
                assert forall|d: u64| seen@.contains(d) <==> out@.contains(d) by {
                    if d == c {
                        assert(out@[before.len() as int] == c);
                    } else {
                        if before.contains(d) {
                            let j = choose|j: int| 0 <= j < before.len() && before[j] == d;
                            assert(out@[j] == d);
                        }
                        if out@.contains(d) {
                            let j = choose|j: int| 0 <= j < out@.len() && out@[j] == d;
                            assert(before[j] == d);
                        }
                    }
                }
            }
        }
        i += 1;
    }
    proof {
        assert(disk@.take(i as int) =~= disk@);
        lemma_without_repeats(disk@);
    }
    Some(out)
}

/// The starts of the bins from `lo` to `hi`, one bin width apart.
pub open spec fn bin_seq(lo: int, hi: int) -> Seq<i64> {
    Seq::new(
        if lo > hi {
            0nat
        } else {
            ((hi - lo) / 300 + 1) as nat
        },
        |i: int| (lo + 300 * i) as i64,
    )
}

/// The bins that a query for the instants from `t0` to `t1` reads: every
/// bin from the bin of `t0` to the bin after the bin of `t1`.
pub open spec fn spec_candidate_bins(t0: Timestamp, t1: Timestamp) -> Seq<i64> {
    bin_seq(bin_start(t0.spec_secs() as int), bin_start(t1.spec_secs() as int) + 300)
}

/// The bins that a query for the instants from `t0` to `t1` reads, in
/// rising order.
pub fn candidate_bins(t0: &Timestamp, t1: &Timestamp) -> (bins: Vec<i64>)
    ensures
        bins@ == spec_candidate_bins(*t0, *t1),
{
    let lo = time_bin_5min(t0);
    let hi = time_bin_5min(t1) + 300;
    let mut out: Vec<i64> = Vec::new();
    let mut b = lo;
    while b <= hi
        invariant
            MIN_SECS - 300 <= lo <= MAX_SECS,
            hi <= MAX_SECS + 300,
            lo <= b,
            b <= hi + 300 || out@.len() == 0,
            b == lo + 300 * out@.len(),
            forall|i: int| 0 <= i < out@.len() ==> out@[i] == lo + 300 * i,
        decreases hi - b + 300,
    {
        out.push(b);
        b += 300;
    }
    proof {
        assert(out@ =~= bin_seq(lo as int, hi as int));
    }
    out
}

/// The bin of every instant from `t0` to `t1` is among the bins that a
/// query for that range reads.
pub proof fn lemma_candidate_bins_cover(t0: Timestamp, t1: Timestamp, t: Timestamp)
    requires
        t0.wf(),
        t1.wf(),
        t.wf(),
        t0.spec_not_after(&t),
        t.spec_not_after(&t1),
    ensures
        spec_candidate_bins(t0, t1).contains(bin_start(t.spec_secs() as int) as i64),
{
    let lo = bin_start(t0.spec_secs() as int);
    let hi = bin_start(t1.spec_secs() as int) + 300;
    let b = bin_start(t.spec_secs() as int);
    let i = (b - lo) / 300;
    assert(lo <= b <= hi - 300);
    assert((b - lo) % 300 == 0);
    assert(lo + 300 * i == b);
    assert(0 <= i < spec_candidate_bins(t0, t1).len());
    assert(spec_candidate_bins(t0, t1)[i] == b as i64);
}

/// The keys of one cell with each of `bins`.
pub open spec fn row(cell: u64, bins: Seq<i64>) -> Seq<PartitionKey> {
    Seq::new(bins.len(), |i: int| PartitionKey { cell, bin: bins[i] })
}

/// Every key of a cell of `cells` with a bin of `bins`: cell by cell, and
/// for each cell bin by bin.
pub open spec fn pairs(cells: Seq<u64>, bins: Seq<i64>) -> Seq<PartitionKey>
    decreases cells.len(),
{
    if cells.len() == 0 {
        Seq::empty()
    } else {
        pairs(cells.drop_last(), bins) + row(cells.last(), bins)
    }
}

/// A key is among the pairs exactly where its cell is among the cells and
/// its bin among the bins.
pub proof fn lemma_pairs_contain(cells: Seq<u64>, bins: Seq<i64>, key: PartitionKey)
    ensures
        pairs(cells, bins).contains(key) <==> cells.contains(key.cell) && bins.contains(key.bin),
    decreases cells.len(),
{
    if cells.len() > 0 {
        let init = cells.drop_last();
        let last = cells.last();
        let p = pairs(init, bins);
        let r = row(last, bins);
        lemma_pairs_contain(init, bins, key);
        if pairs(cells, bins).contains(key) {
            let j = choose|j: int| 0 <= j < (p + r).len() && (p + r)[j] == key;
            if j < p.len() {
                assert(p[j] == key);
                let i = choose|i: int| 0 <= i < init.len() && init[i] == key.cell;
                assert(cells[i] == key.cell);
            } else {
                assert(r[j - p.len()] == key);
                assert(cells[cells.len() - 1] == key.cell);
                assert(bins[j - p.len()] == key.bin);
            }
        }
        if cells.contains(key.cell) && bins.contains(key.bin) {
            let b = choose|b: int| 0 <= b < bins.len() && bins[b] == key.bin;
            if key.cell == last {
                assert(r[b] == key);
                assert((p + r)[p.len() + b] == key);
            } else {
                let i = choose|i: int| 0 <= i < cells.len() && cells[i] == key.cell;
                assert(init[i] == key.cell);
                let j = choose|j: int| 0 <= j < p.len() && p[j] == key;
                assert((p + r)[j] == key);
            }
        }
    }
}

/// The partitions that a query reads.
pub open spec fn spec_candidates(center: u64, steps: u32, t0: Timestamp, t1: Timestamp) -> Option<
    Seq<PartitionKey>,
> {
    match spec_candidate_cells(center, steps) {
        Some(cells) => Some(pairs(cells, spec_candidate_bins(t0, t1))),
        None => None,
    }
}

/// The partition of the cell `cell` at the instant `t`.
pub open spec fn key_at(cell: u64, t: Timestamp) -> PartitionKey {
    PartitionKey { cell, bin: bin_start(t.spec_secs() as int) as i64 }
}

/// Whether `keys` holds the partition of the center cell at every instant
/// of the window: what was stored at the center within the window is read.
pub open spec fn covers_center(
    keys: Seq<PartitionKey>,
    center: u64,
    t0: Timestamp,
    t1: Timestamp,
) -> bool {
    forall|t: Timestamp|
        t.wf() && in_window(t, t0, t1) ==> keys.contains(#[trigger] key_at(center, t))
}

/// Every key of a cell of `cells` with a bin of `bins`.
pub fn partition_pairs(cells: &Vec<u64>, bins: &Vec<i64>) -> (out: Vec<PartitionKey>)
    ensures
        out@ == pairs(cells@, bins@),
{
    let mut out: Vec<PartitionKey> = Vec::new();
    let mut i: usize = 0;
    proof {
        assert(cells@.take(0) =~= Seq::<u64>::empty());
    }
    while i < cells.len()
        invariant
            i <= cells.len(),
            out@ == pairs(cells@.take(i as int), bins@),
        decreases cells.len() - i,
    {
        let cell = cells[i];
        let ghost before = out@;
        let mut j: usize = 0;
        proof {
            assert(before + row(cell, bins@).take(0) =~= before);
        }
        while j < bins.len()
            invariant
                j <= bins.len(),
                out@ == before + row(cell, bins@).take(j as int),
            decreases bins.len() - j,
        {
            out.push(PartitionKey { cell, bin: bins[j] });
            proof {
                assert(out@ =~= before + row(cell, bins@).take(j + 1));
            }
            j += 1;
        }
        proof {
            assert(row(cell, bins@).take(j as int) =~= row(cell, bins@));
            assert(cells@.take(i + 1).drop_last() =~= cells@.take(i as int));
            assert(cells@.take(i + 1).last() == cell);
        }
        i += 1;
    }
    proof {
        assert(cells@.take(i as int) =~= cells@);
    }
    out
}

/// The partitions that a query reads: each cell within the ring around
/// `center` with each bin from the bin of `t0` to the bin after the bin of
/// `t1`. `None` where `center` is no cell.
pub fn query_candidates(center: u64, steps: u32, t0: &Timestamp, t1: &Timestamp) -> (r: Option<
    Vec<PartitionKey>,
>)
    ensures
        match r {
            Some(v) => spec_candidates(center, steps, *t0, *t1) == Some(v@) && covers_center(
                v@,
                center,
                *t0,
                *t1,
            ),
            None => spec_candidates(center, steps, *t0, *t1) is None,
        },
{
    match candidate_cells(center, steps) {
        Some(cells) => {
            let bins = candidate_bins(t0, t1);
            let out = partition_pairs(&cells, &bins);
            proof {
                use_type_invariant(t0);
                use_type_invariant(t1);
                assert forall|t: Timestamp| t.wf() && in_window(t, *t0, *t1) implies out@.contains(
                    #[trigger] key_at(center, t),
                ) by {
                    lemma_candidate_bins_cover(*t0, *t1, t);
                    lemma_pairs_contain(cells@, bins@, key_at(center, t));
                }
            }
            Some(out)
        },
        None => None,
    }
}

/// Which file of a partition a query reads: the one in the current format
/// where there is one, else the legacy one where there is one.
pub fn choose_segment(current_exists: bool, legacy_exists: bool) -> (r: Option<SegmentKind>)
    ensures
        r == if current_exists {
            Some(SegmentKind::Current)
        } else if legacy_exists {
            Some(SegmentKind::Legacy)
        } else {
            None::<SegmentKind>
        },
{
    if current_exists {
        Some(SegmentKind::Current)
    } else if legacy_exists {
        Some(SegmentKind::Legacy)
    } else {
        None
    }
}

/// A record that a query has read, with the caller's finding whether its
/// great-circle distance from the center is within the radius.
#[derive(Clone, Debug, PartialEq, Eq)]
pub struct Scanned {
    pub obs: Observation,
    pub within_radius: bool,
}

/// Whether a query for the instants from `t0` to `t1`, both included,
/// returns the record.
pub open spec fn is_match(s: Scanned, t0: Timestamp, t1: Timestamp) -> bool {
    in_window(s.obs.t, t0, t1) && s.within_radius
}

/// The observations among `found` that the query returns, in the order in
/// which they were read.
pub open spec fn selected(found: Seq<Scanned>, t0: Timestamp, t1: Timestamp) -> Seq<Observation>
    decreases found.len(),
{
    if found.len() == 0 {
        Seq::empty()
    } else if is_match(found.last(), t0, t1) {
        selected(found.drop_last(), t0, t1).push(found.last().obs)
    } else {
        selected(found.drop_last(), t0, t1)
    }
}

/// Whether `t` lies in the window from `t0` to `t1`, both included.
pub open spec fn in_window(t: Timestamp, t0: Timestamp, t1: Timestamp) -> bool {
    t0.spec_not_after(&t) && t.spec_not_after(&t1)
}

/// Whether `a` is strictly before `b`.
pub open spec fn before(a: Timestamp, b: Timestamp) -> bool {
    !b.spec_not_after(&a)
}

/// The window of a query is closed: both of its ends lie in it, and no
/// instant before its start or after its end does, however close.
pub proof fn lemma_window_closed(t0: Timestamp, t1: Timestamp, t: Timestamp)
    requires
        t0.spec_not_after(&t1),
    ensures
        in_window(t0, t0, t1),
        in_window(t1, t0, t1),
        before(t, t0) ==> !in_window(t, t0, t1),
        before(t1, t) ==> !in_window(t, t0, t1),
{
}

/// A query returns a record that it read exactly where the record's
/// instant lies in the window and the record lies within the radius.
pub proof fn lemma_selected_contains(found: Seq<Scanned>, t0: Timestamp, t1: Timestamp, i: int)
    requires
        0 <= i < found.len(),
    ensures
        is_match(found[i], t0, t1) ==> selected(found, t0, t1).contains(found[i].obs),
        forall|o: Observation|
            selected(found, t0, t1).contains(o) ==> exists|j: int|
                0 <= j < found.len() && (#[trigger] found[j]).obs == o && is_match(
                    found[j],
                    t0,
                    t1,
                ),
    decreases found.len(),
{
    let init = found.drop_last();
    let sel = selected(found, t0, t1);
    let sel_init = selected(init, t0, t1);
    if found.len() > 1 {
        lemma_selected_contains(init, t0, t1, 0);
    }
    assert forall|o: Observation| sel.contains(o) implies exists|j: int|
        0 <= j < found.len() && (#[trigger] found[j]).obs == o && is_match(found[j], t0, t1) by {
        let k = choose|k: int| 0 <= k < sel.len() && sel[k] == o;
        if k < sel_init.len() {
            assert(sel_init[k] == o);
            assert(sel_init.contains(o));
            let j = choose|j: int|
                0 <= j < init.len() && (#[trigger] init[j]).obs == o && is_match(init[j], t0, t1);
            assert(found[j] == init[j]);
        } else {
            assert(found[found.len() - 1].obs == o);
        }
    }
    if is_match(found[i], t0, t1) {
        if i == found.len() - 1 {
            assert(sel[sel.len() - 1] == found[i].obs);
        } else {
            assert(init[i] == found[i]);
            lemma_selected_contains(init, t0, t1, i);
            let k = choose|k: int| 0 <= k < sel_init.len() && sel_init[k] == found[i].obs;
            assert(sel[k] == found[i].obs);
        }
    }
}

/// The result of a query holds every record read for it whose instant
/// lies in the window and which lies within the radius, and nothing that
/// was not read or does not match.
pub proof fn lemma_result_is_the_matches(
    r: Seq<Observation>,
    found: Seq<Scanned>,
    t0: Timestamp,
    t1: Timestamp,
    i: int,
)
    requires
        stable_sort_of(r, selected(found, t0, t1)),
        0 <= i < found.len(),
    ensures
        is_match(found[i], t0, t1) ==> r.contains(found[i].obs),
        forall|o: Observation|
            r.contains(o) ==> exists|j: int|
                0 <= j < found.len() && (#[trigger] found[j]).obs == o && is_match(
                    found[j],
                    t0,
                    t1,
                ),
{
    let sel = selected(found, t0, t1);
    lemma_selected_contains(found, t0, t1, i);
    lemma_sort_keeps_values(r, sel, found[i].obs);
    assert forall|o: Observation| r.contains(o) implies exists|j: int|
        0 <= j < found.len() && (#[trigger] found[j]).obs == o && is_match(found[j], t0, t1) by {
        lemma_sort_keeps_values(r, sel, o);
    }
}

/// The result of a query from the records read for it: those of an instant
/// from `t0` to `t1` that lie within the radius, sorted by time; records of
/// one instant stay in the order in which they were read. A record read
/// twice is returned twice.
pub fn select_matches(found: Vec<Scanned>, t0: &Timestamp, t1: &Timestamp) -> (r: Vec<Observation>)
    ensures
        stable_sort_of(r@, selected(found@, *t0, *t1)),
{
    let ghost s = found@;
    let mut kept: Vec<Observation> = Vec::new();
    proof {
        assert(s.take(0) =~= Seq::<Scanned>::empty());
    }
    for x in it: found
        invariant
            s == it.seq(),
            kept@ == selected(s.take(it.index() as int), *t0, *t1),
    {
        proof {
            let i = it.index() as int;
            assert(s.take(i + 1).drop_last() =~= s.take(i));
            assert(s.take(i + 1).last() == x);
        }
        if t0.not_after(&x.obs.t) && x.obs.t.not_after(t1) && x.within_radius {
            kept.push(x.obs);
        }
    }
    proof {
        assert(s.take(s.len() as int) =~= s);
    }
    stable_sort(kept)
}

} // verus!
