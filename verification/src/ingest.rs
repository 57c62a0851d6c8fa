//! Ingestion: a batch of observations is split by partition, and each
//! partition's share is appended to its segment in one write.
//!
//! Nothing is deduplicated here: an observation that is ingested twice is
//! stored twice, until compaction.

use crate::model::Observation;
use crate::partition::{bin_start, time_bin_5min, PartitionKey};
use std::collections::HashMap;
use vstd::prelude::*;
use vstd::std_specs::hash::group_hash_axioms;

verus! {

/// The number of observations that a bulk load hands to ingestion at a
/// time.
pub const BULK_BATCH: usize = 10_000;

/// An observation together with the cell that holds its position.
#[derive(Clone, Debug, PartialEq, Eq)]
pub struct Located {
    pub obs: Observation,
    pub cell: u64,
}

/// The share of one partition in a batch: the places in the batch of the
/// observations that belong to it.
#[derive(Clone, Debug, PartialEq, Eq)]
pub struct Group {
    pub key: PartitionKey,
    pub members: Vec<usize>,
}

/// The partition of an observation: its cell and the bin of its instant.
pub open spec fn key_of(x: Located) -> PartitionKey {
    PartitionKey { cell: x.cell, bin: bin_start(x.obs.t.spec_secs() as int) as i64 }
}

/// The partition keys of a batch, each once, in the order in which they
/// first appear.
pub open spec fn first_keys(batch: Seq<Located>) -> Seq<PartitionKey>
    decreases batch.len(),
{
    if batch.len() == 0 {
        Seq::empty()
    } else {
        let keys = first_keys(batch.drop_last());
        if keys.contains(key_of(batch.last())) {
            keys
        } else {
            keys.push(key_of(batch.last()))
        }
    }
}

/// The places in a batch of the observations of partition `key`, in
/// rising order.
pub open spec fn positions(batch: Seq<Located>, key: PartitionKey) -> Seq<usize>
    decreases batch.len(),
{
    if batch.len() == 0 {
        Seq::empty()
    } else {
        let p = positions(batch.drop_last(), key);
        if key_of(batch.last()) == key {
            p.push((batch.len() - 1) as usize)
        } else {
            p
        }
    }
}

/// Whether `groups` is the split of `batch` by partition: one group for
/// each partition that occurs, in the order in which the partitions first
/// appear, each with the places of all its observations in batch order.
pub open spec fn is_split_of(groups: Seq<Group>, batch: Seq<Located>) -> bool {
    &&& groups.len() == first_keys(batch).len()
    &&& forall|g: int|
        0 <= g < groups.len() ==> (#[trigger] groups[g]).key == first_keys(batch)[g]
            && groups[g].members@ == positions(batch, first_keys(batch)[g])
}

/// Observations of one cell and one second belong to one partition.
pub proof fn lemma_key_determined(a: Located, b: Located)
    requires
        a.cell == b.cell,
        a.obs.t.spec_secs() == b.obs.t.spec_secs(),
    ensures
        key_of(a) == key_of(b),
{
}

/// No partition is listed twice.
pub proof fn lemma_first_keys_distinct(batch: Seq<Located>)
    ensures
        first_keys(batch).no_duplicates(),
    decreases batch.len(),
{
    if batch.len() > 0 {
        lemma_first_keys_distinct(batch.drop_last());
    }
}

/// The places listed for a partition are places of the batch that hold an
/// observation of that partition, in strictly rising order.
pub proof fn lemma_positions(batch: Seq<Located>, key: PartitionKey)
    requires
        batch.len() <= usize::MAX,
    ensures
        forall|j: int|
            0 <= j < positions(batch, key).len() ==> (#[trigger] positions(batch, key)[j])
                < batch.len() && key_of(batch[positions(batch, key)[j] as int]) == key,
        forall|j: int, k: int|
            0 <= j < k < positions(batch, key).len() ==> positions(batch, key)[j] < positions(
                batch,
                key,
            )[k],
    decreases batch.len(),
{
    if batch.len() > 0 {
        let init = batch.drop_last();
        lemma_positions(init, key);
        let p = positions(init, key);
        let q = positions(batch, key);
        assert forall|j: int| 0 <= j < q.len() implies (#[trigger] q[j]) < batch.len() && key_of(
            batch[q[j] as int],
        ) == key by {
            if j < p.len() {
                assert(q[j] == p[j]);
                assert(p[j] < init.len());
                assert(batch[p[j] as int] == init[p[j] as int]);
            } else {
                assert(q[j] == (batch.len() - 1) as usize);
            }
        }
        assert forall|j: int, k: int| 0 <= j < k < q.len() implies q[j] < q[k] by {
            assert(q[j] == p[j]);
            assert(p[j] < init.len());
            if k < p.len() {
                assert(q[k] == p[k]);
            }
        }
    }
}

/// Every observation of a batch is in the share of its own partition, and
/// that partition is among those listed.
pub proof fn lemma_split_covers(batch: Seq<Located>, i: int)
    requires
        0 <= i < batch.len() <= usize::MAX,
    ensures
        first_keys(batch).contains(key_of(batch[i])),
        positions(batch, key_of(batch[i])).contains(i as usize),
    decreases batch.len(),
{
    let init = batch.drop_last();
    let keys = first_keys(init);
    let key = key_of(batch[i]);
    let p = positions(init, key);
    if i < batch.len() - 1 {
        assert(init[i] == batch[i]);
        lemma_split_covers(init, i);
        let g = choose|g: int| 0 <= g < keys.len() && keys[g] == key;
        assert(first_keys(batch)[g] == key);
        let j = choose|j: int| 0 <= j < p.len() && p[j] == i as usize;
        assert(positions(batch, key)[j] == i as usize);
    } else {
        assert(positions(batch, key)[p.len() as int] == i as usize);
        if keys.contains(key) {
            let g = choose|g: int| 0 <= g < keys.len() && keys[g] == key;
            assert(first_keys(batch)[g] == key);
        } else {
            assert(first_keys(batch)[keys.len() as int] == key);
        }
    }
}

/// A partition key as one number: the cell in the upper 64 bits, the bin,
/// counted from the least 64-bit integer, in the lower.
pub open spec fn packed(key: PartitionKey) -> u128 {
    (key.cell * 0x1_0000_0000_0000_0000 + (key.bin + 0x8000_0000_0000_0000)) as u128
}

fn pack(key: &PartitionKey) -> (p: u128)
    ensures
        p == packed(*key),
{
    let low: u128 = (key.bin as i128 + 0x8000_0000_0000_0000i128) as u128;
    (key.cell as u128) * 0x1_0000_0000_0000_0000u128 + low
}

proof fn lemma_packed_injective(a: PartitionKey, b: PartitionKey)
    requires
        packed(a) == packed(b),
    ensures
        a == b,
{
}

/// Splits a batch by partition, each observation by its own cell and the
/// bin of its own instant. The groups stand in the order in which their
/// partitions first appear in the batch, and each lists its observations
/// in batch order.
pub fn split_by_partition(batch: &Vec<Located>) -> (groups: Vec<Group>)
    ensures
        is_split_of(groups@, batch@),
{
    broadcast use group_hash_axioms;

    let ghost s = batch@;
    let mut slots: HashMap<u128, usize> = HashMap::new();
    let mut groups: Vec<Group> = Vec::new();
    let mut i: usize = 0;
    proof {
        assert(s.take(0) =~= Seq::<Located>::empty());
    }
    while i < batch.len()
        invariant
            i <= batch.len(),
            s == batch@,
            is_split_of(groups@, s.take(i as int)),
            forall|key: PartitionKey| #[trigger]
                slots@.contains_key(packed(key)) <==> first_keys(s.take(i as int)).contains(key),
            forall|key: PartitionKey| #[trigger]
                slots@.contains_key(packed(key)) ==> 0 <= slots@[packed(key)] < groups@.len()
                    && first_keys(s.take(i as int))[slots@[packed(key)] as int] == key,
        decreases batch.len() - i,
    {
        let ghost done = s.take(i as int);
        let ghost next = s.take(i + 1);
        let ghost keys = first_keys(done);
        let key = PartitionKey { cell: batch[i].cell, bin: time_bin_5min(&batch[i].obs.t) };
        proof {
            assert(next.drop_last() =~= done);
            assert(next.last() == s[i as int]);
            assert(key == key_of(s[i as int]));
            lemma_first_keys_distinct(done);
        }
        let code = pack(&key);
        let found: Option<usize> = match slots.get(&code) {
            Some(g) => Some(*g),
            None => None,
        };
        match found {
            Some(g) => {
                let ghost old_groups = groups@;
                groups[g].members.push(i);
                proof {
                    assert(first_keys(next) == keys);
                    assert(groups@.len() == old_groups.len());
                    assert forall|h: int| 0 <= h < groups@.len() implies (#[trigger] groups@[h]).key
                        == first_keys(next)[h] && groups@[h].members@ == positions(
                        next,
                        first_keys(next)[h],
                    ) by {
                        if h != g {
                            assert(groups@[h] == old_groups[h]);
                            assert(keys[h] != keys[g as int]);
                        }
                    }
                }
            },
            None => {
                let mut members: Vec<usize> = Vec::new();
                members.push(i);
                let ghost old_groups = groups@;
                slots.insert(code, groups.len());
                groups.push(Group { key, members });
                proof {
                    assert(!keys.contains(key));
                    assert(first_keys(next) == keys.push(key));
                    assert forall|h: int| 0 <= h < groups@.len() implies (#[trigger] groups@[h]).key
                        == first_keys(next)[h] && groups@[h].members@ == positions(
                        next,
                        first_keys(next)[h],
                    ) by {
                        if h < old_groups.len() {
                            assert(groups@[h] == old_groups[h]);
                            assert(keys.contains(keys[h]));
                        } else {
                            lemma_no_positions(done, key);
                            assert(groups@[h].members@ =~= positions(next, key));
                        }
                    }
                    assert forall|k: PartitionKey| #[trigger]
                        slots@.contains_key(packed(k)) <==> first_keys(next).contains(k) by {
                        if packed(k) == packed(key) {
                            lemma_packed_injective(k, key);
                            assert(first_keys(next)[keys.len() as int] == key);
                        } else {
                            if keys.contains(k) {
                                let j = choose|j: int| 0 <= j < keys.len() && keys[j] == k;
                                assert(first_keys(next)[j] == k);
                            }
                            if first_keys(next).contains(k) {
                                let j = choose|j: int|
                                    0 <= j < first_keys(next).len() && first_keys(next)[j] == k;
                                assert(keys[j] == k);
                            }
                        }
                    }
                    assert forall|k: PartitionKey| #[trigger]
                        slots@.contains_key(packed(k)) implies 0 <= slots@[packed(k)]
                        < groups@.len() && first_keys(next)[slots@[packed(k)] as int] == k by {
                        if packed(k) == packed(key) {
                            lemma_packed_injective(k, key);
                        }
                    }
                }
            },
        }
        i += 1;
    }
    proof {
        assert(s.take(i as int) =~= s);
    }
    groups
}

/// A partition that no observation of the batch belongs to has no places.
proof fn lemma_no_positions(batch: Seq<Located>, key: PartitionKey)
    requires
        !first_keys(batch).contains(key),
    ensures
        positions(batch, key) == Seq::<usize>::empty(),
    decreases batch.len(),
{
    if batch.len() > 0 {
        let init = batch.drop_last();
        let keys = first_keys(init);
        if keys.contains(key) {
            let j = choose|j: int| 0 <= j < keys.len() && keys[j] == key;
            assert(first_keys(batch)[j] == key);
        }
        if key_of(batch.last()) == key {
            if keys.contains(key) {
            } else {
                assert(first_keys(batch)[keys.len() as int] == key);
            }
        }
        lemma_no_positions(init, key);
    }
}

} // verus!
