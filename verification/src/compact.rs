//! Compaction of one segment: one record for each identifier, then sorted
//! by time.
//!
//! Where an identifier occurs more than once, the record that stays stands
//! where the identifier first appeared and holds what was written last.

use crate::model::Observation;
use crate::sort::{lemma_sort_keeps_values, stable_sort, stable_sort_of};
use std::collections::HashMap;
use vstd::prelude::*;
use vstd::std_specs::hash::group_hash_axioms;

verus! {

/// The identifiers of `s`, each once, in the order in which they first
/// appear.
pub open spec fn first_ids(s: Seq<Observation>) -> Seq<u64>
    decreases s.len(),
{
    if s.len() == 0 {
        Seq::empty()
    } else {
        let ids = first_ids(s.drop_last());
        if ids.contains(s.last().obs_id) {
            ids
        } else {
            ids.push(s.last().obs_id)
        }
    }
}

/// The last observation of `s` that has the identifier `id`; arbitrary
/// where there is none.
pub open spec fn last_with_id(s: Seq<Observation>, id: u64) -> Observation
    decreases s.len(),
{
    if s.len() == 0 {
        arbitrary()
    } else if s.last().obs_id == id {
        s.last()
    } else {
        last_with_id(s.drop_last(), id)
    }
}

/// `s` with one observation left for each identifier: in the place where
/// the identifier first appears stands the last observation that has it.
pub open spec fn deduplicated(s: Seq<Observation>) -> Seq<Observation> {
    Seq::new(first_ids(s).len(), |j: int| last_with_id(s, first_ids(s)[j]))
}

/// Whether `r` is what compaction leaves of the records `s`: `s` without
/// its repeated identifiers, sorted by time, with records of one instant in
/// the order in which deduplication left them.
pub open spec fn compacted(r: Seq<Observation>, s: Seq<Observation>) -> bool {
    stable_sort_of(r, deduplicated(s))
}

/// No identifier is listed twice, and the listed ones are those that occur.
pub proof fn lemma_first_ids(s: Seq<Observation>)
    ensures
        first_ids(s).no_duplicates(),
        first_ids(s).len() <= s.len(),
        forall|id: u64|
            first_ids(s).contains(id) <==> exists|i: int|
                0 <= i < s.len() && (#[trigger] s[i]).obs_id == id,
    decreases s.len(),
{
    if s.len() > 0 {
        let init = s.drop_last();
        let ids = first_ids(init);
        let x = s.last().obs_id;
        lemma_first_ids(init);
        assert forall|id: u64| first_ids(s).contains(id) implies exists|i: int|
            0 <= i < s.len() && (#[trigger] s[i]).obs_id == id by {
            if ids.contains(id) {
                let i = choose|i: int| 0 <= i < init.len() && (#[trigger] init[i]).obs_id == id;
                assert(s[i] == init[i]);
            } else {
                let j = choose|j: int| 0 <= j < first_ids(s).len() && first_ids(s)[j] == id;
                assert(id == x);
                assert(s[s.len() - 1].obs_id == id);
            }
        }
        assert forall|id: u64|
            (exists|i: int| 0 <= i < s.len() && (#[trigger] s[i]).obs_id == id) implies first_ids(
            s,
        ).contains(id) by {
            let i = choose|i: int| 0 <= i < s.len() && (#[trigger] s[i]).obs_id == id;
            if i < s.len() - 1 {
                assert(init[i] == s[i]);
                assert(ids.contains(id));
                let j = choose|j: int| 0 <= j < ids.len() && ids[j] == id;
                assert(first_ids(s)[j] == id);
            } else {
                if ids.contains(x) {
                } else {
                    assert(first_ids(s)[ids.len() as int] == x);
                }
            }
        }
    }
}

/// Every record that deduplication leaves is a record of the input, and
/// it is the last one with its identifier.
pub proof fn lemma_last_with_id(s: Seq<Observation>, id: u64)
    requires
        exists|i: int| 0 <= i < s.len() && (#[trigger] s[i]).obs_id == id,
    ensures
        last_with_id(s, id).obs_id == id,
        exists|i: int|
            0 <= i < s.len() && #[trigger] s[i] == last_with_id(s, id) && forall|k: int|
                i < k < s.len() ==> (#[trigger] s[k]).obs_id != id,
    decreases s.len(),
{
    let w = choose|i: int| 0 <= i < s.len() && (#[trigger] s[i]).obs_id == id;
    if s.last().obs_id == id {
        assert(s[s.len() - 1] == last_with_id(s, id));
    } else {
        let init = s.drop_last();
        assert(init[w] == s[w]);
        lemma_last_with_id(init, id);
        let i = choose|i: int|
            0 <= i < init.len() && #[trigger] init[i] == last_with_id(init, id) && forall|k: int|
                i < k < init.len() ==> (#[trigger] init[k]).obs_id != id;
        assert(s[i] == init[i]);
        assert forall|k: int| i < k < s.len() implies (#[trigger] s[k]).obs_id != id by {
            if k < s.len() - 1 {
                assert(init[k] == s[k]);
            }
        }
    }
}

/// What deduplication leaves has one record for each identifier of the
/// input, and no identifier twice.
pub proof fn lemma_deduplicated_ids(s: Seq<Observation>)
    ensures
        deduplicated(s).len() == first_ids(s).len(),
        deduplicated(s).len() <= s.len(),
        forall|j: int|
            0 <= j < deduplicated(s).len() ==> (#[trigger] deduplicated(s)[j]).obs_id == first_ids(
                s,
            )[j],
        forall|j: int, k: int|
            0 <= j < k < deduplicated(s).len() ==> (#[trigger] deduplicated(s)[j]).obs_id != (
            #[trigger] deduplicated(s)[k]).obs_id,
{
    lemma_first_ids(s);
    let ids = first_ids(s);
    let d = deduplicated(s);
    assert forall|j: int| 0 <= j < d.len() implies (#[trigger] d[j]).obs_id == ids[j] by {
        assert(ids.contains(ids[j]));
        lemma_last_with_id(s, ids[j]);
    }
}

/// Compaction leaves, for every record of the input, the last record
/// that has its identifier, and leaves nothing else.
pub proof fn lemma_compaction_keeps_last(r: Seq<Observation>, s: Seq<Observation>, i: int)
    requires
        compacted(r, s),
        0 <= i < s.len(),
    ensures
        r.contains(last_with_id(s, s[i].obs_id)),
        r.len() == first_ids(s).len(),
        forall|o: Observation|
            r.contains(o) ==> exists|k: int|
                0 <= k < s.len() && (#[trigger] s[k]) == o && o == last_with_id(s, o.obs_id),
{
    let d = deduplicated(s);
    let ids = first_ids(s);
    lemma_first_ids(s);
    lemma_deduplicated_ids(s);
    let id = s[i].obs_id;
    assert(ids.contains(id));
    let j = choose|j: int| 0 <= j < ids.len() && ids[j] == id;
    assert(d[j] == last_with_id(s, id));
    lemma_sort_keeps_values(r, d, last_with_id(s, id));
    assert forall|o: Observation| r.contains(o) implies exists|k: int|
        0 <= k < s.len() && (#[trigger] s[k]) == o && o == last_with_id(s, o.obs_id) by {
        lemma_sort_keeps_values(r, d, o);
        let j = choose|j: int| 0 <= j < d.len() && d[j] == o;
        assert(ids.contains(ids[j]));
        lemma_last_with_id(s, ids[j]);
        let k = choose|k: int|
            0 <= k < s.len() && #[trigger] s[k] == last_with_id(s, ids[j]) && forall|m: int|
                k < m < s.len() ==> (#[trigger] s[m]).obs_id != ids[j];
        assert(s[k] == o);
    }
}

/// Leaves one observation for each identifier: it stands where the
/// identifier first appeared and is the last that was given with it.
pub fn deduplicate(obs: Vec<Observation>) -> (out: Vec<Observation>)
    ensures
        out@ == deduplicated(obs@),
{
    broadcast use group_hash_axioms;

    let ghost s = obs@;
    let mut slots: HashMap<u64, usize> = HashMap::new();
    let mut out: Vec<Observation> = Vec::new();
    proof {
        assert(s.take(0) =~= Seq::<Observation>::empty());
        assert(out@ =~= deduplicated(s.take(0)));
    }
    for o in it: obs
        invariant
            s == it.seq(),
            out@ == deduplicated(s.take(it.index() as int)),
            forall|id: u64|
                slots@.contains_key(id) <==> first_ids(s.take(it.index() as int)).contains(id),
            forall|id: u64| #[trigger]
                slots@.contains_key(id) ==> 0 <= slots@[id] < out@.len() && first_ids(
                    s.take(it.index() as int),
                )[slots@[id] as int] == id,
    {
        let ghost i = it.index() as int;
        let ghost done = s.take(i);
        let ghost next = s.take(i + 1);
        let ghost ids = first_ids(done);
        proof {
            assert(next.drop_last() =~= done);
            assert(next.last() == o);
            lemma_first_ids(done);
        }
        let found: Option<usize> = match slots.get(&o.obs_id) {
            Some(idx) => Some(*idx),
            None => None,
        };
        match found {
            Some(idx) => {
                proof {
                    assert(first_ids(next) == ids);
                    assert(out@.update(idx as int, o) =~= deduplicated(next)) by {
                        assert forall|j: int| 0 <= j < ids.len() implies out@.update(
                            idx as int,
                            o,
                        )[j] == last_with_id(next, ids[j]) by {
                            if j != idx {
                                assert(ids[j] != ids[idx as int]);
                            }
                        }
                    }
                }
                out[idx] = o;
            },
            None => {
                proof {
                    assert(first_ids(next) == ids.push(o.obs_id));
                    assert(out@.push(o) =~= deduplicated(next)) by {
                        assert forall|j: int| 0 <= j < ids.len() implies out@[j] == last_with_id(
                            next,
                            ids.push(o.obs_id)[j],
                        ) by {
                            assert(ids.contains(ids[j]));
                        }
                    }
                }
                slots.insert(o.obs_id, out.len());
                out.push(o);
                proof {
                    assert forall|id: u64|
                        slots@.contains_key(id) <==> first_ids(next).contains(id) by {
                        if id == o.obs_id {
                            assert(first_ids(next)[ids.len() as int] == id);
                        } else {
                            if ids.contains(id) {
                                let j = choose|j: int| 0 <= j < ids.len() && ids[j] == id;
                                assert(first_ids(next)[j] == id);
                            }
                            if first_ids(next).contains(id) {
                                let j = choose|j: int|
                                    0 <= j < first_ids(next).len() && first_ids(next)[j] == id;
                                assert(ids[j] == id);
                            }
                        }
                    }
                }
            },
        }
    }
    proof {
        assert(s.take(s.len() as int) =~= s);
    }
    out
}

/// Compacts the records of one segment: leaves one record for each
/// identifier and sorts what is left by time.
pub fn compact(obs: Vec<Observation>) -> (out: Vec<Observation>)
    ensures
        compacted(out@, obs@),
{
    stable_sort(deduplicate(obs))
}

} // verus!
