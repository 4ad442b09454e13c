//! Dependency operations between diffs: which diff recipes read changed audio, directly or
//! through another diff, and in which order they have to be recomputed.
use std::collections::{BTreeMap, HashMap, HashSet};
use vstd::prelude::*;
use crate::track_selection::TrackId;
use vstd::std_specs::cmp::OrdSpec;
use vstd::std_specs::iter::IteratorSpec;

verus! {

broadcast use {
    vstd::std_specs::hash::group_hash_axioms,
    vstd::std_specs::btree::group_btree_axioms,
    vstd::laws_cmp::group_laws_cmp,
};

/// Identifier of an audio buffer.
pub type BufferId = u64;

/// A time domain view of two audio buffers and their difference.
#[derive(Debug, PartialEq, Eq, Structural, Clone, Copy)]
pub struct Diff {
    /// This buffer holds `buffer_a - buffer_b`.
    pub buffer_id_diff: BufferId,
    pub buffer_id_a: BufferId,
    pub buffer_id_b: BufferId,
    /// Positions of the two inputs on the absolute sample timeline.
    pub sample_ix_offset_a: i64,
    pub sample_ix_offset_b: i64,
    /// Offset that places the computed diff buffer on the same absolute timeline.
    pub sample_ix_offset_diff: i64,
}

/// Whether the diff reads one of the buffers in `ids`.
pub open spec fn reads_any(d: Diff, ids: Set<BufferId>) -> bool {
    ids.contains(d.buffer_id_a) || ids.contains(d.buffer_id_b)
}

/// `ids` holds the output of every diff of `topology` that reads a buffer of `ids`.
pub open spec fn closed_under(topology: Seq<(BufferId, Diff)>, ids: Set<BufferId>) -> bool {
    forall|i: int|
        0 <= i < topology.len() && #[trigger] reads_any(topology[i].1, ids) ==> ids.contains(
            topology[i].1.buffer_id_diff,
        )
}

/// A buffer is dirty when it lies in every set that holds the changed buffers and is closed
/// under the diffs of `topology`: it is changed, or the output of a diff that reads a dirty
/// buffer.
pub open spec fn is_dirty(
    topology: Seq<(BufferId, Diff)>,
    changed: Set<BufferId>,
    id: BufferId,
) -> bool {
    forall|s: Set<BufferId>|
        changed.subset_of(s) && #[trigger] closed_under(topology, s) ==> s.contains(id)
}

/// The set of dirty buffers.
pub open spec fn dirty_set(topology: Seq<(BufferId, Diff)>, changed: Set<BufferId>) -> Set<
    BufferId,
> {
    Set::new(|id: BufferId| is_dirty(topology, changed, id))
}

/// The entries of `topology` whose output is dirty, in topology order.
pub open spec fn dirty_entries(topology: Seq<(BufferId, Diff)>, changed: Set<BufferId>) -> Seq<
    (BufferId, Diff),
> {
    topology.filter(|e: (BufferId, Diff)| is_dirty(topology, changed, e.1.buffer_id_diff))
}

/// Some entry of `r` outputs `id`.
pub open spec fn produces(r: Seq<(BufferId, Diff)>, id: BufferId) -> bool {
    exists|j: int| 0 <= j < r.len() && (#[trigger] r[j]).1.buffer_id_diff == id
}

/// Neither input of `d` is the output of an entry of `r`.
pub open spec fn is_ready(r: Seq<(BufferId, Diff)>, d: Diff) -> bool {
    !produces(r, d.buffer_id_a) && !produces(r, d.buffer_id_b)
}

/// Index of the first ready entry of `r` at or after `k`, or `r.len()` when there is none.
pub open spec fn first_ready_from(r: Seq<(BufferId, Diff)>, k: int) -> int
    decreases r.len() - k,
{
    if k < 0 || k >= r.len() {
        r.len() as int
    } else if is_ready(r, r[k].1) {
        k
    } else {
        first_ready_from(r, k + 1)
    }
}

/// Repeatedly take out the first entry that reads no output of the entries still left,
/// until none is left or every entry left waits for another one.
pub open spec fn ready_order(r: Seq<(BufferId, Diff)>) -> Seq<(BufferId, Diff)>
    decreases r.len(),
{
    let i = first_ready_from(r, 0);
    if i < 0 || i >= r.len() {
        seq![]
    } else {
        seq![r[i]].add(ready_order(r.remove(i)))
    }
}

proof fn lemma_first_ready_from(r: Seq<(BufferId, Diff)>, k: int)
    requires
        0 <= k <= r.len(),
    ensures
        k <= first_ready_from(r, k) <= r.len(),
        first_ready_from(r, k) < r.len() ==> is_ready(r, r[first_ready_from(r, k)].1),
        forall|j: int| k <= j < first_ready_from(r, k) ==> !is_ready(r, #[trigger] r[j].1),
    decreases r.len() - k,
{
    if k < r.len() && !is_ready(r, r[k].1) {
        lemma_first_ready_from(r, k + 1);
    }
}

/// Find all diffs that read changed audio, directly or through another diff, and order them so
/// that an intermediate diff comes before any diff that reads its output. Entries that wait on
/// each other in a cycle are left out.
pub fn affected_diffs(topology: &[(BufferId, Diff)], changed: &HashSet<BufferId>) -> (r: Vec<
    (BufferId, Diff),
>)
    ensures
        r@ == ready_order(dirty_entries(topology@, changed@)),
{
    let derived = dirty_closure(topology, changed);
    let ghost pred = |e: (BufferId, Diff)| is_dirty(topology@, changed@, e.1.buffer_id_diff);
    let mut remaining: Vec<(BufferId, Diff)> = Vec::new();
    let mut i: usize = 0;
    while i < topology.len()
        invariant
            i <= topology.len(),
            changed@ + derived@ == dirty_set(topology@, changed@),
            pred == (|e: (BufferId, Diff)| is_dirty(topology@, changed@, e.1.buffer_id_diff)),
            remaining@ == topology@.take(i as int).filter(pred),
        decreases topology.len() - i,
    {
        proof {
            reveal_with_fuel(Seq::<_>::filter, 1);
            assert(topology@.take(i + 1).drop_last() =~= topology@.take(i as int));
        }
        let entry = topology[i];
        proof {
            assert(dirty_set(topology@, changed@).contains(entry.1.buffer_id_diff) == pred(entry));
        }
        if changed.contains(&entry.1.buffer_id_diff) || derived.contains(&entry.1.buffer_id_diff) {
            remaining.push(entry);
        }
        i += 1;
    }
    proof {
        assert(topology@.take(topology.len() as int) =~= topology@);
    }
    order_by_readiness(remaining)
}

/// The outputs of the diffs of `topology`.
pub open spec fn outputs(topology: Seq<(BufferId, Diff)>) -> Set<BufferId> {
    topology.map_values(|e: (BufferId, Diff)| e.1.buffer_id_diff).to_set()
}

/// Every closed superset of `changed` includes `ids`.
pub open spec fn below_every_closed_superset(
    topology: Seq<(BufferId, Diff)>,
    changed: Set<BufferId>,
    ids: Set<BufferId>,
) -> bool {
    forall|s: Set<BufferId>|
        changed.subset_of(s) && #[trigger] closed_under(topology, s) ==> ids.subset_of(s)
}

/// The dirty buffers that are not themselves changed: `changed@ + derived@` is the least
/// superset of `changed` that is closed under the diffs of `topology`.
fn dirty_closure(topology: &[(BufferId, Diff)], changed: &HashSet<BufferId>) -> (derived: HashSet<
    BufferId,
>)
    ensures
        changed@ + derived@ == dirty_set(topology@, changed@),
{
    let ghost outs = outputs(topology@);
    let mut derived: HashSet<BufferId> = HashSet::new();
    proof {
        assert(outs.finite());
        assert(changed@ + derived@ =~= changed@);
    }
    loop
        invariant
            outs == outputs(topology@),
            outs.finite(),
            derived@.subset_of(outs),
            below_every_closed_superset(topology@, changed@, changed@ + derived@),
        decreases outs.difference(derived@).len(),
    {
        let ghost d0 = derived@;
        let mut grew = false;
        let mut i: usize = 0;
        while i < topology.len()
            invariant
                outs == outputs(topology@),
                outs.finite(),
                i <= topology.len(),
                d0.subset_of(derived@),
                derived@.subset_of(outs),
                below_every_closed_superset(topology@, changed@, changed@ + derived@),
                !grew ==> derived@ == d0,
                grew ==> exists|x: BufferId| outs.contains(x) && derived@.contains(x) && !d0.contains(x),
                !grew ==> forall|j: int|
                    0 <= j < i && #[trigger] reads_any(topology@[j].1, changed@ + derived@)
                        ==> (changed@ + derived@).contains(topology@[j].1.buffer_id_diff),
            decreases topology.len() - i,
        {
            let d = topology[i].1;
            let in_a = changed.contains(&d.buffer_id_a) || derived.contains(&d.buffer_id_a);
            let in_b = changed.contains(&d.buffer_id_b) || derived.contains(&d.buffer_id_b);
            if in_a || in_b {
                let ghost before = derived@;
                proof {
                    assert(topology@.map_values(|e: (BufferId, Diff)| e.1.buffer_id_diff)[i as int]
                        == d.buffer_id_diff);
                    assert forall|s: Set<BufferId>|
                        changed@.subset_of(s) && #[trigger] closed_under(topology@, s) implies (
                        changed@ + before.insert(d.buffer_id_diff)).subset_of(s) by {
                        assert((changed@ + before).subset_of(s));
                        assert(reads_any(topology@[i as int].1, s));
                    }
                }
                if !changed.contains(&d.buffer_id_diff) {
                    if derived.insert(d.buffer_id_diff) {
                        grew = true;
                    }
                }
                proof {
                    assert(changed@ + derived@ =~= changed@ + before.insert(d.buffer_id_diff));
                    if !grew {
                        assert(derived@ =~= before);
                        assert((changed@ + derived@).contains(d.buffer_id_diff));
                    }
                }
            }
            proof {
                if !grew {
                    assert(reads_any(topology@[i as int].1, changed@ + derived@) ==> (changed@
                        + derived@).contains(topology@[i as int].1.buffer_id_diff));
                }
            }
            i += 1;
        }
        if !grew {
            proof {
                assert(closed_under(topology@, changed@ + derived@));
                assert forall|id: BufferId| #[trigger] (changed@ + derived@).contains(id) <==> is_dirty(
                    topology@, changed@, id) by {
                    if is_dirty(topology@, changed@, id) {
                        assert(changed@.subset_of(changed@ + derived@));
                    }
                }
                assert(changed@ + derived@ =~= dirty_set(topology@, changed@));
            }
            return derived;
        }
        proof {
            let x = choose|x: BufferId| outs.contains(x) && derived@.contains(x) && !d0.contains(x);
            assert(outs.difference(derived@).subset_of(outs.difference(d0).remove(x)));
            vstd::set_lib::lemma_len_subset(outs.difference(derived@), outs.difference(d0).remove(x));
        }
    }
}

/// The outputs of the first `k` entries of `r`.
fn outputs_of(r: &Vec<(BufferId, Diff)>) -> (outs: HashSet<BufferId>)
    ensures
        forall|id: BufferId| #[trigger] outs@.contains(id) <==> produces(r@, id),
{
    let mut outs: HashSet<BufferId> = HashSet::new();
    let mut j: usize = 0;
    while j < r.len()
        invariant
            j <= r.len(),
            forall|id: BufferId|
                #[trigger] outs@.contains(id) <==> produces(r@.take(j as int), id),
        decreases r.len() - j,
    {
        outs.insert(r[j].1.buffer_id_diff);
        j += 1;
        proof {
            assert forall|id: BufferId| #[trigger] outs@.contains(id) <==> produces(
                r@.take(j as int),
                id,
            ) by {
                if produces(r@.take(j as int), id) {
                    let k = choose|k: int|
                        0 <= k < r@.take(j as int).len() && (#[trigger] r@.take(
                            j as int,
                        )[k]).1.buffer_id_diff == id;
                    if k < j - 1 {
                        assert(r@.take(j - 1)[k] == r@.take(j as int)[k]);
                    }
                }
                if outs@.contains(id) && id != r@[j - 1].1.buffer_id_diff {
                    let k = choose|k: int|
                        0 <= k < r@.take(j - 1).len() && (#[trigger] r@.take(
                            j - 1,
                        )[k]).1.buffer_id_diff == id;
                    assert(r@.take(j - 1)[k] == r@.take(j as int)[k]);
                }
                if id == r@[j - 1].1.buffer_id_diff {
                    assert(r@.take(j as int)[j - 1] == r@[j - 1]);
                }
            }
        }
    }
    proof {
        assert(r@.take(r.len() as int) =~= r@);
    }
    outs
}

/// Reorder `remaining` as `ready_order` states.
fn order_by_readiness(entries: Vec<(BufferId, Diff)>) -> (r: Vec<(BufferId, Diff)>)
    ensures
        r@ == ready_order(entries@),
{
    let ghost init = entries@;
    let mut remaining = entries;
    let mut ordered: Vec<(BufferId, Diff)> = Vec::new();
    loop
        invariant
            init == entries@,
            ordered@ + ready_order(remaining@) == ready_order(init),
        decreases remaining.len(),
    {
        let outs = outputs_of(&remaining);
        let mut k: usize = 0;
        while k < remaining.len() && (outs.contains(&remaining[k].1.buffer_id_a) || outs.contains(
            &remaining[k].1.buffer_id_b,
        ))
            invariant
                k <= remaining.len(),
                forall|id: BufferId| #[trigger] outs@.contains(id) <==> produces(remaining@, id),
                forall|j: int| 0 <= j < k ==> !is_ready(remaining@, #[trigger] remaining@[j].1),
            decreases remaining.len() - k,
        {
            k += 1;
        }
        proof {
            lemma_first_ready_from(remaining@, 0);
            let fr = first_ready_from(remaining@, 0);
            if fr < k {
                assert(!is_ready(remaining@, remaining@[fr].1));
            }
            if k < remaining.len() && fr > k {
                assert(!is_ready(remaining@, remaining@[k as int].1));
            }
            assert(fr == k);
        }
        if k == remaining.len() {
            proof {
                assert(ready_order(remaining@) =~= seq![]);
                assert(ordered@ + ready_order(remaining@) =~= ordered@);
                assert(ordered@ == ready_order(init));
            }
            return ordered;
        }
        let ghost before = remaining@;
        let entry = remaining.remove(k);
        ordered.push(entry);
        proof {
            assert(ready_order(before) == seq![entry].add(ready_order(remaining@)));
            assert(ordered@ + ready_order(remaining@) =~= ordered@.drop_last() + ready_order(
                before,
            ));
        }
    }
}


proof fn lemma_ready_order_members(r: Seq<(BufferId, Diff)>)
    ensures
        forall|i: int| 0 <= i < ready_order(r).len() ==> r.contains(#[trigger] ready_order(r)[i]),
    decreases r.len(),
{
    let k = first_ready_from(r, 0);
    lemma_first_ready_from(r, 0);
    if k < r.len() {
        let rest = r.remove(k);
        lemma_ready_order_members(rest);
        assert forall|i: int| 0 <= i < ready_order(r).len() implies r.contains(
            #[trigger] ready_order(r)[i],
        ) by {
            if i == 0 {
                assert(r[k] == ready_order(r)[0]);
            } else {
                assert(ready_order(r)[i] == ready_order(rest)[i - 1]);
                let m = choose|m: int| 0 <= m < rest.len() && rest[m] == ready_order(rest)[i - 1];
                if m < k {
                    assert(r[m] == rest[m]);
                } else {
                    assert(r[m + 1] == rest[m]);
                }
            }
        }
    }
}

/// Law: in the recomputation order, no entry reads the output of an entry that comes after
/// it, so every intermediate diff is ready before the diffs that read it.
pub proof fn ready_order_is_topological(r: Seq<(BufferId, Diff)>, i: int, j: int)
    requires
        0 <= i < j < ready_order(r).len(),
    ensures
        ready_order(r)[j].1.buffer_id_diff != ready_order(r)[i].1.buffer_id_a,
        ready_order(r)[j].1.buffer_id_diff != ready_order(r)[i].1.buffer_id_b,
    decreases r.len(),
{
    let k = first_ready_from(r, 0);
    lemma_first_ready_from(r, 0);
    let rest = r.remove(k);
    if i == 0 {
        lemma_ready_order_members(rest);
        let later = ready_order(rest)[j - 1];
        assert(rest.contains(later));
        let m = choose|m: int| 0 <= m < rest.len() && rest[m] == later;
        let n = if m < k { m } else { m + 1 };
        assert(r[n] == rest[m]);
        assert(produces(r, later.1.buffer_id_diff));
    } else {
        ready_order_is_topological(rest, i - 1, j - 1);
    }
}

/// Law: every diff returned by `affected_diffs` is an entry of the topology whose output is
/// dirty.
pub proof fn affected_diffs_are_dirty_entries(
    topology: Seq<(BufferId, Diff)>,
    changed: Set<BufferId>,
    i: int,
)
    requires
        0 <= i < ready_order(dirty_entries(topology, changed)).len(),
    ensures
        topology.contains(ready_order(dirty_entries(topology, changed))[i]),
        is_dirty(
            topology,
            changed,
            ready_order(dirty_entries(topology, changed))[i].1.buffer_id_diff,
        ),
{
    let pred = |e: (BufferId, Diff)| is_dirty(topology, changed, e.1.buffer_id_diff);
    let entries = dirty_entries(topology, changed);
    lemma_ready_order_members(entries);
    let e = ready_order(entries)[i];
    let m = choose|m: int| 0 <= m < entries.len() && entries[m] == e;
    topology.lemma_filter_pred(pred, m);
    assert(entries.contains(e));
    topology.lemma_filter_contains_rev(pred, e);
}

/// Law: changed buffers are dirty.
pub proof fn changed_buffers_are_dirty(
    topology: Seq<(BufferId, Diff)>,
    changed: Set<BufferId>,
    id: BufferId,
)
    requires
        changed.contains(id),
    ensures
        is_dirty(topology, changed, id),
{
}

/// Every diff of `r` reads only buffers ranked below its output: the recipes form no cycle.
pub open spec fn ranked(r: Seq<(BufferId, Diff)>, rank: spec_fn(BufferId) -> int) -> bool {
    forall|i: int|
        0 <= i < r.len() ==> rank((#[trigger] r[i]).1.buffer_id_a) < rank(r[i].1.buffer_id_diff)
            && rank(r[i].1.buffer_id_b) < rank(r[i].1.buffer_id_diff)
}

/// A non-empty `r` has an entry whose output has the least rank.
proof fn lemma_least_ranked(r: Seq<(BufferId, Diff)>, rank: spec_fn(BufferId) -> int) -> (m: int)
    requires
        r.len() > 0,
    ensures
        0 <= m < r.len(),
        forall|j: int| 0 <= j < r.len() ==> rank(r[m].1.buffer_id_diff) <= rank(#[trigger] r[j].1.buffer_id_diff),
    decreases r.len(),
{
    if r.len() == 1 {
        0
    } else {
        let m0 = lemma_least_ranked(r.drop_last(), rank);
        assert forall|j: int| 0 <= j < r.len() - 1 implies rank(r[m0].1.buffer_id_diff) <= rank(
            #[trigger] r[j].1.buffer_id_diff,
        ) by {
            assert(r.drop_last()[j] == r[j]);
        }
        assert(r.drop_last()[m0] == r[m0]);
        if rank(r[r.len() - 1].1.buffer_id_diff) < rank(r[m0].1.buffer_id_diff) {
            (r.len() - 1) as int
        } else {
            m0
        }
    }
}

/// Law: without dependency cycles among the recipes, the readiness order keeps every entry:
/// each affected diff is recomputed.
pub proof fn ready_order_keeps_every_entry_without_cycles(
    r: Seq<(BufferId, Diff)>,
    rank: spec_fn(BufferId) -> int,
)
    requires
        ranked(r, rank),
    ensures
        forall|i: int| 0 <= i < r.len() ==> ready_order(r).contains(#[trigger] r[i]),
    decreases r.len(),
{
    if r.len() > 0 {
        let m = lemma_least_ranked(r, rank);
        assert(is_ready(r, r[m].1)) by {
            if produces(r, r[m].1.buffer_id_a) {
                let j = choose|j: int| 0 <= j < r.len() && (#[trigger] r[j]).1.buffer_id_diff == r[m].1.buffer_id_a;
                assert(rank(r[m].1.buffer_id_diff) <= rank(r[j].1.buffer_id_diff));
            }
            if produces(r, r[m].1.buffer_id_b) {
                let j = choose|j: int| 0 <= j < r.len() && (#[trigger] r[j]).1.buffer_id_diff == r[m].1.buffer_id_b;
                assert(rank(r[m].1.buffer_id_diff) <= rank(r[j].1.buffer_id_diff));
            }
        }
        lemma_first_ready_from(r, 0);
        let k = first_ready_from(r, 0);
        assert(k < r.len()) by {
            if k >= r.len() {
                assert(!is_ready(r, r[m].1));
            }
        }
        let rest = r.remove(k);
        assert(ranked(rest, rank)) by {
            assert forall|i: int| 0 <= i < rest.len() implies rank((#[trigger] rest[i]).1.buffer_id_a)
                < rank(rest[i].1.buffer_id_diff) && rank(rest[i].1.buffer_id_b) < rank(
                rest[i].1.buffer_id_diff,
            ) by {
                if i < k {
                    assert(rest[i] == r[i]);
                } else {
                    assert(rest[i] == r[i + 1]);
                }
            }
        }
        ready_order_keeps_every_entry_without_cycles(rest, rank);
        assert(ready_order(r) == seq![r[k]].add(ready_order(rest)));
        assert forall|i: int| 0 <= i < r.len() implies ready_order(r).contains(#[trigger] r[i]) by {
            if i == k {
                assert(ready_order(r)[0] == r[k]);
            } else {
                let i2 = if i < k { i } else { i - 1 };
                assert(rest[i2] == r[i]);
                assert(ready_order(rest).contains(rest[i2]));
                let w = choose|w: int| 0 <= w < ready_order(rest).len() && ready_order(rest)[w] == rest[i2];
                assert(ready_order(r)[w + 1] == ready_order(rest)[w]);
            }
        }
    }
}

/// Law: a diff that reads a dirty buffer has a dirty output, so diffs that read changed audio
/// through another diff are affected too.
pub proof fn reading_dirty_audio_makes_output_dirty(
    topology: Seq<(BufferId, Diff)>,
    changed: Set<BufferId>,
    i: int,
)
    requires
        0 <= i < topology.len(),
        is_dirty(topology, changed, topology[i].1.buffer_id_a) || is_dirty(
            topology,
            changed,
            topology[i].1.buffer_id_b,
        ),
    ensures
        is_dirty(topology, changed, topology[i].1.buffer_id_diff),
{
    assert forall|s: Set<BufferId>|
        changed.subset_of(s) && #[trigger] closed_under(topology, s) implies s.contains(
        topology[i].1.buffer_id_diff,
    ) by {
        assert(reads_any(topology[i].1, s));
    }
}

/// Law: only what is needed is dirty: every set that holds the changed buffers and the
/// outputs of the diffs reading it holds every dirty buffer.
pub proof fn dirty_is_least_closed_set(
    topology: Seq<(BufferId, Diff)>,
    changed: Set<BufferId>,
    s: Set<BufferId>,
)
    requires
        changed.subset_of(s),
        closed_under(topology, s),
    ensures
        dirty_set(topology, changed).subset_of(s),
{
}

/// Some diff of `live` produces `id`.
pub open spec fn is_live(live: Seq<Diff>, id: BufferId) -> bool {
    exists|i: int| 0 <= i < live.len() && (#[trigger] live[i]).buffer_id_diff == id
}

/// Position of the last diff among the first `n` of `live` that produces `id`, or `-1`.
pub open spec fn last_live_upto(live: Seq<Diff>, id: BufferId, n: int) -> int
    decreases n,
{
    if n <= 0 || n > live.len() {
        -1
    } else if live[n - 1].buffer_id_diff == id {
        n - 1
    } else {
        last_live_upto(live, id, n - 1)
    }
}

/// The recipe of buffer `id`: the last diff of a track that produces it, else its retired
/// recipe.
pub open spec fn recipe(live: Seq<Diff>, retired: Map<BufferId, Diff>, id: BufferId) -> Diff {
    if is_live(live, id) {
        live[last_live_upto(live, id, live.len() as int)]
    } else {
        retired[id]
    }
}

/// `s` holds every output of a track's diff and, for each of its buffers, every input of the
/// buffer's recipe that has a retired recipe.
pub open spec fn closed_topology(live: Seq<Diff>, retired: Map<BufferId, Diff>, s: Set<BufferId>) -> bool {
    &&& forall|i: int| 0 <= i < live.len() ==> s.contains(#[trigger] live[i].buffer_id_diff)
    &&& forall|id: BufferId|
        #[trigger] s.contains(id) ==> (retired.contains_key(recipe(live, retired, id).buffer_id_a)
            ==> s.contains(recipe(live, retired, id).buffer_id_a)) && (retired.contains_key(
            recipe(live, retired, id).buffer_id_b,
        ) ==> s.contains(recipe(live, retired, id).buffer_id_b))
}

/// Buffer `id` belongs to the diff topology: every closed set holds it, i.e. it is produced by
/// a track's diff or, through retired recipes of removed intermediate tracks, feeds one.
pub open spec fn in_topology(live: Seq<Diff>, retired: Map<BufferId, Diff>, id: BufferId) -> bool {
    forall|s: Set<BufferId>| #[trigger] closed_topology(live, retired, s) ==> s.contains(id)
}

proof fn lemma_last_live_upto(live: Seq<Diff>, id: BufferId, n: int)
    requires
        0 <= n <= live.len(),
    ensures
        -1 <= last_live_upto(live, id, n) < n,
        last_live_upto(live, id, n) >= 0 ==> live[last_live_upto(live, id, n)].buffer_id_diff == id,
        last_live_upto(live, id, n) < 0 ==> forall|j: int| 0 <= j < n ==> (#[trigger] live[j]).buffer_id_diff != id,
    decreases n,
{
    if n > 0 && live[n - 1].buffer_id_diff != id {
        lemma_last_live_upto(live, id, n - 1);
    }
}

/// In a sequence of map entries with increasing keys, earlier keys are smaller.
proof fn lemma_increasing_keys(v: Seq<(&BufferId, &Diff)>, i: int, j: int)
    requires
        vstd::std_specs::btree::increasing_seq(v.map_values(|kv: (&BufferId, &Diff)| *kv.0)),
        0 <= i < j < v.len(),
    ensures
        *v[i].0 < *v[j].0,
{
    let ks = v.map_values(|kv: (&BufferId, &Diff)| *kv.0);
    assert(ks[i] == *v[i].0 && ks[j] == *v[j].0);
    assert(ks[i].cmp_spec(&ks[j]) is Less);
}

/// The diff recipes the workspace still needs, sorted by buffer id: the diffs of the tracks in
/// `live` (the last one wins when two produce the same buffer) and, transitively, the retired
/// recipes of removed intermediate tracks they read. Sorting keeps the snapshot independent of
/// the display order of the tracks.
pub fn diff_topology(live: &[Diff], retired: &HashMap<BufferId, Diff>) -> (r: Vec<(BufferId, Diff)>)
    ensures
        forall|i: int, j: int| 0 <= i < j < r@.len() ==> r@[i].0 < r@[j].0,
        forall|i: int|
            0 <= i < r@.len() ==> in_topology(live@, retired@, (#[trigger] r@[i]).0) && r@[i].1
                == recipe(live@, retired@, r@[i].0),
        forall|id: BufferId|
            #[trigger] in_topology(live@, retired@, id) ==> exists|i: int|
                0 <= i < r@.len() && (#[trigger] r@[i]).0 == id,
{
    let ghost lv = live@;
    let ghost rt = retired@;
    let mut defs: BTreeMap<BufferId, Diff> = BTreeMap::new();
    let mut work: Vec<BufferId> = Vec::new();
    let mut i: usize = 0;
    while i < live.len()
        invariant
            i <= live@.len(),
            lv == live@,
            forall|id: BufferId|
                #[trigger] defs@.contains_key(id) <==> exists|j: int|
                    0 <= j < i && (#[trigger] live@[j]).buffer_id_diff == id,
            forall|id: BufferId|
                #[trigger] defs@.contains_key(id) ==> defs@[id] == live@[last_live_upto(live@, id, i as int)],
            forall|j: int| 0 <= j < work@.len() ==> defs@.contains_key(#[trigger] work@[j]),
            forall|id: BufferId| #[trigger] defs@.contains_key(id) ==> work@.contains(id),
        decreases live.len() - i,
    {
        let d = live[i];
        let ghost before = defs@;
        let ghost bw = work@;
        defs.insert(d.buffer_id_diff, d);
        work.push(d.buffer_id_diff);
        proof {
            assert forall|id: BufferId| #[trigger] defs@.contains_key(id) implies defs@[id] == live@[last_live_upto(live@, id, i + 1)] by {
                if id != d.buffer_id_diff {
                    assert(before.contains_key(id));
                }
            }
            assert forall|id: BufferId| #[trigger] defs@.contains_key(id) <==> exists|j: int|
                0 <= j < i + 1 && (#[trigger] live@[j]).buffer_id_diff == id by {
                if defs@.contains_key(id) && id != d.buffer_id_diff {
                    assert(before.contains_key(id));
                }
                if exists|j: int| 0 <= j < i + 1 && (#[trigger] live@[j]).buffer_id_diff == id {
                    if id != d.buffer_id_diff {
                        let j = choose|j: int| 0 <= j < i + 1 && (#[trigger] live@[j]).buffer_id_diff == id;
                        assert(j < i);
                    }
                }
            }
            assert forall|id: BufferId| #[trigger] defs@.contains_key(id) implies work@.contains(id) by {
                if id == d.buffer_id_diff {
                    assert(work@[work@.len() - 1] == id);
                } else {
                    assert(before.contains_key(id));
                    let k = choose|k: int| 0 <= k < bw.len() && bw[k] == id;
                    assert(work@[k] == bw[k]);
                }
            }
        }
        i += 1;
    }
    proof {
        assert forall|id: BufferId| #[trigger] defs@.contains_key(id) implies defs@[id] == recipe(lv, rt, id) by {
            lemma_last_live_upto(lv, id, lv.len() as int);
            let j = choose|j: int| 0 <= j < lv.len() && (#[trigger] lv[j]).buffer_id_diff == id;
            assert(is_live(lv, id));
        }
        assert forall|s: Set<BufferId>| #[trigger] closed_topology(lv, rt, s) implies defs@.dom().subset_of(s) by {
            assert forall|id: BufferId| defs@.dom().contains(id) implies s.contains(id) by {
                let j = choose|j: int| 0 <= j < lv.len() && (#[trigger] lv[j]).buffer_id_diff == id;
            }
        }
    }
    while work.len() > 0
        invariant
            lv == live@,
            rt == retired@,
            forall|id: BufferId| #[trigger] defs@.contains_key(id) ==> defs@[id] == recipe(lv, rt, id),
            forall|j: int| 0 <= j < lv.len() ==> defs@.contains_key(#[trigger] lv[j].buffer_id_diff),
            forall|j: int| 0 <= j < work@.len() ==> defs@.contains_key(#[trigger] work@[j]),
            forall|id: BufferId|
                #[trigger] defs@.contains_key(id) && !work@.contains(id) ==> (rt.contains_key(
                    recipe(lv, rt, id).buffer_id_a,
                ) ==> defs@.contains_key(recipe(lv, rt, id).buffer_id_a)) && (rt.contains_key(
                    recipe(lv, rt, id).buffer_id_b,
                ) ==> defs@.contains_key(recipe(lv, rt, id).buffer_id_b)),
            forall|id: BufferId| #[trigger] defs@.contains_key(id) ==> is_live(lv, id) || rt.contains_key(id),
            forall|s: Set<BufferId>| #[trigger] closed_topology(lv, rt, s) ==> defs@.dom().subset_of(s),
        decreases rt.dom().difference(defs@.dom()).len(), work@.len(),
    {
        let ghost before_defs = defs@;
        let ghost before_work = work@;
        proof {
            assert(retired@.dom().finite());
        }
        let id = work.pop().unwrap();
        proof {
            assert(before_work[before_work.len() - 1] == id);
            assert(work@ =~= before_work.drop_last());
        }
        let d = *defs.get(&id).unwrap();
        let a = d.buffer_id_a;
        let b = d.buffer_id_b;
        let mut inserted = false;
        if !defs.contains_key(&a) {
            match retired.get(&a) {
                Some(ra) => {
                    defs.insert(a, *ra);
                    work.push(a);
                    inserted = true;
                },
                None => {},
            }
        }
        let ghost mid_defs = defs@;
        if !defs.contains_key(&b) {
            match retired.get(&b) {
                Some(rb) => {
                    defs.insert(b, *rb);
                    work.push(b);
                    inserted = true;
                },
                None => {},
            }
        }
        proof {
            assert(d == recipe(lv, rt, id));
            assert(before_defs.dom().subset_of(defs@.dom()));
            assert forall|x: BufferId| #[trigger] defs@.contains_key(x) implies defs@[x] == recipe(lv, rt, x) by {
                if !before_defs.contains_key(x) {
                    if is_live(lv, x) {
                        let j = choose|j: int| 0 <= j < lv.len() && (#[trigger] lv[j]).buffer_id_diff == x;
                        assert(before_defs.contains_key(lv[j].buffer_id_diff));
                    }
                }
            }
            assert forall|x: BufferId| #[trigger] defs@.contains_key(x) implies is_live(lv, x) || rt.contains_key(x) by {
                if !before_defs.contains_key(x) {
                    assert(x == a || x == b);
                }
            }
            assert forall|j: int| 0 <= j < work@.len() implies defs@.contains_key(#[trigger] work@[j]) by {
                if j < before_work.len() - 1 {
                    assert(work@[j] == before_work[j]);
                }
            }
            assert forall|x: BufferId|
                #[trigger] defs@.contains_key(x) && !work@.contains(x) implies (rt.contains_key(
                    recipe(lv, rt, x).buffer_id_a,
                ) ==> defs@.contains_key(recipe(lv, rt, x).buffer_id_a)) && (rt.contains_key(
                    recipe(lv, rt, x).buffer_id_b,
                ) ==> defs@.contains_key(recipe(lv, rt, x).buffer_id_b)) by {
                if x != id {
                    if before_work.contains(x) {
                        let k = choose|k: int| 0 <= k < before_work.len() && before_work[k] == x;
                        assert(k < before_work.len() - 1);
                        assert(work@[k] == x);
                    }
                    if !before_defs.contains_key(x) {
                        if x == b && before_defs.contains_key(b) {
                        } else if x == b {
                            assert(work@[work@.len() - 1] == b);
                        } else {
                            assert(x == a);
                            let k = before_work.len() - 1;
                            assert(work@[k] == a);
                        }
                    }
                }
            }
            assert forall|sv: Set<BufferId>| #[trigger] closed_topology(lv, rt, sv) implies defs@.dom().subset_of(sv) by {
                assert(before_defs.dom().subset_of(sv));
                assert(sv.contains(id));
            }
            if inserted {
                assert(rt.dom().difference(defs@.dom()).len() < rt.dom().difference(before_defs.dom()).len()) by {
                    let x = if !before_defs.contains_key(a) && rt.contains_key(a) { a } else { b };
                    assert(rt.dom().difference(before_defs.dom()).contains(x));
                    assert(rt.dom().difference(defs@.dom()).subset_of(rt.dom().difference(before_defs.dom()).remove(x)));
                    vstd::set_lib::lemma_len_subset(rt.dom().difference(defs@.dom()), rt.dom().difference(before_defs.dom()).remove(x));
                }
            } else {
                assert(defs@ == before_defs);
            }
        }
    }
    proof {
        assert(closed_topology(lv, rt, defs@.dom()));
    }
    let ghost m = defs@;
    let ghost v = vstd::std_specs::btree::spec_btree_map_iter(&defs).remaining();
    let mut out: Vec<(BufferId, Diff)> = Vec::new();
    for kv in it: defs.iter()
        invariant
            m == defs@,
            it.seq() == v,
            vstd::std_specs::btree::increasing_seq(v.map_values(|kv: (&BufferId, &Diff)| *kv.0)),
            out@.len() == it.index(),
            forall|j: int| 0 <= j < it.index() ==> #[trigger] out@[j] == (*v[j].0, *v[j].1),
    {
        out.push((*kv.0, *kv.1));
    }
    proof {
        assert(out@.len() == v.len());
        assert forall|i: int, j: int| 0 <= i < j < out@.len() implies out@[i].0 < out@[j].0 by {
            lemma_increasing_keys(v, i, j);
        }
        assert forall|id: BufferId| #[trigger] in_topology(lv, rt, id) implies exists|i: int|
            0 <= i < out@.len() && (#[trigger] out@[i]).0 == id by {
            assert(m.contains_key(id));
            assert(v.contains((&id, &m[id])));
            let j = choose|j: int| 0 <= j < v.len() && v[j] == (&id, &m[id]);
            assert(out@[j].0 == id);
        }
    }
    out
}

/// The output buffers of the diffs `affected_diffs` returns.
pub open spec fn affected_outputs(topology: Seq<(BufferId, Diff)>, changed: Set<BufferId>) -> Set<BufferId> {
    ready_order(dirty_entries(topology, changed)).map_values(|e: (BufferId, Diff)| e.0).to_set()
}

/// The tracks among `tracks` (id and displayed buffer, in display order) that show a changed
/// buffer or the output of an affected diff, in display order.
pub open spec fn affected_track_ids(
    tracks: Seq<(TrackId, BufferId)>,
    outputs: Set<BufferId>,
    changed: Set<BufferId>,
) -> Seq<TrackId>
    decreases tracks.len(),
{
    if tracks.len() == 0 {
        seq![]
    } else {
        let rest = affected_track_ids(tracks.drop_last(), outputs, changed);
        let t = tracks.last();
        if outputs.contains(t.1) || changed.contains(t.1) {
            rest.push(t.0)
        } else {
            rest
        }
    }
}

/// Source and dependent diff tracks of changed buffers, in display order, hidden ones
/// included: `tracks` lists every track's id and displayed buffer in display order.
pub fn affected_tracks_for_buffers(
    tracks: &[(TrackId, BufferId)],
    topology: &[(BufferId, Diff)],
    changed: &HashSet<BufferId>,
) -> (r: Vec<TrackId>)
    ensures
        r@ == affected_track_ids(tracks@, affected_outputs(topology@, changed@), changed@),
{
    let affected = affected_diffs(topology, changed);
    let mut outputs: HashSet<BufferId> = HashSet::new();
    let mut i: usize = 0;
    while i < affected.len()
        invariant
            i <= affected@.len(),
            outputs@ == affected@.take(i as int).map_values(|e: (BufferId, Diff)| e.0).to_set(),
        decreases affected.len() - i,
    {
        let id = affected[i].0;
        outputs.insert(id);
        proof {
            assert(affected@.take(i + 1).map_values(|e: (BufferId, Diff)| e.0) =~= affected@.take(
                i as int,
            ).map_values(|e: (BufferId, Diff)| e.0).push(id));
            affected@.take(i as int).map_values(|e: (BufferId, Diff)| e.0).lemma_push_to_set_commute(id);
        }
        i += 1;
    }
    proof {
        assert(affected@.take(i as int) =~= affected@);
    }
    let mut r: Vec<TrackId> = Vec::new();
    let mut j: usize = 0;
    while j < tracks.len()
        invariant
            j <= tracks@.len(),
            outputs@ == affected_outputs(topology@, changed@),
            r@ == affected_track_ids(tracks@.take(j as int), outputs@, changed@),
        decreases tracks.len() - j,
    {
        proof {
            assert(tracks@.take(j + 1).drop_last() =~= tracks@.take(j as int));
            assert(tracks@.take(j + 1).last() == tracks@[j as int]);
        }
        let (track_id, buffer_id) = tracks[j];
        if outputs.contains(&buffer_id) || changed.contains(&buffer_id) {
            r.push(track_id);
        }
        j += 1;
    }
    proof {
        assert(tracks@.take(j as int) =~= tracks@);
    }
    r
}

/// Buffer `id` after replacing buffers by `replacements`.
pub open spec fn redirected(replacements: Map<BufferId, BufferId>, id: BufferId) -> BufferId {
    if replacements.contains_key(id) {
        replacements[id]
    } else {
        id
    }
}

/// Where buffer `id` lives after installing replacement buffers.
pub fn redirect_buffer(id: BufferId, replacements: &HashMap<BufferId, BufferId>) -> (r: BufferId)
    ensures
        r == redirected(replacements@, id),
{
    match replacements.get(&id) {
        Some(new) => *new,
        None => id,
    }
}

/// A diff recipe whose inputs and output point to the replacement buffers; offsets are kept,
/// since the inputs keep their alignment.
pub fn redirect_diff(diff: Diff, replacements: &HashMap<BufferId, BufferId>) -> (r: Diff)
    ensures
        r == (Diff {
            buffer_id_diff: redirected(replacements@, diff.buffer_id_diff),
            buffer_id_a: redirected(replacements@, diff.buffer_id_a),
            buffer_id_b: redirected(replacements@, diff.buffer_id_b),
            ..diff
        }),
{
    Diff {
        buffer_id_diff: redirect_buffer(diff.buffer_id_diff, replacements),
        buffer_id_a: redirect_buffer(diff.buffer_id_a, replacements),
        buffer_id_b: redirect_buffer(diff.buffer_id_b, replacements),
        ..diff
    }
}

} // verus!
