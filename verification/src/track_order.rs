//! The display order of the tracks: inserting a new track at a position, removing one, and
//! dragging one to another position. Each track appears once.
use crate::track_selection::TrackId;
use vstd::prelude::*;

verus! {

/// The tracks from top to bottom.
#[derive(Debug, Clone)]
pub struct TrackOrder {
    pub ids: Vec<TrackId>,
}

/// No track appears twice.
pub open spec fn distinct(s: Seq<TrackId>) -> bool {
    forall|i: int, j: int| 0 <= i < j < s.len() ==> s[i] != s[j]
}

/// Every track but `id`.
pub open spec fn others(id: TrackId) -> spec_fn(TrackId) -> bool {
    |x: TrackId| x != id
}

/// Where a new track goes: at `ix`, or at the end when `ix` is past it.
pub open spec fn clamped(ix: int, len: int) -> int {
    if ix < len {
        ix
    } else {
        len
    }
}

impl TrackOrder {
    /// Each track appears once.
    pub open spec fn wf(&self) -> bool {
        distinct(self.ids@)
    }

    /// No tracks.
    pub fn new() -> (r: Self)
        ensures
            r.ids@ == Seq::<TrackId>::empty(),
            r.wf(),
    {
        TrackOrder { ids: Vec::new() }
    }

    /// Position of `id`, if shown.
    pub fn position(&self, id: TrackId) -> (r: Option<usize>)
        ensures
            match r {
                Some(i) => i < self.ids@.len() && self.ids@[i as int] == id && forall|j: int|
                    0 <= j < i ==> self.ids@[j] != id,
                None => !self.ids@.contains(id),
            },
    {
        let mut i: usize = 0;
        while i < self.ids.len()
            invariant
                i <= self.ids@.len(),
                forall|j: int| 0 <= j < i ==> self.ids@[j] != id,
            decreases self.ids.len() - i,
        {
            if self.ids[i] == id {
                return Some(i);
            }
            i += 1;
        }
        None
    }

    /// Insert a new track at `insert_ix`, or at the end when `insert_ix` is past it.
    pub fn insert_track(&mut self, id: TrackId, insert_ix: usize)
        requires
            old(self).wf(),
            !old(self).ids@.contains(id),
        ensures
            final(self).ids@ == old(self).ids@.insert(clamped(insert_ix as int, old(self).ids@.len() as int), id),
            final(self).wf(),
    {
        let ix = if insert_ix < self.ids.len() {
            insert_ix
        } else {
            self.ids.len()
        };
        let ghost before = self.ids@;
        self.ids.insert(ix, id);
        proof {
            assert forall|i: int, j: int| 0 <= i < j < self.ids@.len() implies self.ids@[i] != self.ids@[j] by {
                if i < ix && j > ix {
                    assert(self.ids@[j] == before[j - 1]);
                } else if i > ix {
                    assert(self.ids@[i] == before[i - 1] && self.ids@[j] == before[j - 1]);
                } else if i == ix {
                    assert(self.ids@[j] == before[j - 1]);
                    assert(before.contains(before[j - 1]));
                } else if j == ix {
                    assert(before.contains(before[i]));
                }
            }
        }
    }

    /// Remove a track; the others keep their order.
    pub fn remove_track(&mut self, id: TrackId)
        requires
            old(self).wf(),
        ensures
            final(self).ids@ == old(self).ids@.filter(others(id)),
            final(self).wf(),
    {
        let ghost keep = others(id);
        let ghost all = self.ids@;
        let mut kept: Vec<TrackId> = Vec::new();
        let mut i: usize = 0;
        while i < self.ids.len()
            invariant
                i <= all.len(),
                self.ids@ == all,
                distinct(all),
                kept@ == all.take(i as int).filter(keep),
                keep == others(id),
                forall|a: int| 0 <= a < kept@.len() ==> all.take(i as int).contains(#[trigger] kept@[a]),
                distinct(kept@),
            decreases all.len() - i,
        {
            proof {
                reveal_with_fuel(Seq::<_>::filter, 1);
                assert(all.take(i + 1).drop_last() =~= all.take(i as int));
                assert(all.take(i + 1).last() == all[i as int]);
            }
            let x = self.ids[i];
            if x != id {
                proof {
                    assert forall|a: int| 0 <= a < kept@.len() implies kept@[a] != x by {
                        let k = choose|k: int| 0 <= k < i && all.take(i as int)[k] == kept@[a];
                        assert(all[k] == kept@[a]);
                    }
                }
                kept.push(x);
            }
            proof {
                assert forall|a: int| 0 <= a < kept@.len() implies all.take(i + 1).contains(#[trigger] kept@[a]) by {
                    if a < kept@.len() - 1 || x == id {
                        let k = choose|k: int| 0 <= k < i && all.take(i as int)[k] == kept@[a];
                        assert(all.take(i + 1)[k] == kept@[a]);
                    } else {
                        assert(all.take(i + 1)[i as int] == kept@[a]);
                    }
                }
            }
            i += 1;
        }
        proof {
            assert(all.take(all.len() as int) =~= all);
        }
        self.ids = kept;
    }

    /// Drag a shown track to position `new_index` among the tracks.
    pub fn move_track(&mut self, id: TrackId, new_index: usize)
        requires
            old(self).wf(),
            old(self).ids@.contains(id),
            new_index < old(self).ids@.len(),
        ensures
            exists|p: int|
                0 <= p < old(self).ids@.len() && old(self).ids@[p] == id && final(self).ids@ == old(
                    self,
                ).ids@.remove(p).insert(new_index as int, id),
            final(self).wf(),
    {
        let p = match self.position(id) {
            Some(p) => p,
            None => {
                proof {
                    assert(false);
                }
                return;
            },
        };
        let ghost before = self.ids@;
        self.ids.remove(p);
        let ghost mid = self.ids@;
        proof {
            assert(mid =~= before.remove(p as int));
            assert forall|i: int, j: int| 0 <= i < j < mid.len() implies mid[i] != mid[j] by {
                let bi = if i < p { i } else { i + 1 };
                let bj = if j < p { j } else { j + 1 };
                assert(mid[i] == before[bi] && mid[j] == before[bj]);
            }
            assert(!mid.contains(id)) by {
                if mid.contains(id) {
                    let k = choose|k: int| 0 <= k < mid.len() && mid[k] == id;
                    let bk = if k < p { k } else { k + 1 };
                    assert(before[bk] == id);
                }
            }
        }
        self.ids.insert(new_index, id);
        proof {
            assert forall|i: int, j: int| 0 <= i < j < self.ids@.len() implies self.ids@[i] != self.ids@[j] by {
                let n = new_index as int;
                if i < n && j > n {
                    assert(self.ids@[j] == mid[j - 1]);
                } else if i > n {
                    assert(self.ids@[i] == mid[i - 1] && self.ids@[j] == mid[j - 1]);
                } else if i == n {
                    assert(self.ids@[j] == mid[j - 1]);
                    assert(mid.contains(mid[j - 1]));
                } else if j == n {
                    assert(mid.contains(mid[i]));
                }
            }
        }
    }
}

/// Filtering out a track that is not shown changes nothing.
proof fn lemma_filter_absent(s: Seq<TrackId>, id: TrackId)
    requires
        !s.contains(id),
    ensures
        s.filter(others(id)) == s,
    decreases s.len(),
{
    reveal_with_fuel(Seq::<_>::filter, 1);
    if s.len() > 0 {
        assert(!s.drop_last().contains(id)) by {
            if s.drop_last().contains(id) {
                let k = choose|k: int| 0 <= k < s.drop_last().len() && s.drop_last()[k] == id;
                assert(s[k] == id);
            }
        }
        lemma_filter_absent(s.drop_last(), id);
        assert(s.drop_last().push(s.last()) =~= s);
    }
}

/// Filtering out a track shown once removes exactly that position.
proof fn lemma_filter_once(s: Seq<TrackId>, id: TrackId, k: int)
    requires
        0 <= k < s.len(),
        s[k] == id,
        forall|j: int| 0 <= j < s.len() && j != k ==> s[j] != id,
    ensures
        s.filter(others(id)) == s.remove(k),
    decreases s.len(),
{
    reveal_with_fuel(Seq::<_>::filter, 1);
    if k == s.len() - 1 {
        assert(!s.drop_last().contains(id)) by {
            if s.drop_last().contains(id) {
                let j = choose|j: int| 0 <= j < s.drop_last().len() && s.drop_last()[j] == id;
                assert(s[j] == id);
            }
        }
        lemma_filter_absent(s.drop_last(), id);
        assert(s.drop_last() =~= s.remove(k));
    } else {
        lemma_filter_once(s.drop_last(), id, k);
        assert(s.drop_last().remove(k).push(s.last()) =~= s.remove(k));
    }
}

/// Removing a track right after inserting it gives back the order it was inserted into.
pub proof fn remove_undoes_insert(order: Seq<TrackId>, id: TrackId, insert_ix: int)
    requires
        distinct(order),
        !order.contains(id),
        0 <= insert_ix,
    ensures
        order.insert(clamped(insert_ix, order.len() as int), id).filter(others(id)) == order,
{
    let k = clamped(insert_ix, order.len() as int);
    let s = order.insert(k, id);
    assert forall|j: int| 0 <= j < s.len() && j != k implies s[j] != id by {
        let oj = if j < k { j } else { j - 1 };
        assert(s[j] == order[oj]);
        assert(order.contains(order[oj]));
    }
    lemma_filter_once(s, id, k);
    assert(s.remove(k) =~= order);
}

/// Dragging a track to another position shows the same tracks, the dragged one at its new
/// position.
pub proof fn move_keeps_the_tracks(order: Seq<TrackId>, p: int, id: TrackId, new_index: int)
    requires
        distinct(order),
        0 <= p < order.len(),
        order[p] == id,
        0 <= new_index < order.len(),
    ensures
        order.remove(p).insert(new_index, id).len() == order.len(),
        order.remove(p).insert(new_index, id)[new_index] == id,
        order.remove(p).insert(new_index, id).to_multiset() == order.to_multiset(),
{
    broadcast use vstd::seq_lib::to_multiset_remove, vstd::seq_lib::to_multiset_insert;

    let m = order.to_multiset();
    assert(order.remove(p).to_multiset() =~= m.remove(id));
    assert(order.remove(p).insert(new_index, id).to_multiset() =~= m.remove(id).insert(id));
    vstd::seq_lib::to_multiset_contains(order, id);
    assert(order.contains(id)) by {
        assert(order[p] == id);
    }
    assert(m.remove(id).insert(id) =~= m);
}

} // verus!
