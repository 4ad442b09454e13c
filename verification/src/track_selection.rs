//! Track selection state and click semantics: plain clicks replace the selection, toggle
//! clicks flip one track, and range clicks select every track between the anchor and the
//! clicked track in the current visual order.
use std::collections::HashSet;
use vstd::prelude::*;
use vstd::std_specs::hash::spec_hash_keys_iter;
use vstd::std_specs::iter::IteratorSpec;

verus! {

broadcast use vstd::std_specs::hash::group_hash_axioms;

/// Identifier of a track.
pub type TrackId = u64;

/// Meaning of a track click after keyboard modifiers are considered.
#[derive(Debug, Clone, Copy, PartialEq, Eq, Structural)]
pub enum TrackSelectionMode {
    Replace,
    Toggle,
    Range,
}

/// Selected track IDs plus the starting point used by range selection.
#[derive(Debug)]
pub struct TrackSelection {
    selected: HashSet<TrackId>,
    /// Last plain or toggle click; a range click selects between this track and the clicked one.
    anchor: Option<TrackId>,
}

/// A selection as a mathematical value.
pub struct SelectionView {
    pub selected: Set<TrackId>,
    pub anchor: Option<TrackId>,
}

impl View for TrackSelection {
    type V = SelectionView;

    closed spec fn view(&self) -> SelectionView {
        SelectionView { selected: self.selected@, anchor: self.anchor }
    }
}

/// Index of the first occurrence of `id` in `order` at or after `k`, or `-1`.
pub open spec fn index_from(order: Seq<TrackId>, id: TrackId, k: int) -> int
    decreases order.len() - k,
{
    if k < 0 || k >= order.len() {
        -1
    } else if order[k] == id {
        k
    } else {
        index_from(order, id, k + 1)
    }
}

/// Index of the first occurrence of `id` in `order`, or `-1`.
pub open spec fn index_in(order: Seq<TrackId>, id: TrackId) -> int {
    index_from(order, id, 0)
}

/// The tracks of `order` between positions `a` and `b`, both included, in either order.
pub open spec fn tracks_between(order: Seq<TrackId>, a: int, b: int) -> Set<TrackId> {
    let (start, end) = if a <= b {
        (a, b)
    } else {
        (b, a)
    };
    order.subrange(start, end + 1).to_set()
}

/// The selection after one click on `id` with `mode`, given the current track order.
pub open spec fn applied(
    s: SelectionView,
    id: TrackId,
    mode: TrackSelectionMode,
    order: Seq<TrackId>,
) -> SelectionView {
    let ix = index_in(order, id);
    if ix < 0 {
        s
    } else {
        match mode {
            TrackSelectionMode::Replace => SelectionView { selected: set![id], anchor: Some(id) },
            TrackSelectionMode::Toggle => SelectionView {
                selected: if s.selected.contains(id) {
                    s.selected.remove(id)
                } else {
                    s.selected.insert(id)
                },
                anchor: Some(id),
            },
            TrackSelectionMode::Range => match s.anchor {
                Some(a) if index_in(order, a) >= 0 => SelectionView {
                    selected: tracks_between(order, index_in(order, a), ix),
                    anchor: s.anchor,
                },
                _ => SelectionView { selected: set![id], anchor: Some(id) },
            },
        }
    }
}

proof fn lemma_index_from(order: Seq<TrackId>, id: TrackId, k: int)
    requires
        0 <= k <= order.len(),
    ensures
        -1 <= index_from(order, id, k) < order.len(),
        index_from(order, id, k) >= 0 ==> k <= index_from(order, id, k) && order[index_from(
            order,
            id,
            k,
        )] == id,
        index_from(order, id, k) < 0 ==> forall|j: int| k <= j < order.len() ==> order[j] != id,
        forall|j: int| k <= j < index_from(order, id, k) ==> order[j] != id,
    decreases order.len() - k,
{
    if k < order.len() && order[k] != id {
        lemma_index_from(order, id, k + 1);
    }
}

/// Position of `id` in `order`.
fn position(order: &[TrackId], id: TrackId) -> (r: Option<usize>)
    ensures
        match r {
            Some(ix) => ix == index_in(order@, id),
            None => index_in(order@, id) < 0,
        },
{
    let mut k: usize = 0;
    while k < order.len()
        invariant
            k <= order.len(),
            index_in(order@, id) == index_from(order@, id, k as int),
        decreases order.len() - k,
    {
        if order[k] == id {
            return Some(k);
        }
        k += 1;
    }
    None
}

impl TrackSelection {
    /// An empty selection without anchor.
    pub fn new() -> (r: Self)
        ensures
            r@.selected == Set::<TrackId>::empty(),
            r@.anchor is None,
    {
        TrackSelection { selected: HashSet::new(), anchor: None }
    }

    /// Apply one click. Unknown IDs are ignored because queued actions may outlive removed
    /// tracks.
    pub fn apply(&mut self, track_id: TrackId, mode: TrackSelectionMode, track_order: &[TrackId])
        ensures
            final(self)@ == applied(old(self)@, track_id, mode, track_order@),
    {
        let track_ix = match position(track_order, track_id) {
            Some(ix) => ix,
            None => return ,
        };
        match mode {
            TrackSelectionMode::Replace => {
                self.replace(track_id);
                proof {
                    assert(self@.selected =~= applied(old(self)@, track_id, mode, track_order@).selected);
                    assert(self@.anchor == applied(old(self)@, track_id, mode, track_order@).anchor);
                    assert(self@ == applied(old(self)@, track_id, mode, track_order@));
                }
            },
            TrackSelectionMode::Toggle => {
                let ghost before = self.selected@;
                if !self.selected.remove(&track_id) {
                    self.selected.insert(track_id);
                    proof {
                        assert(self.selected@ =~= before.insert(track_id));
                    }
                }
                self.anchor = Some(track_id);
                proof {
                    assert(self@.selected =~= applied(old(self)@, track_id, mode, track_order@).selected);
                }
            },
            TrackSelectionMode::Range => {
                let anchor_ix = match self.anchor {
                    Some(anchor) => position(track_order, anchor),
                    None => None,
                };
                let anchor_ix = match anchor_ix {
                    Some(ix) => ix,
                    None => {
                        self.replace(track_id);
                        return ;
                    },
                };
                proof {
                    lemma_index_from(track_order@, track_id, 0);
                    lemma_index_from(track_order@, self.anchor->0, 0);
                }
                let (start, end) = if anchor_ix <= track_ix {
                    (anchor_ix, track_ix)
                } else {
                    (track_ix, anchor_ix)
                };
                let mut selected: HashSet<TrackId> = HashSet::new();
                let mut k = start;
                proof {
                    assert(track_order@.subrange(start as int, k as int).to_set() =~= selected@);
                }
                while k <= end
                    invariant
                        start <= k <= end + 1,
                        end < track_order.len(),
                        selected@ == track_order@.subrange(start as int, k as int).to_set(),
                    decreases end + 1 - k,
                {
                    proof {
                        assert(track_order@.subrange(start as int, k + 1) =~= track_order@.subrange(
                            start as int,
                            k as int,
                        ) + seq![track_order@[k as int]]);
                        Seq::lemma_to_set_insert_commutes(
                            track_order@.subrange(start as int, k as int),
                            track_order@[k as int],
                        );
                    }
                    selected.insert(track_order[k]);
                    k += 1;
                    proof {
                        assert(track_order@.subrange(start as int, k as int).to_set() =~= selected@);
                    }
                }
                self.selected = selected;
                proof {
                    assert(track_order@.subrange(start as int, end + 1) =~= track_order@.subrange(
                        start as int,
                        k as int,
                    ));
                    assert(self@.selected =~= applied(old(self)@, track_id, mode, track_order@).selected);
                }
            },
        }
    }

    /// Whether the track is selected.
    pub fn is_selected(&self, track_id: TrackId) -> (r: bool)
        ensures
            r == self@.selected.contains(track_id),
    {
        self.selected.contains(&track_id)
    }

    /// The selected track IDs, each once, in unspecified order.
    pub fn selected_ids(&self) -> (r: Vec<TrackId>)
        ensures
            r@.to_set() == self@.selected,
            r@.no_duplicates(),
    {
        let ghost keys = spec_hash_keys_iter(&self.selected).remaining().unref();
        let mut out: Vec<TrackId> = Vec::new();
        for id in it: self.selected.iter()
            invariant
                it.seq().unref() == keys,
                out@ == keys.take(it.index()),
        {
            out.push(*id);
            proof {
                assert(keys.take(it.index() + 1) =~= out@);
            }
        }
        proof {
            assert(out@ =~= keys);
        }
        out
    }

    /// Deselect a track; it stops being the anchor.
    pub fn remove(&mut self, track_id: TrackId)
        ensures
            final(self)@.selected == old(self)@.selected.remove(track_id),
            final(self)@.anchor == (if old(self)@.anchor == Some(track_id) {
                None
            } else {
                old(self)@.anchor
            }),
    {
        self.selected.remove(&track_id);
        if self.anchor == Some(track_id) {
            self.anchor = None;
        }
    }

    /// Deselect everything and forget the anchor.
    pub fn clear(&mut self)
        ensures
            final(self)@.selected == Set::<TrackId>::empty(),
            final(self)@.anchor is None,
    {
        self.selected.clear();
        self.anchor = None;
    }

    fn replace(&mut self, track_id: TrackId)
        ensures
            final(self)@.selected == set![track_id],
            final(self)@.anchor == Some(track_id),
    {
        self.selected.clear();
        self.selected.insert(track_id);
        self.anchor = Some(track_id);
        proof {
            assert(self.selected@ =~= set![track_id]);
        }
    }
}

impl Default for TrackSelection {
    /// An empty selection without anchor.
    fn default() -> (r: Self)
        ensures
            r@.selected == Set::<TrackId>::empty(),
            r@.anchor is None,
    {
        TrackSelection::new()
    }
}

/// Law: a click on a track that is not in the current order changes nothing.
pub proof fn unknown_track_click_is_ignored(
    s: SelectionView,
    id: TrackId,
    mode: TrackSelectionMode,
    order: Seq<TrackId>,
)
    requires
        !order.contains(id),
    ensures
        applied(s, id, mode, order) == s,
{
    lemma_index_from(order, id, 0);
    if index_in(order, id) >= 0 {
        assert(order[index_in(order, id)] == id);
    }
}

/// Law: toggling the same track twice restores the selection, and leaves it as anchor.
pub proof fn toggle_twice_restores_selection(s: SelectionView, id: TrackId, order: Seq<TrackId>)
    requires
        order.contains(id),
    ensures
        applied(applied(s, id, TrackSelectionMode::Toggle, order), id, TrackSelectionMode::Toggle, order).selected
            == s.selected,
        applied(applied(s, id, TrackSelectionMode::Toggle, order), id, TrackSelectionMode::Toggle, order).anchor
            == Some(id),
{
    lemma_index_from(order, id, 0);
    let j = choose|j: int| 0 <= j < order.len() && order[j] == id;
    assert(index_in(order, id) >= 0);
    let t = applied(s, id, TrackSelectionMode::Toggle, order);
    if s.selected.contains(id) {
        assert(t.selected.insert(id) =~= s.selected);
    } else {
        assert(t.selected.remove(id) =~= s.selected);
    }
}

/// Law: a toggle click flips exactly the clicked track and makes it the anchor, whether the
/// click selected or deselected it; so a following range click selects the run from the
/// toggled track to the range-clicked one.
pub proof fn toggle_flips_one_track_and_anchors_it(s: SelectionView, id: TrackId, t: TrackId, order: Seq<TrackId>)
    requires
        order.contains(id),
        order.contains(t),
    ensures
        applied(s, id, TrackSelectionMode::Toggle, order).anchor == Some(id),
        applied(s, id, TrackSelectionMode::Toggle, order).selected.contains(id) == !s.selected.contains(id),
        forall|x: TrackId|
            x != id ==> (#[trigger] applied(s, id, TrackSelectionMode::Toggle, order).selected.contains(x)
                == s.selected.contains(x)),
        applied(applied(s, id, TrackSelectionMode::Toggle, order), t, TrackSelectionMode::Range, order).selected
            == tracks_between(order, index_in(order, id), index_in(order, t)),
{
    lemma_index_from(order, id, 0);
    lemma_index_from(order, t, 0);
    let j = choose|j: int| 0 <= j < order.len() && order[j] == id;
    let k = choose|k: int| 0 <= k < order.len() && order[k] == t;
    assert(index_in(order, id) >= 0);
    assert(index_in(order, t) >= 0);
}

/// Law: a plain click selects exactly the clicked track and makes it the anchor.
pub proof fn replace_selects_only_clicked_track(s: SelectionView, id: TrackId, order: Seq<TrackId>)
    requires
        order.contains(id),
    ensures
        applied(s, id, TrackSelectionMode::Replace, order).selected == set![id],
        applied(s, id, TrackSelectionMode::Replace, order).anchor == Some(id),
{
    lemma_index_from(order, id, 0);
    let j = choose|j: int| 0 <= j < order.len() && order[j] == id;
    assert(index_in(order, id) >= 0);
}

/// Law: a range click with an anchor in the current order selects exactly the tracks between
/// the anchor and the clicked track in that order, both included, and keeps the anchor; a
/// range click without such an anchor acts as a plain click.
pub proof fn range_selects_run_between_anchor_and_click(
    s: SelectionView,
    id: TrackId,
    order: Seq<TrackId>,
)
    requires
        order.contains(id),
    ensures
        s.anchor is Some && order.contains(s.anchor->0) ==> {
            let a = s.anchor->0;
            let r = applied(s, id, TrackSelectionMode::Range, order);
            &&& r.anchor == s.anchor
            &&& r.selected.contains(a)
            &&& r.selected.contains(id)
            &&& forall|t: TrackId|
                #[trigger] r.selected.contains(t) <==> exists|j: int|
                    (index_in(order, a) <= j <= index_in(order, id) || index_in(order, id) <= j
                        <= index_in(order, a)) && order[j] == t
        },
        !(s.anchor is Some && order.contains(s.anchor->0)) ==> applied(
            s,
            id,
            TrackSelectionMode::Range,
            order,
        ) == applied(s, id, TrackSelectionMode::Replace, order),
{
    lemma_index_from(order, id, 0);
    let j = choose|j: int| 0 <= j < order.len() && order[j] == id;
    assert(index_in(order, id) >= 0);
    let ix = index_in(order, id);
    if let Some(a) = s.anchor {
        lemma_index_from(order, a, 0);
        if order.contains(a) {
            let ja = choose|ja: int| 0 <= ja < order.len() && order[ja] == a;
            let ax = index_in(order, a);
            assert(ax >= 0);
            let (start, end) = if ax <= ix {
                (ax, ix)
            } else {
                (ix, ax)
            };
            let sub = order.subrange(start, end + 1);
            let r = applied(s, id, TrackSelectionMode::Range, order);
            assert(sub[ax - start] == a);
            assert(sub[ix - start] == id);
            assert forall|t: TrackId| #[trigger] r.selected.contains(t) <==> exists|j: int|
                (ax <= j <= ix || ix <= j <= ax) && order[j] == t by {
                if r.selected.contains(t) {
                    let m = choose|m: int| 0 <= m < sub.len() && sub[m] == t;
                    assert(order[start + m] == t);
                }
                if exists|j: int| (ax <= j <= ix || ix <= j <= ax) && order[j] == t {
                    let j = choose|j: int| (ax <= j <= ix || ix <= j <= ax) && order[j] == t;
                    assert(sub[j - start] == t);
                }
            }
        } else {
            if index_in(order, a) >= 0 {
                assert(order[index_in(order, a)] == a);
            }
        }
    }
}

/// Law: after the anchor track is removed, or the selection is cleared, the next range click
/// acts as a plain click.
pub proof fn range_without_anchor_replaces(s: SelectionView, id: TrackId, order: Seq<TrackId>)
    requires
        s.anchor is None,
    ensures
        applied(s, id, TrackSelectionMode::Range, order) == applied(s, id, TrackSelectionMode::Replace, order),
{
}

} // verus!
