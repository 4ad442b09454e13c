//! Bookkeeping of in-flight file loads: how many are pending, the id of each, and the progress
//! handle registered with it, until its result arrives.
use std::collections::HashMap;
use std::path::PathBuf;
use vstd::prelude::*;

verus! {

broadcast use vstd::std_specs::hash::group_hash_axioms;

/// `std::path::PathBuf`, carried through the bookkeeping without being read.
#[verifier::external_type_specification]
#[verifier::external_body]
pub struct ExPathBuf(PathBuf);

/// Identifier of a load.
pub type LoadId = u64;

/// A registered load: the file it reads and its progress handle.
#[derive(Debug)]
pub struct LoadProgressEntry<H> {
    pub path: PathBuf,
    pub handle: H,
}

/// In-flight loads and their progress handles.
#[derive(Debug)]
pub struct LoadManager<H> {
    pending: usize,
    next_id: LoadId,
    progress: HashMap<LoadId, LoadProgressEntry<H>>,
}

/// A load manager as a mathematical value.
pub struct LoadManagerView<H> {
    pub pending: usize,
    pub next_id: LoadId,
    pub progress: Map<LoadId, LoadProgressEntry<H>>,
}

impl<H> View for LoadManager<H> {
    type V = LoadManagerView<H>;

    closed spec fn view(&self) -> LoadManagerView<H> {
        LoadManagerView { pending: self.pending, next_id: self.next_id, progress: self.progress@ }
    }
}

/// Every tracked load has an id below the next id to hand out, which is at least one.
pub open spec fn load_manager_wf<H>(m: LoadManagerView<H>) -> bool {
    &&& m.next_id >= 1
    &&& forall|id: LoadId| #[trigger] m.progress.contains_key(id) ==> id < m.next_id
}

/// `x + 1`, saturating at the maximum.
pub open spec fn saturating_inc(x: int, max: int) -> int {
    if x < max {
        x + 1
    } else {
        max
    }
}

impl<H> LoadManager<H> {
    /// No pending loads; the first load gets id 1.
    pub fn new() -> (r: Self)
        ensures
            r@.pending == 0,
            r@.next_id == 1,
            r@.progress == Map::<LoadId, LoadProgressEntry<H>>::empty(),
            load_manager_wf(r@),
    {
        LoadManager { pending: 0, next_id: 1, progress: HashMap::new() }
    }

    /// Number of loads still in progress.
    pub fn pending(&self) -> (r: usize)
        ensures
            r == self@.pending,
    {
        self.pending
    }

    /// Register a new load and return its id, so that its result can be matched later.
    pub fn start_load(&mut self, path: PathBuf, handle: H) -> (load_id: LoadId)
        ensures
            load_id == old(self)@.next_id,
            final(self)@.pending == saturating_inc(old(self)@.pending as int, usize::MAX as int),
            final(self)@.next_id == saturating_inc(old(self)@.next_id as int, u64::MAX as int),
            final(self)@.progress == old(self)@.progress.insert(
                load_id,
                LoadProgressEntry { path, handle },
            ),
            load_manager_wf(old(self)@) && old(self)@.next_id < u64::MAX ==> load_manager_wf(
                final(self)@,
            ),
    {
        self.pending = self.pending.saturating_add(1);
        let load_id = self.next_id;
        self.next_id = self.next_id.saturating_add(1);
        self.progress.insert(load_id, LoadProgressEntry { path, handle });
        load_id
    }

    /// A copy of the progress handle of a load, if it is still tracked.
    pub fn progress_handle(&self, load_id: LoadId) -> (r: Option<H>) where H: Clone
        ensures
            match r {
                Some(h) => self@.progress.contains_key(load_id) && cloned(
                    self@.progress[load_id].handle,
                    h,
                ),
                None => !self@.progress.contains_key(load_id),
            },
    {
        match self.progress.get(&load_id) {
            Some(entry) => Some(entry.handle.clone()),
            None => None,
        }
    }

    /// Some registered load, if any; the UI shows a single load.
    pub fn any_progress_entry(&self) -> (r: Option<&LoadProgressEntry<H>>)
        ensures
            match r {
                Some(e) => exists|id: LoadId|
                    #![trigger self@.progress[id]]
                    self@.progress.contains_key(id) && self@.progress[id] == *e,
                None => self@.progress.dom().is_empty(),
            },
    {
        for entry in it: self.progress.values()
            invariant
                it.index() == 0,
                it.seq().len() == self@.progress.dom().len(),
                it.seq().unref().to_set() == self@.progress.values(),
        {
            proof {
                assert(it.seq().unref()[0] == *entry);
                assert(it.seq().unref().to_set().contains(*entry));
            }
            return Some(entry);
        }
        proof {
            assert(self@.progress.dom().finite());
            assert(self@.progress.dom().len() == 0);
        }
        None
    }

    /// Account for the arrived result of a load: one fewer pending, and the load forgotten.
    /// Returns a copy of its progress handle if it was tracked.
    pub fn finish_load(&mut self, load_id: LoadId) -> (r: Option<H>) where H: Clone
        ensures
            final(self)@.pending == if old(self)@.pending > 0 {
                old(self)@.pending - 1
            } else {
                0
            },
            final(self)@.next_id == old(self)@.next_id,
            final(self)@.progress == old(self)@.progress.remove(load_id),
            load_manager_wf(old(self)@) ==> load_manager_wf(final(self)@),
            match r {
                Some(h) => old(self)@.progress.contains_key(load_id) && cloned(
                    old(self)@.progress[load_id].handle,
                    h,
                ),
                None => !old(self)@.progress.contains_key(load_id),
            },
    {
        self.pending = self.pending.saturating_sub(1);
        let handle = self.progress_handle(load_id);
        self.progress.remove(&load_id);
        handle
    }
}

impl<H> Default for LoadManager<H> {
    fn default() -> (r: Self)
        ensures
            r@.pending == 0,
            r@.next_id == 1,
            r@.progress == Map::<LoadId, LoadProgressEntry<H>>::empty(),
            load_manager_wf(r@),
    {
        LoadManager::new()
    }
}

/// Law: the result of a load started with `handle` is matched to that handle (finishing it
/// returns a copy of it), and finishing it forgets exactly that load.
pub proof fn finished_load_returns_its_handle<H>(m: LoadManagerView<H>, path: PathBuf, handle: H)
    ensures
        ({
            let started = m.progress.insert(m.next_id, LoadProgressEntry { path, handle });
            &&& started.contains_key(m.next_id)
            &&& started[m.next_id].handle == handle
            &&& started.remove(m.next_id) == m.progress.remove(m.next_id)
        }),
{
    let started = m.progress.insert(m.next_id, LoadProgressEntry { path, handle });
    assert(started.remove(m.next_id) =~= m.progress.remove(m.next_id));
}

/// Law: a new load id differs from every id returned before: it is the next id, every tracked
/// load has a smaller one, and after it is handed out (below the id limit) the next id exceeds
/// it and every earlier one, so later loads get larger ids still.
pub proof fn started_load_id_is_fresh<H>(m: LoadManagerView<H>, path: PathBuf, handle: H)
    requires
        load_manager_wf(m),
        m.next_id < u64::MAX,
    ensures
        !m.progress.contains_key(m.next_id),
        forall|id: LoadId| #[trigger] m.progress.contains_key(id) ==> id < m.next_id,
        ({
            let after = LoadManagerView {
                pending: m.pending,
                next_id: saturating_inc(m.next_id as int, u64::MAX as int) as u64,
                progress: m.progress.insert(m.next_id, LoadProgressEntry { path, handle }),
            };
            &&& after.next_id > m.next_id
            &&& load_manager_wf(after)
        }),
{
}

} // verus!
