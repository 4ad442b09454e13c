//! Which disk sources may have changed, without reloading audio automatically.
//!
//! Filesystem notifications are turned into path revisions and pending notifications. Loaded
//! paths are watched through non-recursive watches on their ancestor directories, so deleting and
//! recreating a parent directory is noticed too. Paths are absolute and given as their
//! components, the root first; the owner of the OS watcher turns its events into [`FsEvent`]s and
//! (un)registers the directories these operations name.
use crate::files::FileId;
use std::collections::HashMap;
use std::time::{Duration, Instant};
use vstd::prelude::*;

verus! {

/// `std::time::Instant`, carried as the time of the latest event.
#[verifier::external_type_specification]
#[verifier::external_body]
pub struct ExInstant(Instant);

/// How long a write burst has to be quiet before a reload is offered, in milliseconds.
pub const QUIET_PERIOD_MILLIS: u64 = 300;

/// `Instant::elapsed`: the time since `at`; it depends on the clock, so nothing is stated.
#[verifier::external_body]
fn instant_elapsed(at: &Instant) -> Duration {
    at.elapsed()
}

/// `Duration::as_millis`: the whole milliseconds of a duration; it is not stated what they
/// are, as `Duration` is opaque here.
#[verifier::external_body]
fn duration_as_millis(d: &Duration) -> u128 {
    d.as_millis()
}

/// The current time; nothing is stated of it.
#[verifier::external_body]
fn instant_now() -> Instant {
    Instant::now()
}

/// Disk state of one source path, shared by every loaded file opened from it.
#[derive(Debug)]
pub struct Change {
    /// Incremented by every relevant filesystem event.
    pub revision: u64,
    /// Set until every loaded instance of the file has acknowledged the current revision.
    pub changed: bool,
    /// Time of the latest relevant event.
    pub last_event_time: Option<Instant>,
    /// Last reload failure, shown with the pending notification; a new event clears it.
    pub error: Option<String>,
}

impl Default for Change {
    fn default() -> (r: Self)
        ensures
            r.revision == 0,
            !r.changed,
            r.last_event_time is None,
            r.error is None,
    {
        Change { revision: 0, changed: false, last_event_time: None, error: None }
    }
}

/// Whether a reload may be offered when the latest event lies `elapsed_millis` in the past
/// (`None`: no event yet).
pub open spec fn quiet_long_enough(elapsed_millis: Option<u128>) -> bool {
    match elapsed_millis {
        None => true,
        Some(ms) => ms >= QUIET_PERIOD_MILLIS,
    }
}

/// Whether the write burst has been quiet long enough: no event yet, or the latest one at
/// least the quiet period ago.
pub fn ready_after(elapsed_millis: Option<u128>) -> (r: bool)
    ensures
        r == quiet_long_enough(elapsed_millis),
{
    match elapsed_millis {
        None => true,
        Some(ms) => ms >= QUIET_PERIOD_MILLIS as u128,
    }
}

impl Change {
    /// Whether a reload may be offered now; always true before the first event. After an event
    /// it is `ready_after` of the whole milliseconds the clock reports since that event
    /// (`Instant::elapsed`); that value depends on the clock, so no clause states it.
    pub fn ready(&self) -> (r: bool)
        ensures
            self.last_event_time is None ==> r,
    {
        let elapsed = match &self.last_event_time {
            Some(at) => Some(duration_as_millis(&instant_elapsed(at))),
            None => None,
        };
        ready_after(elapsed)
    }

    /// Record a relevant filesystem event at `now`: a new revision, pending again, and no
    /// error shown.
    pub fn record_event(&mut self, now: Instant)
        requires
            old(self).revision < u64::MAX,
        ensures
            final(self).revision == old(self).revision + 1,
            final(self).changed,
            final(self).last_event_time == Some(now),
            final(self).error is None,
    {
        self.revision = self.revision + 1;
        self.changed = true;
        self.last_event_time = Some(now);
        self.error = None;
    }

    /// A reload of this path failed: pending again, showing `error`; revision and event time
    /// stay.
    pub fn record_reload_failure(&mut self, error: String)
        ensures
            *final(self) == failed_change(*old(self), error),
    {
        self.changed = true;
        self.error = Some(error);
    }

    /// A reload of this path starts: its last error is no longer shown.
    pub fn clear_error(&mut self)
        ensures
            *final(self) == (Change { error: None, ..*old(self) }),
    {
        self.error = None;
    }

    /// Record a relevant filesystem event now.
    pub fn record_event_now(&mut self)
        requires
            old(self).revision < u64::MAX,
        ensures
            final(self).revision == old(self).revision + 1,
            final(self).changed,
            final(self).last_event_time is Some,
            final(self).error is None,
    {
        let now = instant_now();
        self.record_event(now);
    }
}

/// A path as the sequence of its components.
pub open spec fn path_view(p: Seq<String>) -> Seq<Seq<char>> {
    p.map_values(|c: String| c@)
}

/// Whether `pre` is `p` or one of its ancestors (`Path::starts_with`: component-wise).
pub open spec fn is_prefix(pre: Seq<Seq<char>>, p: Seq<Seq<char>>) -> bool {
    pre.len() <= p.len() && p.take(pre.len() as int) == pre
}

/// Whether `path` starts with the components of `prefix`.
pub fn starts_with(path: &Vec<String>, prefix: &Vec<String>) -> (r: bool)
    ensures
        r == is_prefix(path_view(prefix@), path_view(path@)),
{
    if prefix.len() > path.len() {
        return false;
    }
    let mut i: usize = 0;
    while i < prefix.len()
        invariant
            i <= prefix@.len() <= path@.len(),
            forall|j: int| 0 <= j < i ==> (#[trigger] path@[j])@ == prefix@[j]@,
        decreases prefix.len() - i,
    {
        if path[i] != prefix[i] {
            proof {
                assert(path_view(path@).take(prefix@.len() as int)[i as int] != path_view(
                    prefix@,
                )[i as int]);
            }
            return false;
        }
        i += 1;
    }
    proof {
        assert(path_view(path@).take(prefix@.len() as int) =~= path_view(prefix@));
    }
    true
}

/// Whether two paths have the same components.
pub fn same_path(a: &Vec<String>, b: &Vec<String>) -> (r: bool)
    ensures
        r == (path_view(a@) == path_view(b@)),
{
    let r = a.len() == b.len() && starts_with(a, b);
    proof {
        if a@.len() == b@.len() {
            assert(path_view(a@).take(b@.len() as int) =~= path_view(a@));
        } else {
            assert(path_view(a@).len() != path_view(b@).len());
        }
    }
    r
}

/// What a filesystem notification says happened.
#[derive(Debug, Clone, Copy, PartialEq, Eq, Structural)]
pub enum FsEventKind {
    /// Something unspecified happened.
    Any,
    /// A file was read or opened.
    Access,
    Create,
    /// A rename.
    ModifyName,
    /// Any other modification: data, metadata.
    Modify,
    Remove,
    Other,
}

/// A filesystem notification with the absolute paths it names.
#[derive(Debug, Clone)]
pub struct FsEvent {
    pub kind: FsEventKind,
    /// The watcher lost events and every watched path must be treated as changed.
    pub need_rescan: bool,
    pub paths: Vec<Vec<String>>,
}

/// The event says nothing about content: an access or an unclassified event.
pub open spec fn ignored(e: FsEvent) -> bool {
    !e.need_rescan && (e.kind == FsEventKind::Access || e.kind == FsEventKind::Other)
}

/// The event can change what lies below its paths: creation, removal, rename, unknown kind, or a
/// rescan.
pub open spec fn structural(e: FsEvent) -> bool {
    e.need_rescan || e.kind == FsEventKind::Create || e.kind == FsEventKind::Remove || e.kind
        == FsEventKind::ModifyName || e.kind == FsEventKind::Any
}

/// The paths of an event as component sequences.
pub open spec fn event_paths(e: FsEvent) -> Seq<Seq<Seq<char>>> {
    e.paths@.map_values(|p: Vec<String>| path_view(p@))
}

/// The event concerns watched path `p`: it names `p`, or, when structural, an ancestor of `p`;
/// a rescan concerns every path.
pub open spec fn touches(e: FsEvent, p: Seq<Seq<char>>) -> bool {
    !ignored(e) && (e.need_rescan || exists|i: int|
        0 <= i < e.paths@.len() && (#[trigger] event_paths(e)[i] == p || (structural(e)
            && is_prefix(event_paths(e)[i], p))))
}

/// The event invalidates the watch on directory `d`: a structural event at `d` or one of its
/// ancestors, or a rescan.
pub open spec fn invalidates(e: FsEvent, d: Seq<Seq<char>>) -> bool {
    !ignored(e) && structural(e) && (e.need_rescan || exists|i: int|
        0 <= i < e.paths@.len() && is_prefix(#[trigger] event_paths(e)[i], d))
}

/// Law: which events concern a watched path `p` and invalidate a directory watch at `p`.
/// A creation, removal, rename or unknown event naming `p` or one of its ancestors concerns `p`
/// and invalidates a watch on it; a rescan concerns and invalidates everything; an access or
/// unclassified event concerns nothing; a content modification concerns exactly the paths it
/// names and invalidates no directory watch.
pub proof fn event_scope(e: FsEvent, p: Seq<Seq<char>>)
    ensures
        (e.kind == FsEventKind::Create || e.kind == FsEventKind::Remove || e.kind == FsEventKind::ModifyName
            || e.kind == FsEventKind::Any) && (exists|i: int|
            0 <= i < e.paths@.len() && is_prefix(#[trigger] event_paths(e)[i], p)) ==> touches(e, p)
            && invalidates(e, p),
        e.need_rescan ==> touches(e, p) && invalidates(e, p),
        !e.need_rescan && (e.kind == FsEventKind::Access || e.kind == FsEventKind::Other) ==> !touches(e, p)
            && !invalidates(e, p),
        !e.need_rescan && e.kind == FsEventKind::Modify ==> !invalidates(e, p) && (touches(e, p) <==> exists|i: int|
            0 <= i < e.paths@.len() && #[trigger] event_paths(e)[i] == p),
{
}

/// The state of a path after a relevant event at `now`.
pub open spec fn bumped(c: Change, now: Instant) -> Change {
    Change {
        revision: (c.revision + 1) as u64,
        changed: true,
        last_event_time: Some(now),
        error: None,
    }
}

/// Disk-change state of every watched source path and of the watched ancestor directories.
#[derive(Debug)]
pub struct FileChanges {
    /// Watched source paths, including pending opens registered before decoding starts.
    pub paths: Vec<(Vec<String>, Change)>,
    /// Directories currently watched for changes of the entries they list.
    pub directories: Vec<Vec<String>>,
    /// Last successfully applied revision of each loaded file.
    pub acknowledged: HashMap<FileId, u64>,
    /// Watch setup or delivery failure, shown apart from reload errors.
    pub monitor_error: Option<String>,
}

/// Position of the first entry of `entries` from `k` on whose path is `p`, or `-1`.
pub open spec fn entry_index_from(entries: Seq<(Vec<String>, Change)>, p: Seq<Seq<char>>, k: int) -> int
    decreases entries.len() - k,
{
    if k < 0 || k >= entries.len() {
        -1
    } else if path_view(entries[k].0@) == p {
        k
    } else {
        entry_index_from(entries, p, k + 1)
    }
}

/// Position of the entry of path `p`, or `-1`.
pub open spec fn entry_index(entries: Seq<(Vec<String>, Change)>, p: Seq<Seq<char>>) -> int {
    entry_index_from(entries, p, 0)
}

/// The entry found from `k` on is in range and has path `p`, and no entry before it from `k` on
/// has that path.
pub proof fn lemma_entry_index_from(entries: Seq<(Vec<String>, Change)>, p: Seq<Seq<char>>, k: int)
    requires
        0 <= k <= entries.len(),
    ensures
        -1 <= entry_index_from(entries, p, k) < entries.len(),
        entry_index_from(entries, p, k) >= 0 ==> k <= entry_index_from(entries, p, k)
            && path_view(entries[entry_index_from(entries, p, k)].0@) == p,
        forall|j: int|
            k <= j < entries.len() && (entry_index_from(entries, p, k) < 0 || j < entry_index_from(
                entries,
                p,
                k,
            )) ==> path_view(#[trigger] entries[j].0@) != p,
    decreases entries.len() - k,
{
    if k < entries.len() && path_view(entries[k].0@) != p {
        lemma_entry_index_from(entries, p, k + 1);
    }
}

/// The change state after a failed reload: pending again and showing `error`.
pub open spec fn failed_change(c: Change, error: String) -> Change {
    Change { changed: true, error: Some(error), ..c }
}

/// The change state of a new watch: revision zero, nothing pending.
pub open spec fn fresh_change() -> Change {
    Change { revision: 0, changed: false, last_event_time: None, error: None }
}

impl FileChanges {
    /// Nothing watched, no error.
    pub fn new() -> (r: Self)
        ensures
            r.paths@.len() == 0,
            r.directories@.len() == 0,
            r.acknowledged@ == Map::<FileId, u64>::empty(),
            r.monitor_error is None,
    {
        FileChanges {
            paths: Vec::new(),
            directories: Vec::new(),
            acknowledged: HashMap::new(),
            monitor_error: None,
        }
    }

    /// Position of the entry of `path`, if watched.
    pub fn position(&self, path: &Vec<String>) -> (r: Option<usize>)
        ensures
            match r {
                Some(i) => i < self.paths@.len() && i == entry_index(self.paths@, path_view(path@)),
                None => entry_index(self.paths@, path_view(path@)) == -1,
            },
    {
        proof {
            lemma_entry_index_from(self.paths@, path_view(path@), 0);
        }
        let mut i: usize = 0;
        while i < self.paths.len()
            invariant
                i <= self.paths@.len(),
                forall|j: int| 0 <= j < i ==> path_view(#[trigger] self.paths@[j].0@) != path_view(path@),
                entry_index(self.paths@, path_view(path@)) == entry_index_from(self.paths@, path_view(path@), i as int),
            decreases self.paths.len() - i,
        {
            if same_path(&self.paths[i].0, path) {
                return Some(i);
            }
            i += 1;
        }
        None
    }

    /// The change state of a watched path.
    pub fn change(&self, path: &Vec<String>) -> (r: Option<&Change>)
        ensures
            entry_index(self.paths@, path_view(path@)) >= 0 ==> r == Some(
                &self.paths@[entry_index(self.paths@, path_view(path@))].1,
            ),
            entry_index(self.paths@, path_view(path@)) < 0 ==> r is None,
    {
        match self.position(path) {
            Some(i) => Some(&self.paths[i].1),
            None => None,
        }
    }

    /// Register a source path before reading it; a path already watched keeps its state.
    pub fn watch(&mut self, path: Vec<String>)
        ensures
            entry_index(old(self).paths@, path_view(path@)) >= 0 ==> final(self).paths@ == old(
                self,
            ).paths@,
            entry_index(old(self).paths@, path_view(path@)) < 0 ==> final(self).paths@ == old(
                self,
            ).paths@.push((path, fresh_change())),
            final(self).directories == old(self).directories,
            final(self).acknowledged == old(self).acknowledged,
            final(self).monitor_error == old(self).monitor_error,
    {
        if self.position(&path).is_none() {
            self.paths.push((path, Change::default()));
        }
    }
}

impl FsEvent {
    /// Whether the event concerns watched path `path`.
    pub fn touches(&self, path: &Vec<String>) -> (r: bool)
        ensures
            r == touches(*self, path_view(path@)),
    {
        let rescan = self.need_rescan;
        let skip = !rescan && (self.kind == FsEventKind::Access || self.kind == FsEventKind::Other);
        if skip {
            return false;
        }
        if rescan {
            return true;
        }
        let is_structural = self.kind == FsEventKind::Create || self.kind == FsEventKind::Remove
            || self.kind == FsEventKind::ModifyName || self.kind == FsEventKind::Any;
        let mut i: usize = 0;
        while i < self.paths.len()
            invariant
                i <= self.paths@.len(),
                !ignored(*self),
                !self.need_rescan,
                is_structural == structural(*self),
                forall|j: int|
                    0 <= j < i ==> !(#[trigger] event_paths(*self)[j] == path_view(path@) || (structural(
                        *self,
                    ) && is_prefix(event_paths(*self)[j], path_view(path@)))),
            decreases self.paths.len() - i,
        {
            if same_path(&self.paths[i], path) || (is_structural && starts_with(path, &self.paths[i])) {
                proof {
                    assert(event_paths(*self)[i as int] == path_view(self.paths@[i as int]@));
                }
                return true;
            }
            proof {
                assert(event_paths(*self)[i as int] == path_view(self.paths@[i as int]@));
            }
            i += 1;
        }
        false
    }

    /// Whether the event invalidates the watch on directory `dir`.
    pub fn invalidates(&self, dir: &Vec<String>) -> (r: bool)
        ensures
            r == invalidates(*self, path_view(dir@)),
    {
        let rescan = self.need_rescan;
        let skip = !rescan && (self.kind == FsEventKind::Access || self.kind == FsEventKind::Other);
        let is_structural = rescan || self.kind == FsEventKind::Create || self.kind
            == FsEventKind::Remove || self.kind == FsEventKind::ModifyName || self.kind
            == FsEventKind::Any;
        if skip || !is_structural {
            return false;
        }
        if rescan {
            return true;
        }
        let mut i: usize = 0;
        while i < self.paths.len()
            invariant
                i <= self.paths@.len(),
                !ignored(*self),
                structural(*self),
                !self.need_rescan,
                forall|j: int|
                    0 <= j < i ==> !is_prefix(#[trigger] event_paths(*self)[j], path_view(dir@)),
            decreases self.paths.len() - i,
        {
            proof {
                assert(event_paths(*self)[i as int] == path_view(self.paths@[i as int]@));
            }
            if starts_with(dir, &self.paths[i]) {
                proof {
                    assert(is_prefix(event_paths(*self)[i as int], path_view(dir@)));
                }
                return true;
            }
            i += 1;
        }
        false
    }
}

impl FileChanges {
    /// Record one filesystem notification at `now`: every watched path it concerns gets a new
    /// revision, becomes pending again and loses its error; the watches of the directories it
    /// invalidates are forgotten and returned, for the watcher to release.
    pub fn record_event(&mut self, event: &FsEvent, now: Instant) -> (dropped: Vec<Vec<String>>)
        requires
            forall|i: int|
                0 <= i < old(self).paths@.len() && touches(*event, path_view(#[trigger] old(self).paths@[i].0@))
                    ==> old(self).paths@[i].1.revision < u64::MAX,
        ensures
            final(self).paths@.len() == old(self).paths@.len(),
            forall|i: int|
                0 <= i < old(self).paths@.len() ==> (#[trigger] final(self).paths@[i]).0 == old(
                    self,
                ).paths@[i].0 && final(self).paths@[i].1 == if touches(
                    *event,
                    path_view(old(self).paths@[i].0@),
                ) {
                    bumped(old(self).paths@[i].1, now)
                } else {
                    old(self).paths@[i].1
                },
            final(self).directories@ == old(self).directories@.filter(
                |d: Vec<String>| !invalidates(*event, path_view(d@)),
            ),
            dropped@ == old(self).directories@.filter(
                |d: Vec<String>| invalidates(*event, path_view(d@)),
            ),
            final(self).acknowledged == old(self).acknowledged,
            final(self).monitor_error == old(self).monitor_error,
    {
        let mut i: usize = 0;
        while i < self.paths.len()
            invariant
                i <= self.paths@.len(),
                self.paths@.len() == old(self).paths@.len(),
                forall|j: int|
                    0 <= j < old(self).paths@.len() && touches(*event, path_view(#[trigger] old(self).paths@[j].0@))
                        ==> old(self).paths@[j].1.revision < u64::MAX,
                forall|j: int| i <= j < self.paths@.len() ==> #[trigger] self.paths@[j] == old(self).paths@[j],
                forall|j: int|
                    0 <= j < i ==> (#[trigger] self.paths@[j]).0 == old(self).paths@[j].0
                        && self.paths@[j].1 == if touches(*event, path_view(old(self).paths@[j].0@)) {
                        bumped(old(self).paths@[j].1, now)
                    } else {
                        old(self).paths@[j].1
                    },
                self.directories == old(self).directories,
                self.acknowledged == old(self).acknowledged,
                self.monitor_error == old(self).monitor_error,
            decreases self.paths.len() - i,
        {
            if event.touches(&self.paths[i].0) {
                self.paths[i].1.record_event(now);
            }
            i += 1;
        }
        let ghost keep = |d: Vec<String>| !invalidates(*event, path_view(d@));
        let ghost drop = |d: Vec<String>| invalidates(*event, path_view(d@));
        let mut kept: Vec<Vec<String>> = Vec::new();
        let mut dropped: Vec<Vec<String>> = Vec::new();
        let mut dirs: Vec<Vec<String>> = Vec::new();
        std::mem::swap(&mut dirs, &mut self.directories);
        let ghost all = dirs@;
        let n = dirs.len();
        let mut k: usize = 0;
        while dirs.len() > 0
            invariant
                k + dirs@.len() == all.len(),
                all.len() == n,
                dirs@ == all.skip(k as int),
                kept@ == all.take(k as int).filter(keep),
                dropped@ == all.take(k as int).filter(drop),
                keep == (|d: Vec<String>| !invalidates(*event, path_view(d@))),
                drop == (|d: Vec<String>| invalidates(*event, path_view(d@))),
            decreases dirs.len(),
        {
            proof {
                reveal_with_fuel(Seq::<_>::filter, 1);
                assert(all.take(k + 1).drop_last() =~= all.take(k as int));
                assert(all.take(k + 1).last() == all[k as int]);
            }
            let d = dirs.remove(0);
            proof {
                assert(d == all[k as int]);
                assert(dirs@ =~= all.skip(k + 1));
            }
            if event.invalidates(&d) {
                dropped.push(d);
            } else {
                kept.push(d);
            }
            k += 1;
        }
        proof {
            assert(all.take(k as int) =~= all);
        }
        self.directories = kept;
        dropped
    }
}

/// Whether `list` holds a path with the components `p`.
pub open spec fn lists_path(list: Seq<Vec<String>>, p: Seq<Seq<char>>) -> bool {
    exists|j: int| 0 <= j < list.len() && path_view(#[trigger] list[j]@) == p
}

/// No path occurs twice in `list`.
pub open spec fn distinct_paths(list: Seq<Vec<String>>) -> bool {
    forall|a: int, b: int|
        0 <= a < b < list.len() ==> path_view(#[trigger] list[a]@) != path_view(#[trigger] list[b]@)
}

/// Directory `d` is a proper ancestor of a watched path, so it has to be watched.
pub open spec fn needs(entries: Seq<(Vec<String>, Change)>, d: Seq<Seq<char>>) -> bool {
    exists|i: int, k: int|
        0 <= i < entries.len() && 1 <= k < entries[i].0@.len() && #[trigger] path_view(
            entries[i].0@,
        ).take(k) == d
}

/// Whether `list` holds `p`.
pub fn contains_path(list: &Vec<Vec<String>>, p: &Vec<String>) -> (r: bool)
    ensures
        r == lists_path(list@, path_view(p@)),
{
    let mut j: usize = 0;
    while j < list.len()
        invariant
            j <= list@.len(),
            forall|i: int| 0 <= i < j ==> path_view(#[trigger] list@[i]@) != path_view(p@),
        decreases list.len() - j,
    {
        if same_path(&list[j], p) {
            return true;
        }
        j += 1;
    }
    false
}

/// The first `k` components of `p`.
fn prefix_of(p: &Vec<String>, k: usize) -> (r: Vec<String>)
    requires
        k <= p@.len(),
    ensures
        path_view(r@) == path_view(p@).take(k as int),
{
    let mut r: Vec<String> = Vec::new();
    let mut j: usize = 0;
    while j < k
        invariant
            j <= k <= p@.len(),
            path_view(r@) == path_view(p@).take(j as int),
        decreases k - j,
    {
        let c = p[j].clone();
        let ghost before = r@;
        r.push(c);
        proof {
            assert(c == p@[j as int]);
            assert(r@ == before.push(c));
            assert(path_view(r@) =~= path_view(before).push(c@));
            assert(path_view(r@) =~= path_view(p@).take(j + 1));
        }
        j += 1;
    }
    r
}

impl FileChanges {
    /// Every proper ancestor directory of a watched path, each once. Shared ancestors need a
    /// single watch; a non-recursive watch on each ancestor notices the removal of any of them.
    pub fn needed_directories(&self) -> (r: Vec<Vec<String>>)
        ensures
            distinct_paths(r@),
            forall|j: int| 0 <= j < r@.len() ==> needs(self.paths@, path_view(#[trigger] r@[j]@)),
            forall|d: Seq<Seq<char>>| #[trigger] needs(self.paths@, d) ==> lists_path(r@, d),
    {
        let mut r: Vec<Vec<String>> = Vec::new();
        let mut i: usize = 0;
        while i < self.paths.len()
            invariant
                i <= self.paths@.len(),
                distinct_paths(r@),
                forall|j: int| 0 <= j < r@.len() ==> needs(self.paths@, path_view(#[trigger] r@[j]@)),
                forall|a: int, k: int|
                    0 <= a < i && 1 <= k < self.paths@[a].0@.len() ==> lists_path(
                        r@,
                        #[trigger] path_view(self.paths@[a].0@).take(k),
                    ),
            decreases self.paths.len() - i,
        {
            let path = &self.paths[i].0;
            let mut k: usize = 1;
            while k < path.len()
                invariant
                    1 <= k <= path@.len() || path@.len() == 0,
                    i < self.paths@.len(),
                    *path == self.paths@[i as int].0,
                    distinct_paths(r@),
                    forall|j: int| 0 <= j < r@.len() ==> needs(self.paths@, path_view(#[trigger] r@[j]@)),
                    forall|a: int, m: int|
                        0 <= a < i && 1 <= m < self.paths@[a].0@.len() ==> lists_path(
                            r@,
                            #[trigger] path_view(self.paths@[a].0@).take(m),
                        ),
                    forall|m: int| 1 <= m < k ==> lists_path(r@, #[trigger] path_view(path@).take(m)),
                decreases path.len() - k,
            {
                let d = prefix_of(path, k);
                proof {
                    assert(needs(self.paths@, path_view(d@)));
                }
                if !contains_path(&r, &d) {
                    let ghost before = r@;
                    r.push(d);
                    proof {
                        assert forall|j: int| 0 <= j < r@.len() implies needs(
                            self.paths@,
                            path_view(#[trigger] r@[j]@),
                        ) by {
                            if j < before.len() {
                                assert(r@[j] == before[j]);
                            }
                        }
                        assert forall|a: int, m: int|
                            0 <= a < i && 1 <= m < self.paths@[a].0@.len() implies lists_path(
                            r@,
                            #[trigger] path_view(self.paths@[a].0@).take(m),
                        ) by {
                            let w = choose|w: int|
                                0 <= w < before.len() && path_view(#[trigger] before[w]@)
                                    == path_view(self.paths@[a].0@).take(m);
                            assert(r@[w] == before[w]);
                        }
                        assert forall|m: int| 1 <= m < k + 1 implies lists_path(
                            r@,
                            #[trigger] path_view(path@).take(m),
                        ) by {
                            if m < k {
                                let w = choose|w: int|
                                    0 <= w < before.len() && path_view(#[trigger] before[w]@)
                                        == path_view(path@).take(m);
                                assert(r@[w] == before[w]);
                            } else {
                                assert(r@[before.len() as int] == d);
                            }
                        }
                    }
                }
                k += 1;
            }
            i += 1;
        }
        r
    }
}

impl FileChanges {
    /// The needed directories that are not watched yet, each once: what the watcher still has
    /// to register (a directory that does not exist is skipped until a watched parent reports
    /// its creation).
    pub fn directories_to_watch(&self) -> (r: Vec<Vec<String>>)
        ensures
            distinct_paths(r@),
            forall|j: int|
                0 <= j < r@.len() ==> needs(self.paths@, path_view(#[trigger] r@[j]@)) && !lists_path(
                    self.directories@,
                    path_view(r@[j]@),
                ),
            forall|d: Seq<Seq<char>>|
                #[trigger] needs(self.paths@, d) && !lists_path(self.directories@, d) ==> lists_path(r@, d),
    {
        let needed = self.needed_directories();
        let mut r: Vec<Vec<String>> = Vec::new();
        let mut j: usize = 0;
        while j < needed.len()
            invariant
                j <= needed@.len(),
                distinct_paths(needed@),
                forall|a: int| 0 <= a < needed@.len() ==> needs(self.paths@, path_view(#[trigger] needed@[a]@)),
                forall|d: Seq<Seq<char>>| #[trigger] needs(self.paths@, d) ==> lists_path(needed@, d),
                distinct_paths(r@),
                forall|a: int|
                    0 <= a < r@.len() ==> needs(self.paths@, path_view(#[trigger] r@[a]@)) && !lists_path(
                        self.directories@,
                        path_view(r@[a]@),
                    ),
                forall|a: int|
                    0 <= a < r@.len() ==> exists|b: int|
                        0 <= b < j && path_view(#[trigger] r@[a]@) == path_view(needed@[b]@),
                forall|b: int|
                    0 <= b < j && !lists_path(self.directories@, path_view(#[trigger] needed@[b]@))
                        ==> lists_path(r@, path_view(needed@[b]@)),
            decreases needed.len() - j,
        {
            let ghost before = r@;
            if !contains_path(&self.directories, &needed[j]) {
                let d = prefix_of(&needed[j], needed[j].len());
                proof {
                    assert(path_view(needed@[j as int]@).take(needed@[j as int]@.len() as int)
                        =~= path_view(needed@[j as int]@));
                }
                r.push(d);
                proof {
                    assert(r@[before.len() as int] == d);
                    assert forall|a: int| 0 <= a < r@.len() implies exists|b: int|
                        0 <= b < j + 1 && path_view(#[trigger] r@[a]@) == path_view(needed@[b]@) by {
                        if a < before.len() {
                            assert(r@[a] == before[a]);
                        } else {
                            assert(path_view(r@[a]@) == path_view(needed@[j as int]@));
                        }
                    }
                    assert forall|a1: int, a2: int| 0 <= a1 < a2 < r@.len() implies path_view(
                        #[trigger] r@[a1]@,
                    ) != path_view(#[trigger] r@[a2]@) by {
                        if a2 == before.len() {
                            assert(r@[a1] == before[a1]);
                            let b = choose|b: int|
                                0 <= b < j && path_view(#[trigger] before[a1]@) == path_view(needed@[b]@);
                        } else {
                            assert(r@[a1] == before[a1]);
                            assert(r@[a2] == before[a2]);
                        }
                    }
                    assert forall|b: int|
                        0 <= b < j + 1 && !lists_path(self.directories@, path_view(#[trigger] needed@[b]@))
                            implies lists_path(r@, path_view(needed@[b]@)) by {
                        if b < j {
                            let w = choose|w: int| 0 <= w < before.len() && path_view(#[trigger] before[w]@) == path_view(needed@[b]@);
                            assert(r@[w] == before[w]);
                        } else {
                            assert(path_view(r@[before.len() as int]@) == path_view(needed@[b]@));
                        }
                    }
                }
            }
            j += 1;
        }
        proof {
            assert forall|d: Seq<Seq<char>>|
                needs(self.paths@, d) && !lists_path(self.directories@, d) implies lists_path(r@, d) by {
                let b = choose|b: int| 0 <= b < needed@.len() && path_view(#[trigger] needed@[b]@) == d;
                assert(!lists_path(self.directories@, path_view(needed@[b]@)));
            }
        }
        r
    }

    /// Record that the watcher now watches `dir`.
    pub fn mark_watched(&mut self, dir: Vec<String>)
        ensures
            lists_path(old(self).directories@, path_view(dir@)) ==> final(self).directories
                == old(self).directories,
            !lists_path(old(self).directories@, path_view(dir@)) ==> final(self).directories@
                == old(self).directories@.push(dir),
            final(self).paths == old(self).paths,
            final(self).acknowledged == old(self).acknowledged,
            final(self).monitor_error == old(self).monitor_error,
    {
        if !contains_path(&self.directories, &dir) {
            self.directories.push(dir);
        }
    }
}

/// The acknowledged revision of file `id`, zero when none is recorded.
pub open spec fn acked_or_zero(acknowledged: Map<FileId, u64>, id: FileId) -> u64 {
    if acknowledged.contains_key(id) {
        acknowledged[id]
    } else {
        0
    }
}

/// Loaded file `s` (its id and source path) has not applied the latest change of its path.
pub open spec fn update_pending(
    entries: Seq<(Vec<String>, Change)>,
    acknowledged: Map<FileId, u64>,
    s: (FileId, Vec<String>),
) -> bool {
    let ix = entry_index(entries, path_view(s.1@));
    ix >= 0 && entries[ix].1.changed && acked_or_zero(acknowledged, s.0) < entries[ix].1.revision
}

/// The ids of `sources`, in order, that have an update pending.
pub open spec fn pending_ids(
    entries: Seq<(Vec<String>, Change)>,
    acknowledged: Map<FileId, u64>,
    sources: Seq<(FileId, Vec<String>)>,
) -> Seq<FileId>
    decreases sources.len(),
{
    if sources.len() == 0 {
        seq![]
    } else {
        let rest = pending_ids(entries, acknowledged, sources.drop_last());
        if update_pending(entries, acknowledged, sources.last()) {
            rest.push(sources.last().0)
        } else {
            rest
        }
    }
}

/// Position of the first source of file `id` in `sources` from `k` on, or `-1`.
pub open spec fn source_index_from(sources: Seq<(FileId, Vec<String>)>, id: FileId, k: int) -> int
    decreases sources.len() - k,
{
    if k < 0 || k >= sources.len() {
        -1
    } else if sources[k].0 == id {
        k
    } else {
        source_index_from(sources, id, k + 1)
    }
}

proof fn lemma_source_index_from(sources: Seq<(FileId, Vec<String>)>, id: FileId, k: int)
    requires
        0 <= k <= sources.len(),
    ensures
        -1 <= source_index_from(sources, id, k) < sources.len(),
        source_index_from(sources, id, k) >= 0 ==> k <= source_index_from(sources, id, k)
            && sources[source_index_from(sources, id, k)].0 == id,
        source_index_from(sources, id, k) < 0 ==> forall|j: int|
            k <= j < sources.len() ==> (#[trigger] sources[j]).0 != id,
    decreases sources.len() - k,
{
    if k < sources.len() && sources[k].0 != id {
        lemma_source_index_from(sources, id, k + 1);
    }
}

/// Every loaded file opened from `p` has acknowledged `revision`.
pub open spec fn all_acknowledged(
    sources: Seq<(FileId, Vec<String>)>,
    acknowledged: Map<FileId, u64>,
    p: Seq<Seq<char>>,
    revision: u64,
) -> bool {
    forall|i: int|
        0 <= i < sources.len() && path_view((#[trigger] sources[i]).1@) == p ==> acknowledged.contains_key(
            sources[i].0,
        ) && acknowledged[sources[i].0] == revision
}

/// The state of a path once every file opened from it has applied the current revision.
pub open spec fn settled(c: Change) -> Change {
    Change { changed: false, error: None, ..c }
}

/// Position of the first source of file `id`, if any.
fn source_position(sources: &Vec<(FileId, Vec<String>)>, id: FileId) -> (r: Option<usize>)
    ensures
        match r {
            Some(s) => s < sources@.len() && s == source_index_from(sources@, id, 0),
            None => source_index_from(sources@, id, 0) < 0,
        },
{
    proof {
        lemma_source_index_from(sources@, id, 0);
    }
    let mut s: usize = 0;
    while s < sources.len()
        invariant
            s <= sources@.len(),
            source_index_from(sources@, id, 0) == source_index_from(sources@, id, s as int),
        decreases sources.len() - s,
    {
        if sources[s].0 == id {
            return Some(s);
        }
        s += 1;
    }
    None
}

impl FileChanges {
    /// Stop watching every path not in `keep`, and forget the directories no remaining path
    /// needs; those directories are returned, for the watcher to release.
    pub fn retain(&mut self, keep: &Vec<Vec<String>>) -> (dropped: Vec<Vec<String>>)
        ensures
            final(self).paths@ == old(self).paths@.filter(
                |e: (Vec<String>, Change)| lists_path(keep@, path_view(e.0@)),
            ),
            final(self).directories@ == old(self).directories@.filter(
                |d: Vec<String>| needs(final(self).paths@, path_view(d@)),
            ),
            dropped@ == old(self).directories@.filter(
                |d: Vec<String>| !needs(final(self).paths@, path_view(d@)),
            ),
            final(self).acknowledged == old(self).acknowledged,
            final(self).monitor_error == old(self).monitor_error,
    {
        let ghost keep_entry = |e: (Vec<String>, Change)| lists_path(keep@, path_view(e.0@));
        let mut entries: Vec<(Vec<String>, Change)> = Vec::new();
        std::mem::swap(&mut entries, &mut self.paths);
        let ghost all = entries@;
        let n = entries.len();
        let mut kept: Vec<(Vec<String>, Change)> = Vec::new();
        let mut k: usize = 0;
        while entries.len() > 0
            invariant
                k + entries@.len() == all.len(),
                all.len() == n,
                entries@ == all.skip(k as int),
                kept@ == all.take(k as int).filter(keep_entry),
                keep_entry == (|e: (Vec<String>, Change)| lists_path(keep@, path_view(e.0@))),
            decreases entries.len(),
        {
            proof {
                reveal_with_fuel(Seq::<_>::filter, 1);
                assert(all.take(k + 1).drop_last() =~= all.take(k as int));
                assert(all.take(k + 1).last() == all[k as int]);
            }
            let e = entries.remove(0);
            proof {
                assert(e == all[k as int]);
                assert(entries@ =~= all.skip(k + 1));
            }
            if contains_path(keep, &e.0) {
                kept.push(e);
            }
            k += 1;
        }
        proof {
            assert(all.take(k as int) =~= all);
        }
        self.paths = kept;
        let needed = self.needed_directories();
        let ghost paths_now = self.paths@;
        let ghost keep_dir = |d: Vec<String>| needs(paths_now, path_view(d@));
        let ghost drop_dir = |d: Vec<String>| !needs(paths_now, path_view(d@));
        let mut dirs: Vec<Vec<String>> = Vec::new();
        std::mem::swap(&mut dirs, &mut self.directories);
        let ghost all_dirs = dirs@;
        let m = dirs.len();
        let mut kept_dirs: Vec<Vec<String>> = Vec::new();
        let mut dropped: Vec<Vec<String>> = Vec::new();
        let mut k: usize = 0;
        while dirs.len() > 0
            invariant
                k + dirs@.len() == all_dirs.len(),
                all_dirs.len() == m,
                dirs@ == all_dirs.skip(k as int),
                kept_dirs@ == all_dirs.take(k as int).filter(keep_dir),
                dropped@ == all_dirs.take(k as int).filter(drop_dir),
                keep_dir == (|d: Vec<String>| needs(paths_now, path_view(d@))),
                drop_dir == (|d: Vec<String>| !needs(paths_now, path_view(d@))),
                forall|a: int| 0 <= a < needed@.len() ==> needs(paths_now, path_view(#[trigger] needed@[a]@)),
                forall|d: Seq<Seq<char>>| #[trigger] needs(paths_now, d) ==> lists_path(needed@, d),
            decreases dirs.len(),
        {
            proof {
                reveal_with_fuel(Seq::<_>::filter, 1);
                assert(all_dirs.take(k + 1).drop_last() =~= all_dirs.take(k as int));
                assert(all_dirs.take(k + 1).last() == all_dirs[k as int]);
            }
            let d = dirs.remove(0);
            proof {
                assert(d == all_dirs[k as int]);
                assert(dirs@ =~= all_dirs.skip(k + 1));
            }
            let needed_here = contains_path(&needed, &d);
            proof {
                if needed_here {
                    let w = choose|w: int| 0 <= w < needed@.len() && path_view(#[trigger] needed@[w]@) == path_view(d@);
                    assert(needs(paths_now, path_view(needed@[w]@)));
                }
            }
            if needed_here {
                kept_dirs.push(d);
            } else {
                dropped.push(d);
            }
            k += 1;
        }
        proof {
            assert(all_dirs.take(k as int) =~= all_dirs);
        }
        self.directories = kept_dirs;
        dropped
    }

    /// The loaded files, among `sources` (each file's id and source path, in sidebar order),
    /// that have not yet applied the latest observed change of their path.
    pub fn changed_ids(&self, sources: &Vec<(FileId, Vec<String>)>) -> (r: Vec<FileId>)
        ensures
            r@ == pending_ids(self.paths@, self.acknowledged@, sources@),
    {
        let mut r: Vec<FileId> = Vec::new();
        let mut i: usize = 0;
        while i < sources.len()
            invariant
                i <= sources@.len(),
                r@ == pending_ids(self.paths@, self.acknowledged@, sources@.take(i as int)),
            decreases sources.len() - i,
        {
            proof {
                assert(sources@.take(i + 1).drop_last() =~= sources@.take(i as int));
                assert(sources@.take(i + 1).last() == sources@[i as int]);
            }
            let id = sources[i].0;
            let pending = match self.change(&sources[i].1) {
                Some(change) => {
                    let acked = match self.acknowledged.get(&id) {
                        Some(rev) => *rev,
                        None => 0,
                    };
                    change.changed && acked < change.revision
                },
                None => false,
            };
            proof {
                lemma_entry_index_from(self.paths@, path_view(sources@[i as int].1@), 0);
            }
            if pending {
                r.push(id);
            }
            i += 1;
        }
        proof {
            assert(sources@.take(i as int) =~= sources@);
        }
        r
    }

    /// Record that loaded file `id` applied `revision` of its source. `sources` lists every
    /// loaded file with a disk source (id and path). Once every file opened from that path has
    /// applied the revision, the path is no longer pending and its error is cleared; a file
    /// without source changes nothing.
    pub fn acknowledge_reload(&mut self, sources: &Vec<(FileId, Vec<String>)>, id: FileId, revision: u64)
        ensures
            source_index_from(sources@, id, 0) < 0 ==> *final(self) == *old(self),
            source_index_from(sources@, id, 0) >= 0 ==> {
                let p = path_view(sources@[source_index_from(sources@, id, 0)].1@);
                let acked = old(self).acknowledged@.insert(id, revision);
                let ix = entry_index(old(self).paths@, p);
                &&& final(self).acknowledged@ == acked
                &&& final(self).directories == old(self).directories
                &&& final(self).monitor_error == old(self).monitor_error
                &&& final(self).paths@ == if ix >= 0 && all_acknowledged(sources@, acked, p, revision) {
                    old(self).paths@.update(ix, (old(self).paths@[ix].0, settled(old(self).paths@[ix].1)))
                } else {
                    old(self).paths@
                }
            },
    {
        let s = match source_position(sources, id) {
            Some(s) => s,
            None => return,
        };
        let path = &sources[s].1;
        self.acknowledged.insert(id, revision);
        let ghost p = path_view(path@);
        let mut all = true;
        let mut j: usize = 0;
        while j < sources.len()
            invariant
                j <= sources@.len(),
                p == path_view(path@),
                all == forall|k: int|
                    0 <= k < j && path_view((#[trigger] sources@[k]).1@) == p ==> self.acknowledged@.contains_key(
                        sources@[k].0,
                    ) && self.acknowledged@[sources@[k].0] == revision,
            decreases sources.len() - j,
        {
            if same_path(&sources[j].1, path) {
                let ok = match self.acknowledged.get(&sources[j].0) {
                    Some(rev) => *rev == revision,
                    None => false,
                };
                if !ok {
                    all = false;
                }
            }
            j += 1;
        }
        proof {
            assert(self.acknowledged@ == old(self).acknowledged@.insert(id, revision));
            assert(all == all_acknowledged(sources@, self.acknowledged@, p, revision));
        }
        if all {
            match self.position(path) {
                Some(ix) => {
                    let ghost before = self.paths@;
                    self.paths[ix].1.changed = false;
                    self.paths[ix].1.error = None;
                    proof {
                        assert(self.paths@ =~= before.update(ix as int, (before[ix as int].0, settled(before[ix as int].1))));
                    }
                },
                None => {},
            }
        }
    }

    /// Forget the acknowledgements of files no longer loaded: keep those of `loaded` only.
    pub fn retain_acknowledged(&mut self, loaded: &Vec<FileId>)
        ensures
            final(self).acknowledged@ == old(self).acknowledged@.restrict(loaded@.to_set()),
            final(self).paths == old(self).paths,
            final(self).directories == old(self).directories,
            final(self).monitor_error == old(self).monitor_error,
    {
        let mut kept: HashMap<FileId, u64> = HashMap::new();
        let mut i: usize = 0;
        while i < loaded.len()
            invariant
                i <= loaded@.len(),
                kept@ == self.acknowledged@.restrict(loaded@.take(i as int).to_set()),
            decreases loaded.len() - i,
        {
            let id = loaded[i];
            proof {
                assert(loaded@.take(i + 1) =~= loaded@.take(i as int).push(id));
                loaded@.take(i as int).lemma_push_to_set_commute(id);
            }
            match self.acknowledged.get(&id) {
                Some(rev) => {
                    kept.insert(id, *rev);
                },
                None => {},
            }
            proof {
                assert(kept@ =~= self.acknowledged@.restrict(loaded@.take(i + 1).to_set()));
            }
            i += 1;
        }
        proof {
            assert(loaded@.take(i as int) =~= loaded@);
        }
        self.acknowledged = kept;
    }
}

/// Law: reads and unclassified notifications (without a rescan) concern no watched path and
/// invalidate no directory watch.
pub proof fn ignored_events_change_nothing(e: FsEvent, p: Seq<Seq<char>>)
    requires
        ignored(e),
    ensures
        !touches(e, p),
        !invalidates(e, p),
{
}

/// Law: a notification without rescan concerns a watched path exactly when it names the path,
/// or, for a creation, removal or rename, one of its ancestors; paths elsewhere stay untouched.
pub proof fn events_touch_named_paths_and_descendants(e: FsEvent, p: Seq<Seq<char>>)
    requires
        !ignored(e),
        !e.need_rescan,
    ensures
        !structural(e) ==> (touches(e, p) <==> exists|i: int|
            0 <= i < e.paths@.len() && #[trigger] event_paths(e)[i] == p),
        structural(e) ==> (touches(e, p) <==> exists|i: int|
            0 <= i < e.paths@.len() && is_prefix(#[trigger] event_paths(e)[i], p)),
{
    if structural(e) {
        if touches(e, p) {
            let i = choose|i: int|
                0 <= i < e.paths@.len() && (#[trigger] event_paths(e)[i] == p || (structural(e)
                    && is_prefix(event_paths(e)[i], p)));
            if event_paths(e)[i] == p {
                assert(p.take(p.len() as int) =~= p);
                assert(is_prefix(event_paths(e)[i], p));
            }
        }
    }
}

/// Law: a rescan concerns every watched path and invalidates every directory watch.
pub proof fn rescan_touches_everything(e: FsEvent, p: Seq<Seq<char>>)
    requires
        e.need_rescan,
    ensures
        touches(e, p),
        invalidates(e, p),
{
}

/// Law: once loaded file `id` has applied the current revision of its path it has no update
/// pending, while another file opened from the same path that has not applied it keeps its
/// pending update (reloading one entry leaves the other to be reloaded).
pub proof fn acknowledgement_is_per_file(
    entries: Seq<(Vec<String>, Change)>,
    acknowledged: Map<FileId, u64>,
    id: FileId,
    path: Vec<String>,
    other: FileId,
    other_path: Vec<String>,
)
    requires
        entry_index(entries, path_view(path@)) >= 0,
        path_view(other_path@) == path_view(path@),
        other != id,
        update_pending(entries, acknowledged, (other, other_path)),
    ensures
        !update_pending(
            entries,
            acknowledged.insert(id, entries[entry_index(entries, path_view(path@))].1.revision),
            (id, path),
        ),
        update_pending(
            entries,
            acknowledged.insert(id, entries[entry_index(entries, path_view(path@))].1.revision),
            (other, other_path),
        ),
{
}

/// Law: a relevant event makes a path pending again at a newer revision than any file has
/// applied, clears its error, and records when it happened.
pub proof fn event_makes_path_pending(c: Change, now: Instant, applied: u64)
    requires
        c.revision < u64::MAX,
        applied <= c.revision,
    ensures
        bumped(c, now).changed,
        bumped(c, now).revision == c.revision + 1,
        applied < bumped(c, now).revision,
        bumped(c, now).error is None,
        bumped(c, now).last_event_time == Some(now),
{
}

/// Law: the files reported as pending are exactly the loaded files with an update pending
/// (their path is watched, has changed, and is at a newer revision than the file applied), in
/// no greater number than the loaded files.
pub proof fn pending_files_are_those_behind(
    entries: Seq<(Vec<String>, Change)>,
    acknowledged: Map<FileId, u64>,
    sources: Seq<(FileId, Vec<String>)>,
    x: FileId,
)
    ensures
        pending_ids(entries, acknowledged, sources).contains(x) <==> exists|i: int|
            0 <= i < sources.len() && (#[trigger] sources[i]).0 == x && update_pending(entries, acknowledged, sources[i]),
        pending_ids(entries, acknowledged, sources).len() <= sources.len(),
    decreases sources.len(),
{
    if sources.len() > 0 {
        let init = sources.drop_last();
        pending_files_are_those_behind(entries, acknowledged, init, x);
        let rest = pending_ids(entries, acknowledged, init);
        let r = pending_ids(entries, acknowledged, sources);
        let last = sources.last();
        assert(sources[sources.len() - 1] == last);
        assert forall|i: int| 0 <= i < init.len() implies #[trigger] init[i] == sources[i] by {}
        if update_pending(entries, acknowledged, last) {
            assert(r == rest.push(last.0));
            if rest.contains(x) {
                let k = choose|k: int| 0 <= k < rest.len() && rest[k] == x;
                assert(r[k] == x);
            }
            if r.contains(x) && !rest.contains(x) {
                let k = choose|k: int| 0 <= k < r.len() && r[k] == x;
                assert(k == rest.len());
            }
            if last.0 == x {
                assert(r[rest.len() as int] == x);
            }
        } else {
            assert(r == rest);
        }
        if exists|i: int|
            0 <= i < sources.len() && (#[trigger] sources[i]).0 == x && update_pending(entries, acknowledged, sources[i]) {
            let i = choose|i: int|
                0 <= i < sources.len() && (#[trigger] sources[i]).0 == x && update_pending(entries, acknowledged, sources[i]);
            if i < sources.len() - 1 {
                assert(init[i] == sources[i]);
            }
        }
        if exists|i: int|
            0 <= i < init.len() && (#[trigger] init[i]).0 == x && update_pending(entries, acknowledged, init[i]) {
            let i = choose|i: int|
                0 <= i < init.len() && (#[trigger] init[i]).0 == x && update_pending(entries, acknowledged, init[i]);
            assert(sources[i] == init[i]);
        }
    }
}

} // verus!
