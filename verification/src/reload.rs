//! Planning and checking a reload of changed files and a file-pair diff: which files a batch
//! takes, whether what was read still fits the workspace, and in which order the inputs of
//! dependent diffs become available. Reading files and computing audio happen elsewhere; these
//! functions decide from what was read.
use crate::audio::ChIx;
use crate::dependencies::{BufferId, Diff};
use crate::files::FileId;
use crate::monitoring::{
    Change, FileChanges, entry_index, entry_index_from, failed_change, lemma_entry_index_from, path_view, same_path,
};
use std::collections::HashSet;
use vstd::prelude::*;

verus! {

broadcast use vstd::std_specs::hash::group_hash_axioms;

/// Why the channel pairs of a file-pair diff cannot be computed.
#[derive(Debug, Clone, Copy, PartialEq, Eq, Structural)]
pub enum DiffPairError {
    /// No channel pair was selected.
    NoPairs,
    /// The first file lacks this channel.
    MissingA(ChIx),
    /// The second file lacks this channel.
    MissingB(ChIx),
}

/// Position of the first `x` in `list` from `k` on, or `-1`.
pub open spec fn position_from(list: Seq<ChIx>, x: ChIx, k: int) -> int
    decreases list.len() - k,
{
    if k < 0 || k >= list.len() {
        -1
    } else if list[k] == x {
        k
    } else {
        position_from(list, x, k + 1)
    }
}

proof fn lemma_position_from(list: Seq<ChIx>, x: ChIx, k: int)
    requires
        0 <= k <= list.len(),
    ensures
        -1 <= position_from(list, x, k) < list.len(),
        position_from(list, x, k) >= 0 ==> k <= position_from(list, x, k) && list[position_from(list, x, k)] == x,
    decreases list.len() - k,
{
    if k < list.len() && list[k] != x {
        lemma_position_from(list, x, k + 1);
    }
}

/// Position of the first `x` in `list`.
fn position(list: &[ChIx], x: ChIx) -> (r: Option<usize>)
    ensures
        match r {
            Some(i) => i < list@.len() && i == position_from(list@, x, 0),
            None => position_from(list@, x, 0) == -1,
        },
{
    proof {
        lemma_position_from(list@, x, 0);
    }
    let mut i: usize = 0;
    while i < list.len()
        invariant
            i <= list@.len(),
            position_from(list@, x, 0) == position_from(list@, x, i as int),
        decreases list.len() - i,
    {
        if list[i] == x {
            return Some(i);
        }
        i += 1;
    }
    None
}

/// The sources of the first `n` pairs: the positions of each pair's channels among the
/// channels read from file A and file B, or the first missing channel.
pub open spec fn pair_sources_upto(
    pairs: Seq<(ChIx, ChIx)>,
    loaded_a: Seq<ChIx>,
    loaded_b: Seq<ChIx>,
    n: int,
) -> Result<Seq<(usize, usize)>, DiffPairError>
    decreases n,
{
    if n <= 0 {
        Ok(seq![])
    } else {
        match pair_sources_upto(pairs, loaded_a, loaded_b, n - 1) {
            Err(e) => Err(e),
            Ok(s) => {
                let (ch_a, ch_b) = pairs[n - 1];
                let ia = position_from(loaded_a, ch_a, 0);
                let ib = position_from(loaded_b, ch_b, 0);
                if ia < 0 {
                    Err(DiffPairError::MissingA(ch_a))
                } else if ib < 0 {
                    Err(DiffPairError::MissingB(ch_b))
                } else {
                    Ok(s.push((ia as usize, ib as usize)))
                }
            },
        }
    }
}

/// The sources of every pair, and `NoPairs` for an empty selection.
pub open spec fn pair_sources(pairs: Seq<(ChIx, ChIx)>, loaded_a: Seq<ChIx>, loaded_b: Seq<ChIx>) -> Result<
    Seq<(usize, usize)>,
    DiffPairError,
> {
    if pairs.len() == 0 {
        Err(DiffPairError::NoPairs)
    } else {
        pair_sources_upto(pairs, loaded_a, loaded_b, pairs.len() as int)
    }
}

/// Where the inputs of each selected channel pair are among the channels read from the two
/// files (`loaded_a`, `loaded_b`), in pair order: fails for an empty selection, and at the first
/// pair whose channel of A, then of B, was not read.
pub fn diff_pair_sources(pairs: &[(ChIx, ChIx)], loaded_a: &[ChIx], loaded_b: &[ChIx]) -> (r: Result<
    Vec<(usize, usize)>,
    DiffPairError,
>)
    ensures
        match r {
            Ok(v) => pair_sources(pairs@, loaded_a@, loaded_b@) == Ok::<Seq<(usize, usize)>, DiffPairError>(v@),
            Err(e) => pair_sources(pairs@, loaded_a@, loaded_b@) == Err::<Seq<(usize, usize)>, DiffPairError>(e),
        },
{
    if pairs.len() == 0 {
        return Err(DiffPairError::NoPairs);
    }
    let mut out: Vec<(usize, usize)> = Vec::new();
    let mut i: usize = 0;
    while i < pairs.len()
        invariant
            i <= pairs@.len(),
            pair_sources_upto(pairs@, loaded_a@, loaded_b@, i as int) == Ok::<Seq<(usize, usize)>, DiffPairError>(out@),
        decreases pairs.len() - i,
    {
        let (ch_a, ch_b) = pairs[i];
        let ia = match position(loaded_a, ch_a) {
            Some(ia) => ia,
            None => {
                proof {
                    lemma_pair_sources_err(pairs@, loaded_a@, loaded_b@, i as int + 1);
                }
                return Err(DiffPairError::MissingA(ch_a));
            },
        };
        let ib = match position(loaded_b, ch_b) {
            Some(ib) => ib,
            None => {
                proof {
                    lemma_pair_sources_err(pairs@, loaded_a@, loaded_b@, i as int + 1);
                }
                return Err(DiffPairError::MissingB(ch_b));
            },
        };
        out.push((ia, ib));
        i += 1;
    }
    Ok(out)
}

/// Once the pairs up to `n` fail, every longer prefix fails the same way.
proof fn lemma_pair_sources_err(pairs: Seq<(ChIx, ChIx)>, loaded_a: Seq<ChIx>, loaded_b: Seq<ChIx>, n: int)
    requires
        0 <= n <= pairs.len(),
        pair_sources_upto(pairs, loaded_a, loaded_b, n) is Err,
    ensures
        pair_sources_upto(pairs, loaded_a, loaded_b, pairs.len() as int) == pair_sources_upto(
            pairs,
            loaded_a,
            loaded_b,
            n,
        ),
    decreases pairs.len() - n,
{
    if n < pairs.len() {
        lemma_pair_sources_err(pairs, loaded_a, loaded_b, n + 1);
    }
}

/// Whether a re-read file still has every previously loaded channel: each is below the file's
/// channel count.
pub fn channels_still_present(channels: &[ChIx], channel_count: usize) -> (r: bool)
    ensures
        r == forall|i: int| 0 <= i < channels@.len() ==> #[trigger] channels@[i] < channel_count,
{
    let mut i: usize = 0;
    while i < channels.len()
        invariant
            i <= channels@.len(),
            forall|j: int| 0 <= j < i ==> #[trigger] channels@[j] < channel_count,
        decreases channels.len() - i,
    {
        if channels[i] >= channel_count {
            return false;
        }
        i += 1;
    }
    true
}

/// A diff whose input is neither available nor produced by an earlier diff of a reload.
#[derive(Debug, Clone, Copy, PartialEq, Eq, Structural)]
pub struct MissingInput {
    /// Position of the diff in the reload's list.
    pub index: usize,
    pub buffer_id: BufferId,
}

/// Input `x` of diff `i` is at hand: captured, re-read, or produced by an earlier diff.
pub open spec fn input_at_hand(diffs: Seq<(BufferId, Diff)>, available: Set<BufferId>, i: int, x: BufferId) -> bool {
    available.contains(x) || exists|j: int| 0 <= j < i && (#[trigger] diffs[j]).1.buffer_id_diff == x
}

/// Both inputs of diff `i` are at hand.
pub open spec fn inputs_at_hand(diffs: Seq<(BufferId, Diff)>, available: Set<BufferId>, i: int) -> bool {
    input_at_hand(diffs, available, i, diffs[i].1.buffer_id_a) && input_at_hand(
        diffs,
        available,
        i,
        diffs[i].1.buffer_id_b,
    )
}

/// Check that the diffs of a reload, recomputed in list order, each find their inputs among
/// the `available` buffers or the outputs of earlier diffs; otherwise the first diff that
/// misses one, and that input (its A input first).
pub fn reload_diff_inputs(diffs: &[(BufferId, Diff)], available: &HashSet<BufferId>) -> (r: Result<
    (),
    MissingInput,
>)
    ensures
        match r {
            Ok(()) => forall|i: int| 0 <= i < diffs@.len() ==> #[trigger] inputs_at_hand(diffs@, available@, i),
            Err(m) => {
                &&& m.index < diffs@.len()
                &&& forall|i: int| 0 <= i < m.index ==> #[trigger] inputs_at_hand(diffs@, available@, i)
                &&& if !input_at_hand(diffs@, available@, m.index as int, diffs@[m.index as int].1.buffer_id_a) {
                    m.buffer_id == diffs@[m.index as int].1.buffer_id_a
                } else {
                    m.buffer_id == diffs@[m.index as int].1.buffer_id_b && !input_at_hand(
                        diffs@,
                        available@,
                        m.index as int,
                        diffs@[m.index as int].1.buffer_id_b,
                    )
                }
            },
        },
{
    let mut produced: HashSet<BufferId> = HashSet::new();
    let mut i: usize = 0;
    while i < diffs.len()
        invariant
            i <= diffs@.len(),
            forall|x: BufferId|
                #[trigger] produced@.contains(x) <==> exists|j: int| 0 <= j < i && (#[trigger] diffs@[j]).1.buffer_id_diff == x,
            forall|k: int| 0 <= k < i ==> #[trigger] inputs_at_hand(diffs@, available@, k),
        decreases diffs.len() - i,
    {
        let d = diffs[i].1;
        let has_a = available.contains(&d.buffer_id_a) || produced.contains(&d.buffer_id_a);
        if !has_a {
            return Err(MissingInput { index: i, buffer_id: d.buffer_id_a });
        }
        let has_b = available.contains(&d.buffer_id_b) || produced.contains(&d.buffer_id_b);
        if !has_b {
            return Err(MissingInput { index: i, buffer_id: d.buffer_id_b });
        }
        let ghost before = produced@;
        produced.insert(d.buffer_id_diff);
        proof {
            assert forall|x: BufferId| #[trigger] produced@.contains(x) <==> exists|j: int|
                0 <= j < i + 1 && (#[trigger] diffs@[j]).1.buffer_id_diff == x by {
                if produced@.contains(x) && x != d.buffer_id_diff {
                    assert(before.contains(x));
                }
                if x == d.buffer_id_diff {
                    assert(diffs@[i as int].1.buffer_id_diff == x);
                }
            }
            assert forall|k: int| 0 <= k < i + 1 implies #[trigger] inputs_at_hand(diffs@, available@, k) by {
                if k < i {
                    assert(inputs_at_hand(diffs@, available@, k));
                }
            }
        }
        i += 1;
    }
    Ok(())
}

/// Why a reload batch cannot start, or what it read cannot be installed.
#[derive(Debug, Clone, Copy, PartialEq, Eq, Structural)]
pub enum ReloadError {
    /// The file is no longer open.
    FileClosed(FileId),
    /// The file was not opened from disk.
    NoDiskSource(FileId),
    /// The file's path is not watched.
    NotMonitored(FileId),
    /// The file's path changed less than the quiet period ago.
    StillChanging(FileId),
    /// The workspace was cleared while the batch was prepared.
    WorkspaceCleared,
    /// Diff dependencies were added or removed while the batch was prepared.
    DependenciesChanged,
    /// The file record or its offset changed while the batch was prepared.
    FileChanged(FileId),
    /// The file changed on disk while it was read.
    ChangedWhileUpdating(FileId),
    /// An input of a diff to recompute was closed.
    DiffSourceClosed(BufferId),
    /// The file's disk stamp could not be read again.
    StampUnreadable(FileId),
}

/// Position of the first open file `id` among `files` from `k` on, or `-1`.
pub open spec fn file_index_from(files: Seq<(FileId, Option<Vec<String>>)>, id: FileId, k: int) -> int
    decreases files.len() - k,
{
    if k < 0 || k >= files.len() {
        -1
    } else if files[k].0 == id {
        k
    } else {
        file_index_from(files, id, k + 1)
    }
}

proof fn lemma_file_index_from(files: Seq<(FileId, Option<Vec<String>>)>, id: FileId, k: int)
    requires
        0 <= k <= files.len(),
    ensures
        -1 <= file_index_from(files, id, k) < files.len(),
        file_index_from(files, id, k) >= 0 ==> files[file_index_from(files, id, k)].0 == id,
    decreases files.len() - k,
{
    if k < files.len() && files[k].0 != id {
        lemma_file_index_from(files, id, k + 1);
    }
}

/// A planned reload entry: the file, its watched path, and the revision being read.
pub type PlannedEntry = (FileId, Seq<Seq<char>>, u64);

/// One requested file added to a plan: a repeated id is dropped; a closed file, one without
/// disk source or with an unwatched path fails; an unchanged path is skipped; a path still in
/// its quiet period fails; otherwise the file is taken with its path's current revision.
pub open spec fn plan_step(
    acc: Result<Seq<PlannedEntry>, ReloadError>,
    id: FileId,
    repeated: bool,
    files: Seq<(FileId, Option<Vec<String>>)>,
    entries: Seq<(Vec<String>, Change)>,
    ready: Seq<bool>,
) -> Result<Seq<PlannedEntry>, ReloadError> {
    match acc {
        Err(e) => Err(e),
        Ok(s) => if repeated {
            Ok(s)
        } else {
            let fi = file_index_from(files, id, 0);
            if fi < 0 {
                Err(ReloadError::FileClosed(id))
            } else {
                match files[fi].1 {
                    None => Err(ReloadError::NoDiskSource(id)),
                    Some(p) => {
                        let ix = entry_index(entries, path_view(p@));
                        if ix < 0 {
                            Err(ReloadError::NotMonitored(id))
                        } else if !entries[ix].1.changed {
                            Ok(s)
                        } else if !ready[ix] {
                            Err(ReloadError::StillChanging(id))
                        } else {
                            Ok(s.push((id, path_view(p@), entries[ix].1.revision)))
                        }
                    },
                }
            }
        },
    }
}

/// The plan after the first `n` requested files.
pub open spec fn plan_upto(
    requested: Seq<FileId>,
    n: int,
    files: Seq<(FileId, Option<Vec<String>>)>,
    entries: Seq<(Vec<String>, Change)>,
    ready: Seq<bool>,
) -> Result<Seq<PlannedEntry>, ReloadError>
    decreases n,
{
    if n <= 0 {
        Ok(seq![])
    } else {
        plan_step(
            plan_upto(requested, n - 1, files, entries, ready),
            requested[n - 1],
            requested.take(n - 1).contains(requested[n - 1]),
            files,
            entries,
            ready,
        )
    }
}

/// The files a reload batch takes: none while a batch is active, else every requested file
/// in order, as `plan_step` decides.
pub open spec fn planned_reload(
    active: bool,
    requested: Seq<FileId>,
    files: Seq<(FileId, Option<Vec<String>>)>,
    entries: Seq<(Vec<String>, Change)>,
    ready: Seq<bool>,
) -> Result<Seq<PlannedEntry>, ReloadError> {
    if active {
        Ok(seq![])
    } else {
        plan_upto(requested, requested.len() as int, files, entries, ready)
    }
}

/// A plan with its paths as component sequences.
pub open spec fn plan_view(v: Seq<(FileId, Vec<String>, u64)>) -> Seq<PlannedEntry> {
    v.map_values(|e: (FileId, Vec<String>, u64)| (e.0, path_view(e.1@), e.2))
}

proof fn lemma_plan_err(
    requested: Seq<FileId>,
    n: int,
    files: Seq<(FileId, Option<Vec<String>>)>,
    entries: Seq<(Vec<String>, Change)>,
    ready: Seq<bool>,
)
    requires
        0 <= n <= requested.len(),
        plan_upto(requested, n, files, entries, ready) is Err,
    ensures
        plan_upto(requested, requested.len() as int, files, entries, ready) == plan_upto(
            requested,
            n,
            files,
            entries,
            ready,
        ),
    decreases requested.len() - n,
{
    if n < requested.len() {
        lemma_plan_err(requested, n + 1, files, entries, ready);
    }
}

/// Position of open file `id` in `files`.
fn file_position(files: &[(FileId, Option<Vec<String>>)], id: FileId) -> (r: Option<usize>)
    ensures
        match r {
            Some(i) => i < files@.len() && i == file_index_from(files@, id, 0),
            None => file_index_from(files@, id, 0) == -1,
        },
{
    proof {
        lemma_file_index_from(files@, id, 0);
    }
    let mut i: usize = 0;
    while i < files.len()
        invariant
            i <= files@.len(),
            file_index_from(files@, id, 0) == file_index_from(files@, id, i as int),
        decreases files.len() - i,
    {
        if files[i].0 == id {
            return Some(i);
        }
        i += 1;
    }
    None
}

/// Which files a reload batch takes, with their watched path and the revision being read.
/// `files` lists the open files with their disk path (`None` without disk source); `ready`
/// says for each watched path of `changes` whether it has been quiet long enough. Nothing is
/// taken while a batch is active; repeated ids count once; a closed file, a file without disk
/// source, or one whose path is not watched fails the batch; unchanged paths are skipped; a
/// path still in its quiet period fails the batch.
pub fn plan_reload(
    active: bool,
    requested: &[FileId],
    files: &[(FileId, Option<Vec<String>>)],
    changes: &FileChanges,
    ready: &[bool],
) -> (r: Result<Vec<(FileId, Vec<String>, u64)>, ReloadError>)
    requires
        ready@.len() == changes.paths@.len(),
    ensures
        match r {
            Ok(v) => planned_reload(active, requested@, files@, changes.paths@, ready@) == Ok::<
                Seq<PlannedEntry>,
                ReloadError,
            >(plan_view(v@)),
            Err(e) => planned_reload(active, requested@, files@, changes.paths@, ready@) == Err::<
                Seq<PlannedEntry>,
                ReloadError,
            >(e),
        },
{
    let mut plan: Vec<(FileId, Vec<String>, u64)> = Vec::new();
    if active {
        proof {
            assert(plan_view(plan@) =~= Seq::<PlannedEntry>::empty());
        }
        return Ok(plan);
    }
    let ghost entries = changes.paths@;
    let mut seen: HashSet<FileId> = HashSet::new();
    proof {
        assert(plan_view(plan@) =~= Seq::<PlannedEntry>::empty());
    }
    let mut k: usize = 0;
    while k < requested.len()
        invariant
            k <= requested@.len(),
            !active,
            entries == changes.paths@,
            ready@.len() == entries.len(),
            forall|x: FileId| #[trigger] seen@.contains(x) <==> requested@.take(k as int).contains(x),
            plan_upto(requested@, k as int, files@, entries, ready@) == Ok::<Seq<PlannedEntry>, ReloadError>(
                plan_view(plan@),
            ),
        decreases requested.len() - k,
    {
        let id = requested[k];
        proof {
            assert(requested@.take(k as int + 1).take(k as int) =~= requested@.take(k as int));
        }
        let ghost before = plan@;
        if seen.contains(&id) {
            k += 1;
            continue;
        }
        proof {
            assert(!requested@.take(k as int).contains(id));
            assert(requested@[k as int] == id);
        }
        seen.insert(id);
        let fi = match file_position(files, id) {
            Some(fi) => fi,
            None => {
                proof {
                    assert(plan_upto(requested@, k as int + 1, files@, entries, ready@) == Err::<
                        Seq<PlannedEntry>,
                        ReloadError,
                    >(ReloadError::FileClosed(id)));
                    lemma_plan_err(requested@, k as int + 1, files@, entries, ready@);
                }
                return Err(ReloadError::FileClosed(id));
            },
        };
        let path = match &files[fi].1 {
            Some(p) => p,
            None => {
                proof {
                    assert(plan_upto(requested@, k as int + 1, files@, entries, ready@) == Err::<
                        Seq<PlannedEntry>,
                        ReloadError,
                    >(ReloadError::NoDiskSource(id)));
                    lemma_plan_err(requested@, k as int + 1, files@, entries, ready@);
                }
                return Err(ReloadError::NoDiskSource(id));
            },
        };
        let ix = match changes.position(path) {
            Some(ix) => ix,
            None => {
                proof {
                    lemma_plan_err(requested@, k as int + 1, files@, entries, ready@);
                }
                return Err(ReloadError::NotMonitored(id));
            },
        };
        let change = &changes.paths[ix].1;
        if change.changed {
            if !ready[ix] {
                proof {
                    lemma_plan_err(requested@, k as int + 1, files@, entries, ready@);
                }
                return Err(ReloadError::StillChanging(id));
            }
            let p = path.clone();
            proof {
                assert(p@ =~= path@);
            }
            plan.push((id, p, change.revision));
            proof {
                assert(plan_view(plan@) =~= plan_view(before).push((id, path_view(path@), change.revision)));
            }
        }
        proof {
            assert forall|x: FileId| #[trigger] seen@.contains(x) <==> requested@.take(k as int + 1).contains(x) by {
                if x == id {
                    assert(requested@.take(k as int + 1)[k as int] == id);
                }
                if requested@.take(k as int + 1).contains(x) && x != id {
                    let j = choose|j: int| 0 <= j < k + 1 && #[trigger] requested@.take(k as int + 1)[j] == x;
                    assert(requested@.take(k as int)[j] == x);
                }
                if requested@.take(k as int).contains(x) {
                    let j = choose|j: int| 0 <= j < k && #[trigger] requested@.take(k as int)[j] == x;
                    assert(requested@.take(k as int + 1)[j] == x);
                }
            }
        }
        k += 1;
    }
    proof {
        assert(requested@.take(requested@.len() as int) =~= requested@);
    }
    Ok(plan)
}

/// Whether a failed reload concerns watched path `p`: one of its sources has that path and its
/// file is still open.
pub open spec fn failed_at(
    failed: Seq<(FileId, Vec<String>)>,
    files: Seq<(FileId, Option<Vec<String>>)>,
    p: Seq<Seq<char>>,
) -> bool {
    exists|j: int|
        0 <= j < failed.len() && path_view((#[trigger] failed[j]).1@) == p && file_index_from(
            files,
            failed[j].0,
            0,
        ) >= 0
}

fn fails_path(failed: &[(FileId, Vec<String>)], files: &[(FileId, Option<Vec<String>>)], p: &Vec<String>) -> (r:
    bool)
    ensures
        r == failed_at(failed@, files@, path_view(p@)),
{
    let mut j: usize = 0;
    while j < failed.len()
        invariant
            j <= failed@.len(),
            forall|k: int|
                0 <= k < j ==> !(path_view((#[trigger] failed@[k]).1@) == path_view(p@) && file_index_from(
                    files@,
                    failed@[k].0,
                    0,
                ) >= 0),
        decreases failed.len() - j,
    {
        if same_path(&failed[j].1, p) && file_position(files, failed[j].0).is_some() {
            return true;
        }
        j += 1;
    }
    false
}

/// After a failed reload, the previous audio stays: each watched path of a failed source whose
/// file (`files`, the open files) is still open becomes pending again and shows `error`; every
/// other path keeps its state.
pub fn mark_reload_failed(
    changes: &mut FileChanges,
    failed: &[(FileId, Vec<String>)],
    files: &[(FileId, Option<Vec<String>>)],
    error: &String,
)
    ensures
        final(changes).paths@.len() == old(changes).paths@.len(),
        forall|i: int|
            0 <= i < old(changes).paths@.len() ==> (#[trigger] final(changes).paths@[i]).0 == old(
                changes,
            ).paths@[i].0 && final(changes).paths@[i].1 == if failed_at(
                failed@,
                files@,
                path_view(old(changes).paths@[i].0@),
            ) {
                failed_change(old(changes).paths@[i].1, *error)
            } else {
                old(changes).paths@[i].1
            },
        final(changes).directories == old(changes).directories,
        final(changes).acknowledged == old(changes).acknowledged,
        final(changes).monitor_error == old(changes).monitor_error,
{
    let mut i: usize = 0;
    while i < changes.paths.len()
        invariant
            i <= changes.paths@.len(),
            changes.paths@.len() == old(changes).paths@.len(),
            forall|j: int| i <= j < changes.paths@.len() ==> #[trigger] changes.paths@[j] == old(changes).paths@[j],
            forall|j: int|
                0 <= j < i ==> (#[trigger] changes.paths@[j]).0 == old(changes).paths@[j].0
                    && changes.paths@[j].1 == if failed_at(failed@, files@, path_view(old(changes).paths@[j].0@)) {
                    failed_change(old(changes).paths@[j].1, *error)
                } else {
                    old(changes).paths@[j].1
                },
            changes.directories == old(changes).directories,
            changes.acknowledged == old(changes).acknowledged,
            changes.monitor_error == old(changes).monitor_error,
        decreases changes.paths.len() - i,
    {
        if fails_path(failed, files, &changes.paths[i].0) {
            changes.paths[i].1.record_reload_failure(error.clone());
        }
        i += 1;
    }
}

/// Whether a planned batch reads watched path `p`.
pub open spec fn planned_at(plan: Seq<(FileId, Vec<String>, u64)>, p: Seq<Seq<char>>) -> bool {
    exists|j: int| 0 <= j < plan.len() && path_view((#[trigger] plan[j]).1@) == p
}

fn plans_path(plan: &[(FileId, Vec<String>, u64)], p: &Vec<String>) -> (r: bool)
    ensures
        r == planned_at(plan@, path_view(p@)),
{
    let mut j: usize = 0;
    while j < plan.len()
        invariant
            j <= plan@.len(),
            forall|k: int| 0 <= k < j ==> path_view((#[trigger] plan@[k]).1@) != path_view(p@),
        decreases plan.len() - j,
    {
        if same_path(&plan[j].1, p) {
            return true;
        }
        j += 1;
    }
    false
}

/// A batch starts: the paths it reads no longer show their last error; nothing else changes.
pub fn clear_reload_errors(changes: &mut FileChanges, plan: &[(FileId, Vec<String>, u64)])
    ensures
        final(changes).paths@.len() == old(changes).paths@.len(),
        forall|i: int|
            0 <= i < old(changes).paths@.len() ==> (#[trigger] final(changes).paths@[i]).0 == old(
                changes,
            ).paths@[i].0 && final(changes).paths@[i].1 == if planned_at(plan@, path_view(old(changes).paths@[i].0@)) {
                Change { error: None, ..old(changes).paths@[i].1 }
            } else {
                old(changes).paths@[i].1
            },
        final(changes).directories == old(changes).directories,
        final(changes).acknowledged == old(changes).acknowledged,
        final(changes).monitor_error == old(changes).monitor_error,
{
    let mut i: usize = 0;
    while i < changes.paths.len()
        invariant
            i <= changes.paths@.len(),
            changes.paths@.len() == old(changes).paths@.len(),
            forall|j: int| i <= j < changes.paths@.len() ==> #[trigger] changes.paths@[j] == old(changes).paths@[j],
            forall|j: int|
                0 <= j < i ==> (#[trigger] changes.paths@[j]).0 == old(changes).paths@[j].0
                    && changes.paths@[j].1 == if planned_at(plan@, path_view(old(changes).paths@[j].0@)) {
                    Change { error: None, ..old(changes).paths@[j].1 }
                } else {
                    old(changes).paths@[j].1
                },
            changes.directories == old(changes).directories,
            changes.acknowledged == old(changes).acknowledged,
            changes.monitor_error == old(changes).monitor_error,
        decreases changes.paths.len() - i,
    {
        if plans_path(plan, &changes.paths[i].0) {
            changes.paths[i].1.clear_error();
        }
        i += 1;
    }
}

/// What a second look at a re-read file's disk stamp showed.
#[derive(Debug, Clone, Copy, PartialEq, Eq, Structural)]
pub enum StampCheck {
    /// The stamp is the one taken when the file was read.
    Same,
    /// The file was written since it was read.
    Differs,
    /// The stamp could not be read.
    Unreadable,
}

/// A source of a reload batch, checked against the workspace before its audio is installed.
#[derive(Debug, Clone)]
pub struct SourceCheck {
    pub id: FileId,
    /// The watched path the file was read from.
    pub path: Vec<String>,
    /// The path's revision when the batch started.
    pub revision: u64,
    /// The file's record, its offset included, is still the one captured when the batch started.
    pub file_unchanged: bool,
    pub stamp: StampCheck,
}

/// Why one source can no longer be installed, if it cannot.
pub open spec fn source_error(c: SourceCheck, entries: Seq<(Vec<String>, Change)>) -> Option<ReloadError> {
    if !c.file_unchanged {
        Some(ReloadError::FileChanged(c.id))
    } else {
        let ix = entry_index(entries, path_view(c.path@));
        if ix < 0 {
            Some(ReloadError::FileClosed(c.id))
        } else if entries[ix].1.revision != c.revision {
            Some(ReloadError::ChangedWhileUpdating(c.id))
        } else {
            match c.stamp {
                StampCheck::Same => None,
                StampCheck::Differs => Some(ReloadError::ChangedWhileUpdating(c.id)),
                StampCheck::Unreadable => Some(ReloadError::StampUnreadable(c.id)),
            }
        }
    }
}

/// The error of the first of the first `n` sources that fails.
pub open spec fn first_source_error(checks: Seq<SourceCheck>, entries: Seq<(Vec<String>, Change)>, n: int) -> Option<
    ReloadError,
>
    decreases n,
{
    if n <= 0 {
        None
    } else {
        match first_source_error(checks, entries, n - 1) {
            Some(e) => Some(e),
            None => source_error(checks[n - 1], entries),
        }
    }
}

/// The first closed input among the first `n` diffs to recompute, the A input first.
pub open spec fn first_closed_input(affected: Seq<(BufferId, Diff)>, live: Set<BufferId>, n: int) -> Option<BufferId>
    decreases n,
{
    if n <= 0 {
        None
    } else {
        match first_closed_input(affected, live, n - 1) {
            Some(b) => Some(b),
            None => {
                let d = affected[n - 1].1;
                if !live.contains(d.buffer_id_a) {
                    Some(d.buffer_id_a)
                } else if !live.contains(d.buffer_id_b) {
                    Some(d.buffer_id_b)
                } else {
                    None
                }
            },
        }
    }
}

/// Whether a prepared batch may be installed: the workspace is the one it was prepared for,
/// the diff dependencies are unchanged, every source still matches its file and disk state,
/// and every input of a diff to recompute is still loaded; otherwise the first reason not to.
pub open spec fn reload_verdict(
    generation: u64,
    current_generation: u64,
    requested_topology: Seq<(BufferId, Diff)>,
    current_topology: Seq<(BufferId, Diff)>,
    checks: Seq<SourceCheck>,
    entries: Seq<(Vec<String>, Change)>,
    affected: Seq<(BufferId, Diff)>,
    live: Set<BufferId>,
) -> Result<(), ReloadError> {
    if generation != current_generation {
        Err(ReloadError::WorkspaceCleared)
    } else if requested_topology != current_topology {
        Err(ReloadError::DependenciesChanged)
    } else {
        match first_source_error(checks, entries, checks.len() as int) {
            Some(e) => Err(e),
            None => match first_closed_input(affected, live, affected.len() as int) {
                Some(b) => Err(ReloadError::DiffSourceClosed(b)),
                None => Ok(()),
            },
        }
    }
}

proof fn lemma_source_error_stays(checks: Seq<SourceCheck>, entries: Seq<(Vec<String>, Change)>, n: int)
    requires
        0 <= n <= checks.len(),
        first_source_error(checks, entries, n) is Some,
    ensures
        first_source_error(checks, entries, checks.len() as int) == first_source_error(checks, entries, n),
    decreases checks.len() - n,
{
    if n < checks.len() {
        lemma_source_error_stays(checks, entries, n + 1);
    }
}

proof fn lemma_closed_input_stays(affected: Seq<(BufferId, Diff)>, live: Set<BufferId>, n: int)
    requires
        0 <= n <= affected.len(),
        first_closed_input(affected, live, n) is Some,
    ensures
        first_closed_input(affected, live, affected.len() as int) == first_closed_input(affected, live, n),
    decreases affected.len() - n,
{
    if n < affected.len() {
        lemma_closed_input_stays(affected, live, n + 1);
    }
}

/// Whether two diff topologies are the same list.
fn same_topology(a: &[(BufferId, Diff)], b: &[(BufferId, Diff)]) -> (r: bool)
    ensures
        r == (a@ == b@),
{
    if a.len() != b.len() {
        return false;
    }
    let mut i: usize = 0;
    while i < a.len()
        invariant
            i <= a@.len(),
            a@.len() == b@.len(),
            forall|j: int| 0 <= j < i ==> a@[j] == b@[j],
        decreases a.len() - i,
    {
        if !(a[i].0 == b[i].0 && a[i].1 == b[i].1) {
            return false;
        }
        i += 1;
    }
    proof {
        assert(a@ =~= b@);
    }
    true
}

/// Check a prepared batch before installing it, as `reload_verdict` says: `generation` and
/// `requested_topology` were taken when the batch started, `checks` has one entry per source,
/// `changes` is the current watch state and `live` the buffers loaded now.
pub fn validate_reload(
    generation: u64,
    current_generation: u64,
    requested_topology: &[(BufferId, Diff)],
    current_topology: &[(BufferId, Diff)],
    checks: &[SourceCheck],
    changes: &FileChanges,
    affected: &[(BufferId, Diff)],
    live: &HashSet<BufferId>,
) -> (r: Result<(), ReloadError>)
    ensures
        r == reload_verdict(
            generation,
            current_generation,
            requested_topology@,
            current_topology@,
            checks@,
            changes.paths@,
            affected@,
            live@,
        ),
{
    if generation != current_generation {
        return Err(ReloadError::WorkspaceCleared);
    }
    if !same_topology(requested_topology, current_topology) {
        return Err(ReloadError::DependenciesChanged);
    }
    let mut i: usize = 0;
    while i < checks.len()
        invariant
            i <= checks@.len(),
            generation == current_generation,
            requested_topology@ == current_topology@,
            first_source_error(checks@, changes.paths@, i as int) is None,
        decreases checks.len() - i,
    {
        let c = &checks[i];
        let err = if !c.file_unchanged {
            Some(ReloadError::FileChanged(c.id))
        } else {
            match changes.position(&c.path) {
                None => Some(ReloadError::FileClosed(c.id)),
                Some(ix) => if changes.paths[ix].1.revision != c.revision {
                    Some(ReloadError::ChangedWhileUpdating(c.id))
                } else {
                    match c.stamp {
                        StampCheck::Same => None,
                        StampCheck::Differs => Some(ReloadError::ChangedWhileUpdating(c.id)),
                        StampCheck::Unreadable => Some(ReloadError::StampUnreadable(c.id)),
                    }
                },
            }
        };
        assert(err == source_error(checks@[i as int], changes.paths@));
        match err {
            Some(e) => {
                proof {
                    lemma_source_error_stays(checks@, changes.paths@, i as int + 1);
                }
                return Err(e);
            },
            None => {},
        }
        i += 1;
    }
    let mut k: usize = 0;
    while k < affected.len()
        invariant
            k <= affected@.len(),
            generation == current_generation,
            requested_topology@ == current_topology@,
            first_source_error(checks@, changes.paths@, checks@.len() as int) is None,
            first_closed_input(affected@, live@, k as int) is None,
        decreases affected.len() - k,
    {
        let d = affected[k].1;
        if !live.contains(&d.buffer_id_a) {
            proof {
                lemma_closed_input_stays(affected@, live@, k as int + 1);
            }
            return Err(ReloadError::DiffSourceClosed(d.buffer_id_a));
        }
        if !live.contains(&d.buffer_id_b) {
            proof {
                lemma_closed_input_stays(affected@, live@, k as int + 1);
            }
            return Err(ReloadError::DiffSourceClosed(d.buffer_id_b));
        }
        k += 1;
    }
    Ok(())
}

/// Whether each watched path has been quiet long enough, by the clock now; a path that never
/// had an event is always ready.
pub fn readiness_now(changes: &FileChanges) -> (r: Vec<bool>)
    ensures
        r@.len() == changes.paths@.len(),
        forall|i: int|
            0 <= i < r@.len() && (#[trigger] changes.paths@[i]).1.last_event_time is None ==> r@[i],
{
    let mut r: Vec<bool> = Vec::new();
    let mut i: usize = 0;
    while i < changes.paths.len()
        invariant
            i <= changes.paths@.len(),
            r@.len() == i,
            forall|j: int| 0 <= j < i && (#[trigger] changes.paths@[j]).1.last_event_time is None ==> r@[j],
        decreases changes.paths.len() - i,
    {
        r.push(changes.paths[i].1.ready());
        i += 1;
    }
    r
}

/// Which files a reload batch takes now: `plan_reload` with the readiness the clock gives
/// (`readiness_now`). Whatever the clock says, the result is the plan for some readiness that
/// holds for every path without an event.
pub fn plan_reload_now(active: bool, requested: &[FileId], files: &[(FileId, Option<Vec<String>>)], changes: &FileChanges) -> (r:
    Result<Vec<(FileId, Vec<String>, u64)>, ReloadError>)
    ensures
        exists|ready: Seq<bool>|
            #![trigger planned_reload(active, requested@, files@, changes.paths@, ready)]
            {
                &&& ready.len() == changes.paths@.len()
                &&& forall|i: int|
                    0 <= i < ready.len() && (#[trigger] changes.paths@[i]).1.last_event_time is None ==> ready[i]
                &&& match r {
                    Ok(v) => planned_reload(active, requested@, files@, changes.paths@, ready) == Ok::<
                        Seq<PlannedEntry>,
                        ReloadError,
                    >(plan_view(v@)),
                    Err(e) => planned_reload(active, requested@, files@, changes.paths@, ready) == Err::<
                        Seq<PlannedEntry>,
                        ReloadError,
                    >(e),
                }
            },
{
    let ready = readiness_now(changes);
    let r = plan_reload(active, requested, files, changes, &ready);
    assert(ready@.len() == changes.paths@.len());
    r
}

/// Only one reload batch runs at a time: while one is active, a new request takes no file,
/// whatever it asks for and whatever the watch state.
pub proof fn one_batch_at_a_time(
    requested: Seq<FileId>,
    files: Seq<(FileId, Option<Vec<String>>)>,
    entries: Seq<(Vec<String>, Change)>,
    ready: Seq<bool>,
)
    ensures
        planned_reload(true, requested, files, entries, ready) == Ok::<Seq<PlannedEntry>, ReloadError>(seq![]),
{
}

/// Looking a path up finds the same entry in two watch lists with the same paths.
proof fn lemma_entry_index_same_paths(
    a: Seq<(Vec<String>, Change)>,
    b: Seq<(Vec<String>, Change)>,
    p: Seq<Seq<char>>,
    k: int,
)
    requires
        a.len() == b.len(),
        forall|i: int| 0 <= i < a.len() ==> (#[trigger] a[i]).0 == b[i].0,
    ensures
        entry_index_from(a, p, k) == entry_index_from(b, p, k),
    decreases a.len() - k,
{
    if 0 <= k < a.len() {
        assert(a[k].0 == b[k].0);
        lemma_entry_index_same_paths(a, b, p, k + 1);
    }
}

/// A failed update keeps the previous data and leaves the file pending at the revision it had:
/// once its path is quiet again, the next plan that asks for the still open file takes it
/// again, at that revision. `after` is the watch state `mark_reload_failed` leaves.
pub proof fn failed_update_is_offered_again(
    entries: Seq<(Vec<String>, Change)>,
    after: Seq<(Vec<String>, Change)>,
    failed: Seq<(FileId, Vec<String>)>,
    files: Seq<(FileId, Option<Vec<String>>)>,
    error: String,
    id: FileId,
    p: Vec<String>,
    ready: Seq<bool>,
    plan: Seq<PlannedEntry>,
)
    requires
        after.len() == entries.len(),
        forall|i: int|
            0 <= i < entries.len() ==> (#[trigger] after[i]).0 == entries[i].0 && after[i].1 == if failed_at(
                failed,
                files,
                path_view(entries[i].0@),
            ) {
                failed_change(entries[i].1, error)
            } else {
                entries[i].1
            },
        file_index_from(files, id, 0) >= 0,
        files[file_index_from(files, id, 0)].1 == Some(p),
        exists|j: int| 0 <= j < failed.len() && (#[trigger] failed[j]).0 == id && path_view(failed[j].1@) == path_view(p@),
        entry_index(entries, path_view(p@)) >= 0,
        ready.len() == after.len(),
        ready[entry_index(entries, path_view(p@))],
    ensures
        plan_step(Ok(plan), id, false, files, after, ready) == Ok::<Seq<PlannedEntry>, ReloadError>(
            plan.push((id, path_view(p@), entries[entry_index(entries, path_view(p@))].1.revision)),
        ),
{
    let pv = path_view(p@);
    lemma_entry_index_same_paths(after, entries, pv, 0);
    lemma_entry_index_from(entries, pv, 0);
    let ix = entry_index(entries, pv);
    let j = choose|j: int| 0 <= j < failed.len() && (#[trigger] failed[j]).0 == id && path_view(failed[j].1@) == pv;
    assert(failed_at(failed, files, path_view(entries[ix].0@)));
    assert(after[ix].1 == failed_change(entries[ix].1, error));
}

/// A source still matches the workspace: its file record is unchanged, its path is still
/// watched at the revision the batch read, and its disk stamp is the one taken when it was read.
pub open spec fn source_current(c: SourceCheck, entries: Seq<(Vec<String>, Change)>) -> bool {
    let ix = entry_index(entries, path_view(c.path@));
    &&& c.file_unchanged
    &&& ix >= 0
    &&& entries[ix].1.revision == c.revision
    &&& c.stamp == StampCheck::Same
}

proof fn lemma_no_source_error(checks: Seq<SourceCheck>, entries: Seq<(Vec<String>, Change)>, n: int)
    requires
        0 <= n <= checks.len(),
    ensures
        first_source_error(checks, entries, n) is None <==> forall|i: int|
            0 <= i < n ==> (#[trigger] source_error(checks[i], entries)) is None,
    decreases n,
{
    if n > 0 {
        lemma_no_source_error(checks, entries, n - 1);
    }
}

proof fn lemma_no_closed_input(affected: Seq<(BufferId, Diff)>, live: Set<BufferId>, n: int)
    requires
        0 <= n <= affected.len(),
    ensures
        first_closed_input(affected, live, n) is None <==> forall|k: int|
            0 <= k < n ==> live.contains((#[trigger] affected[k]).1.buffer_id_a) && live.contains(
                affected[k].1.buffer_id_b,
            ),
    decreases n,
{
    if n > 0 {
        lemma_no_closed_input(affected, live, n - 1);
    }
}

/// Law: a prepared batch may be installed exactly when the workspace is the one it was
/// prepared for, the diff dependencies are unchanged, every source (not only some) still
/// matches: its file record is unchanged, its path is still watched at the revision the batch
/// read, and its disk stamp is unchanged; and both inputs of every diff to recompute are still
/// loaded. A cleared workspace is reported first, then changed dependencies.
pub proof fn batch_installs_only_when_every_source_is_current(
    generation: u64,
    current_generation: u64,
    requested_topology: Seq<(BufferId, Diff)>,
    current_topology: Seq<(BufferId, Diff)>,
    checks: Seq<SourceCheck>,
    entries: Seq<(Vec<String>, Change)>,
    affected: Seq<(BufferId, Diff)>,
    live: Set<BufferId>,
)
    ensures
        reload_verdict(
            generation,
            current_generation,
            requested_topology,
            current_topology,
            checks,
            entries,
            affected,
            live,
        ) is Ok <==> {
            &&& generation == current_generation
            &&& requested_topology == current_topology
            &&& forall|i: int| 0 <= i < checks.len() ==> source_current(#[trigger] checks[i], entries)
            &&& forall|k: int|
                0 <= k < affected.len() ==> live.contains((#[trigger] affected[k]).1.buffer_id_a) && live.contains(
                    affected[k].1.buffer_id_b,
                )
        },
        forall|i: int|
            0 <= i < checks.len() && (#[trigger] source_error(checks[i], entries)) is Some ==> reload_verdict(
                generation,
                current_generation,
                requested_topology,
                current_topology,
                checks,
                entries,
                affected,
                live,
            ) is Err,
        generation != current_generation ==> reload_verdict(
            generation,
            current_generation,
            requested_topology,
            current_topology,
            checks,
            entries,
            affected,
            live,
        ) == Err::<(), ReloadError>(ReloadError::WorkspaceCleared),
        generation == current_generation && requested_topology != current_topology ==> reload_verdict(
            generation,
            current_generation,
            requested_topology,
            current_topology,
            checks,
            entries,
            affected,
            live,
        ) == Err::<(), ReloadError>(ReloadError::DependenciesChanged),
{
    lemma_no_source_error(checks, entries, checks.len() as int);
    lemma_no_closed_input(affected, live, affected.len() as int);
    assert forall|i: int| 0 <= i < checks.len() implies ((#[trigger] source_error(checks[i], entries)) is None
        <==> source_current(checks[i], entries)) by {}
    assert((forall|i: int| 0 <= i < checks.len() ==> (#[trigger] source_error(checks[i], entries)) is None) <==> (
    forall|i: int| 0 <= i < checks.len() ==> source_current(#[trigger] checks[i], entries))) by {
        if forall|i: int| 0 <= i < checks.len() ==> source_current(#[trigger] checks[i], entries) {
            assert forall|i: int| 0 <= i < checks.len() implies (#[trigger] source_error(checks[i], entries)) is None by {
                assert(source_current(checks[i], entries));
            }
        }
        if forall|i: int| 0 <= i < checks.len() ==> (#[trigger] source_error(checks[i], entries)) is None {
            assert forall|i: int| 0 <= i < checks.len() implies source_current(#[trigger] checks[i], entries) by {
                assert(source_error(checks[i], entries) is None);
            }
        }
    }
}

/// `position_from` finds the first occurrence from `k` on, if there is one.
proof fn lemma_position_first(list: Seq<ChIx>, x: ChIx, k: int)
    requires
        0 <= k <= list.len(),
    ensures
        position_from(list, x, k) >= 0 <==> exists|j: int| k <= j < list.len() && list[j] == x,
        position_from(list, x, k) >= 0 ==> k <= position_from(list, x, k) < list.len() && list[position_from(
            list,
            x,
            k,
        )] == x && forall|j: int| k <= j < position_from(list, x, k) ==> list[j] != x,
    decreases list.len() - k,
{
    if k < list.len() && list[k] != x {
        lemma_position_first(list, x, k + 1);
        if exists|j: int| k <= j < list.len() && list[j] == x {
            let j = choose|j: int| k <= j < list.len() && list[j] == x;
            assert(k + 1 <= j);
        }
    }
}

proof fn lemma_pair_sources_upto(pairs: Seq<(ChIx, ChIx)>, la: Seq<ChIx>, lb: Seq<ChIx>, n: int)
    requires
        0 <= n <= pairs.len(),
        la.len() <= usize::MAX,
        lb.len() <= usize::MAX,
    ensures
        pair_sources_upto(pairs, la, lb, n) is Ok <==> forall|i: int|
            0 <= i < n ==> la.contains((#[trigger] pairs[i]).0) && lb.contains(pairs[i].1),
        pair_sources_upto(pairs, la, lb, n) matches Ok(v) ==> v.len() == n && forall|i: int|
            0 <= i < n ==> (#[trigger] v[i]).0 == position_from(la, pairs[i].0, 0) && v[i].1 == position_from(
                lb,
                pairs[i].1,
                0,
            ),
        pair_sources_upto(pairs, la, lb, n) matches Err(DiffPairError::MissingA(ch)) ==> !la.contains(ch)
            && exists|i: int| 0 <= i < n && (#[trigger] pairs[i]).0 == ch,
        pair_sources_upto(pairs, la, lb, n) matches Err(DiffPairError::MissingB(ch)) ==> !lb.contains(ch)
            && exists|i: int| 0 <= i < n && (#[trigger] pairs[i]).1 == ch,
        !(pair_sources_upto(pairs, la, lb, n) matches Err(DiffPairError::NoPairs)),
    decreases n,
{
    if n > 0 {
        lemma_pair_sources_upto(pairs, la, lb, n - 1);
        let (a, b) = pairs[n - 1];
        lemma_position_first(la, a, 0);
        lemma_position_first(lb, b, 0);
        assert(la.contains(a) <==> position_from(la, a, 0) >= 0);
        assert(lb.contains(b) <==> position_from(lb, b, 0) >= 0);
        if pair_sources_upto(pairs, la, lb, n - 1) is Ok {
            if position_from(la, a, 0) >= 0 && position_from(lb, b, 0) >= 0 {
                let prev = pair_sources_upto(pairs, la, lb, n - 1)->Ok_0;
                let v = prev.push((position_from(la, a, 0) as usize, position_from(lb, b, 0) as usize));
                assert(pair_sources_upto(pairs, la, lb, n) == Ok::<Seq<(usize, usize)>, DiffPairError>(v));
                assert forall|i: int| 0 <= i < n implies (#[trigger] v[i]).0 == position_from(la, pairs[i].0, 0)
                    && v[i].1 == position_from(lb, pairs[i].1, 0) by {
                    if i < n - 1 {
                        assert(v[i] == prev[i]);
                    }
                }
                assert forall|i: int| 0 <= i < n implies la.contains((#[trigger] pairs[i]).0) && lb.contains(
                    pairs[i].1,
                ) by {
                    if i == n - 1 {
                        assert(la[position_from(la, a, 0)] == a);
                        assert(lb[position_from(lb, b, 0)] == b);
                    }
                }
            } else {
                assert(!(la.contains(pairs[n - 1].0) && lb.contains(pairs[n - 1].1)));
            }
        } else {
            let i = choose|i: int| 0 <= i < n - 1 && !(la.contains((#[trigger] pairs[i]).0) && lb.contains(pairs[i].1));
            assert(!(la.contains(pairs[i].0) && lb.contains(pairs[i].1)));
        }
    }
}

/// Law: the sources of a file-pair diff are found exactly when there is a pair and every
/// pair's channels were read; then each pair gets the position of the first read channel equal
/// to its channel, in pair order. A `MissingA` or `MissingB` error names a channel of some pair
/// that was not read from that file.
pub proof fn pair_sources_locate_every_pair(pairs: Seq<(ChIx, ChIx)>, la: Seq<ChIx>, lb: Seq<ChIx>)
    requires
        la.len() <= usize::MAX,
        lb.len() <= usize::MAX,
    ensures
        pair_sources(pairs, la, lb) is Ok <==> pairs.len() > 0 && forall|i: int|
            0 <= i < pairs.len() ==> la.contains((#[trigger] pairs[i]).0) && lb.contains(pairs[i].1),
        pair_sources(pairs, la, lb) matches Ok(v) ==> v.len() == pairs.len() && forall|i: int|
            0 <= i < pairs.len() ==> {
                &&& (#[trigger] v[i]).0 < la.len() && la[v[i].0 as int] == pairs[i].0
                &&& v[i].1 < lb.len() && lb[v[i].1 as int] == pairs[i].1
                &&& forall|j: int| 0 <= j < v[i].0 ==> la[j] != pairs[i].0
                &&& forall|j: int| 0 <= j < v[i].1 ==> lb[j] != pairs[i].1
            },
        pair_sources(pairs, la, lb) == Err::<Seq<(usize, usize)>, DiffPairError>(DiffPairError::NoPairs) <==> pairs.len()
            == 0,
        pair_sources(pairs, la, lb) matches Err(DiffPairError::MissingA(ch)) ==> !la.contains(ch) && exists|i: int|
            0 <= i < pairs.len() && (#[trigger] pairs[i]).0 == ch,
        pair_sources(pairs, la, lb) matches Err(DiffPairError::MissingB(ch)) ==> !lb.contains(ch) && exists|i: int|
            0 <= i < pairs.len() && (#[trigger] pairs[i]).1 == ch,
{
    if pairs.len() > 0 {
        lemma_pair_sources_upto(pairs, la, lb, pairs.len() as int);
        if let Ok(v) = pair_sources(pairs, la, lb) {
            assert forall|i: int| 0 <= i < pairs.len() implies {
                &&& (#[trigger] v[i]).0 < la.len() && la[v[i].0 as int] == pairs[i].0
                &&& v[i].1 < lb.len() && lb[v[i].1 as int] == pairs[i].1
                &&& forall|j: int| 0 <= j < v[i].0 ==> la[j] != pairs[i].0
                &&& forall|j: int| 0 <= j < v[i].1 ==> lb[j] != pairs[i].1
            } by {
                assert(la.contains(pairs[i].0) && lb.contains(pairs[i].1));
                lemma_position_first(la, pairs[i].0, 0);
                lemma_position_first(lb, pairs[i].1, 0);
            }
        }
    }
}

/// Whether a requested file can be reloaded now: it is open, was read from disk, its path is
/// watched, and if that path has changed it has been quiet long enough.
pub open spec fn reloadable(
    id: FileId,
    files: Seq<(FileId, Option<Vec<String>>)>,
    entries: Seq<(Vec<String>, Change)>,
    ready: Seq<bool>,
) -> bool {
    let fi = file_index_from(files, id, 0);
    &&& fi >= 0
    &&& files[fi].1 is Some
    &&& entry_index(entries, path_view(files[fi].1->0@)) >= 0
    &&& entries[entry_index(entries, path_view(files[fi].1->0@))].1.changed ==> ready[entry_index(
        entries,
        path_view(files[fi].1->0@),
    )]
}

/// Whether a reloadable file's path has changed, so that a batch reads it.
pub open spec fn needs_reload(
    id: FileId,
    files: Seq<(FileId, Option<Vec<String>>)>,
    entries: Seq<(Vec<String>, Change)>,
    ready: Seq<bool>,
) -> bool {
    let fi = file_index_from(files, id, 0);
    reloadable(id, files, entries, ready) && entries[entry_index(entries, path_view(files[fi].1->0@))].1.changed
}

/// What a batch records for a file it reads: the file, its watched path, and that path's
/// current revision.
pub open spec fn batch_entry(
    id: FileId,
    files: Seq<(FileId, Option<Vec<String>>)>,
    entries: Seq<(Vec<String>, Change)>,
) -> PlannedEntry {
    let p = path_view(files[file_index_from(files, id, 0)].1->0@);
    (id, p, entries[entry_index(entries, p)].1.revision)
}

/// Position of the first request of `x` from `k` on, or `-1`.
pub open spec fn first_request_from(requested: Seq<FileId>, x: FileId, k: int) -> int
    decreases requested.len() - k,
{
    if k < 0 || k >= requested.len() {
        -1
    } else if requested[k] == x {
        k
    } else {
        first_request_from(requested, x, k + 1)
    }
}

proof fn lemma_first_request(requested: Seq<FileId>, x: FileId, k: int, m: int)
    requires
        0 <= k <= m <= requested.len(),
    ensures
        requested.subrange(k, m).contains(x) ==> k <= first_request_from(requested, x, k) < m,
        !requested.subrange(k, m).contains(x) && m < requested.len() && requested[m] == x ==> first_request_from(
            requested,
            x,
            k,
        ) == m,
    decreases m - k,
{
    if k < m {
        if requested[k] != x {
            lemma_first_request(requested, x, k + 1, m);
            if requested.subrange(k, m).contains(x) {
                let j = choose|j: int| 0 <= j < m - k && requested.subrange(k, m)[j] == x;
                assert(requested.subrange(k + 1, m)[j - 1] == x);
            }
            if !requested.subrange(k, m).contains(x) {
                assert forall|j: int| 0 <= j < m - k - 1 implies #[trigger] requested.subrange(k + 1, m)[j] != x by {
                    assert(requested.subrange(k, m)[j + 1] == requested.subrange(k + 1, m)[j]);
                }
            }
        } else {
            assert(requested.subrange(k, m)[0] == x);
        }
    }
}

/// The plan after the first `n` requests, described without `plan_step`.
pub open spec fn plan_facts(
    requested: Seq<FileId>,
    n: int,
    files: Seq<(FileId, Option<Vec<String>>)>,
    entries: Seq<(Vec<String>, Change)>,
    ready: Seq<bool>,
    plan: Seq<PlannedEntry>,
) -> bool {
    &&& forall|k: int| 0 <= k < plan.len() ==> #[trigger] plan[k] == batch_entry(plan[k].0, files, entries)
        && needs_reload(plan[k].0, files, entries, ready)
    &&& forall|x: FileId|
        (exists|k: int| 0 <= k < plan.len() && (#[trigger] plan[k]).0 == x) <==> (requested.take(n).contains(x)
            && needs_reload(x, files, entries, ready))
    &&& forall|k1: int, k2: int|
        0 <= k1 < k2 < plan.len() ==> first_request_from(requested, (#[trigger] plan[k1]).0, 0) < first_request_from(
            requested,
            (#[trigger] plan[k2]).0,
            0,
        )
}

proof fn lemma_plan_upto(
    requested: Seq<FileId>,
    n: int,
    files: Seq<(FileId, Option<Vec<String>>)>,
    entries: Seq<(Vec<String>, Change)>,
    ready: Seq<bool>,
)
    requires
        0 <= n <= requested.len(),
    ensures
        plan_upto(requested, n, files, entries, ready) is Ok <==> forall|i: int|
            0 <= i < n ==> reloadable(#[trigger] requested[i], files, entries, ready),
        plan_upto(requested, n, files, entries, ready) matches Ok(plan) ==> plan_facts(
            requested,
            n,
            files,
            entries,
            ready,
            plan,
        ),
    decreases n,
{
    if n > 0 {
        lemma_plan_upto(requested, n - 1, files, entries, ready);
        let r = requested[n - 1];
        let prev = plan_upto(requested, n - 1, files, entries, ready);
        let rep = requested.take(n - 1).contains(r);
        lemma_file_index_from(files, r, 0);
        assert(requested.take(n) =~= requested.take(n - 1).push(r));
        assert(requested.take(n - 1) =~= requested.subrange(0, n - 1));
        lemma_first_request(requested, r, 0, n - 1);
        if prev is Ok {
            let s = prev->Ok_0;
            if rep {
                let j = choose|j: int| 0 <= j < n - 1 && #[trigger] requested.take(n - 1)[j] == r;
                assert(requested[j] == r);
                assert(reloadable(requested[j], files, entries, ready));
                assert forall|x: FileId|
                    (exists|k: int| 0 <= k < s.len() && (#[trigger] s[k]).0 == x) <==> (requested.take(n).contains(x)
                        && needs_reload(x, files, entries, ready)) by {
                    if requested.take(n).contains(x) && !requested.take(n - 1).contains(x) {
                        let i = choose|i: int| 0 <= i < n && #[trigger] requested.take(n)[i] == x;
                        if i < n - 1 {
                            assert(requested.take(n - 1)[i] == x);
                        }
                    }
                    if requested.take(n - 1).contains(x) {
                        let i = choose|i: int| 0 <= i < n - 1 && #[trigger] requested.take(n - 1)[i] == x;
                        assert(requested.take(n)[i] == x);
                    }
                }
            } else {
                let next = plan_upto(requested, n, files, entries, ready);
                if next is Ok {
                    assert(reloadable(r, files, entries, ready));
                    let t = next->Ok_0;
                    assert forall|k: int| 0 <= k < s.len() implies first_request_from(requested, (#[trigger] s[k]).0, 0)
                        < n - 1 by {
                        assert(requested.take(n - 1).contains(s[k].0));
                        lemma_first_request(requested, s[k].0, 0, n - 1);
                    }
                    assert(!(exists|k: int| 0 <= k < s.len() && (#[trigger] s[k]).0 == r));
                    if needs_reload(r, files, entries, ready) {
                        assert(t == s.push(batch_entry(r, files, entries)));
                        assert(t[s.len() as int].0 == r);
                    } else {
                        assert(t == s);
                    }
                    assert forall|x: FileId|
                        (exists|k: int| 0 <= k < t.len() && (#[trigger] t[k]).0 == x) <==> (requested.take(n).contains(x)
                            && needs_reload(x, files, entries, ready)) by {
                        if requested.take(n).contains(x) && x != r {
                            let i = choose|i: int| 0 <= i < n && #[trigger] requested.take(n)[i] == x;
                            assert(requested.take(n - 1)[i] == x);
                        }
                        if requested.take(n - 1).contains(x) {
                            let i = choose|i: int| 0 <= i < n - 1 && #[trigger] requested.take(n - 1)[i] == x;
                            assert(requested.take(n)[i] == x);
                        }
                        if x == r {
                            assert(requested.take(n)[n - 1] == r);
                        }
                        if exists|k: int| 0 <= k < t.len() && (#[trigger] t[k]).0 == x {
                            let k = choose|k: int| 0 <= k < t.len() && (#[trigger] t[k]).0 == x;
                            if k < s.len() {
                                assert(t[k] == s[k]);
                            }
                        }
                        if (exists|k: int| 0 <= k < s.len() && (#[trigger] s[k]).0 == x) {
                            let k = choose|k: int| 0 <= k < s.len() && (#[trigger] s[k]).0 == x;
                            assert(t[k] == s[k]);
                        }
                    }
                    assert forall|k: int| 0 <= k < t.len() implies #[trigger] t[k] == batch_entry(t[k].0, files, entries)
                        && needs_reload(t[k].0, files, entries, ready) by {
                        if k < s.len() {
                            assert(t[k] == s[k]);
                        }
                    }
                    assert forall|k1: int, k2: int|
                        0 <= k1 < k2 < t.len() implies first_request_from(requested, (#[trigger] t[k1]).0, 0)
                        < first_request_from(requested, (#[trigger] t[k2]).0, 0) by {
                        assert(t[k1] == s[k1]);
                        if k2 < s.len() {
                            assert(t[k2] == s[k2]);
                        }
                    }
                } else {
                    assert(!reloadable(requested[n - 1], files, entries, ready));
                }
            }
        } else {
            let i = choose|i: int| 0 <= i < n - 1 && !reloadable(#[trigger] requested[i], files, entries, ready);
            assert(!reloadable(requested[i], files, entries, ready));
        }
    }
}

/// Law: while a batch is active nothing is taken. Otherwise a batch can start exactly when
/// every requested file is reloadable (open, read from disk, watched, and quiet if changed),
/// and it then reads exactly the requested files whose path changed, each once, in the order of
/// their first request, each with its watched path and that path's current revision.
pub proof fn plan_takes_each_changed_request_once(
    active: bool,
    requested: Seq<FileId>,
    files: Seq<(FileId, Option<Vec<String>>)>,
    entries: Seq<(Vec<String>, Change)>,
    ready: Seq<bool>,
)
    ensures
        active ==> planned_reload(active, requested, files, entries, ready) == Ok::<Seq<PlannedEntry>, ReloadError>(
            seq![],
        ),
        !active ==> (planned_reload(active, requested, files, entries, ready) is Ok <==> forall|i: int|
            0 <= i < requested.len() ==> reloadable(#[trigger] requested[i], files, entries, ready)),
        !active ==> (planned_reload(active, requested, files, entries, ready) matches Ok(plan) ==> {
            &&& forall|k: int| 0 <= k < plan.len() ==> #[trigger] plan[k] == batch_entry(plan[k].0, files, entries)
            &&& forall|x: FileId|
                (exists|k: int| 0 <= k < plan.len() && (#[trigger] plan[k]).0 == x) <==> (requested.contains(x)
                    && needs_reload(x, files, entries, ready))
            &&& forall|k1: int, k2: int|
                0 <= k1 < k2 < plan.len() ==> first_request_from(requested, (#[trigger] plan[k1]).0, 0)
                    < first_request_from(requested, (#[trigger] plan[k2]).0, 0)
        }),
{
    if !active {
        lemma_plan_upto(requested, requested.len() as int, files, entries, ready);
        assert(requested.take(requested.len() as int) =~= requested);
    }
}

proof fn lemma_file_index_found(files: Seq<(FileId, Option<Vec<String>>)>, id: FileId, k: int)
    requires
        0 <= k <= files.len(),
    ensures
        file_index_from(files, id, k) >= 0 <==> exists|j: int| k <= j < files.len() && (#[trigger] files[j]).0 == id,
    decreases files.len() - k,
{
    if k < files.len() && files[k].0 != id {
        lemma_file_index_found(files, id, k + 1);
        if exists|j: int| k <= j < files.len() && (#[trigger] files[j]).0 == id {
            let j = choose|j: int| k <= j < files.len() && (#[trigger] files[j]).0 == id;
            assert(k + 1 <= j);
        }
    }
}

/// Law: a failed batch marks a watched path exactly when one of its sources was read from that
/// path and that source's file is still open; sources of closed files mark nothing.
pub proof fn failure_marks_paths_of_open_sources(
    failed: Seq<(FileId, Vec<String>)>,
    files: Seq<(FileId, Option<Vec<String>>)>,
    p: Seq<Seq<char>>,
)
    ensures
        failed_at(failed, files, p) <==> exists|j: int, k: int|
            0 <= j < failed.len() && 0 <= k < files.len() && path_view((#[trigger] failed[j]).1@) == p && (
            #[trigger] files[k]).0 == failed[j].0,
{
    if failed_at(failed, files, p) {
        let j = choose|j: int|
            0 <= j < failed.len() && path_view((#[trigger] failed[j]).1@) == p && file_index_from(files, failed[j].0, 0)
                >= 0;
        lemma_file_index_found(files, failed[j].0, 0);
        let k = choose|k: int| 0 <= k < files.len() && (#[trigger] files[k]).0 == failed[j].0;
        assert(path_view(failed[j].1@) == p && files[k].0 == failed[j].0);
    }
    if exists|j: int, k: int|
        0 <= j < failed.len() && 0 <= k < files.len() && path_view((#[trigger] failed[j]).1@) == p && (
        #[trigger] files[k]).0 == failed[j].0 {
        let (j, k) = choose|j: int, k: int|
            0 <= j < failed.len() && 0 <= k < files.len() && path_view((#[trigger] failed[j]).1@) == p && (
            #[trigger] files[k]).0 == failed[j].0;
        lemma_file_index_found(files, failed[j].0, 0);
        assert(files[k].0 == failed[j].0);
        assert(file_index_from(files, failed[j].0, 0) >= 0);
    }
}

} // verus!
