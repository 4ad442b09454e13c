//! Files and the tracks of their channels: a file's visibility state, where a restored channel
//! track goes, which tracks follow a file's offset, and turning offset inheritance on or off.
use crate::dependencies::BufferId;
use crate::track_selection::TrackId;
use vstd::prelude::*;

verus! {

/// Identifier of a loaded file.
pub type FileId = u64;

/// How many of the channels of a file have a visible track.
#[derive(Debug, Clone, Copy, PartialEq, Eq, Structural)]
pub enum FileVisibilityState {
    NoneVisible,
    PartiallyVisible,
    AllVisible,
}

/// Whether some channel has a visible track.
pub open spec fn any_visible(channels: Seq<Option<bool>>) -> bool {
    exists|i: int| 0 <= i < channels.len() && channels[i] == Some(true)
}

/// Whether some channel has no track, or a hidden one.
pub open spec fn any_hidden(channels: Seq<Option<bool>>) -> bool {
    exists|i: int| 0 <= i < channels.len() && channels[i] != Some(true)
}

/// The visibility state of a file whose channels have tracks of the given visibility
/// (`None` for a channel without track).
pub open spec fn visibility_state(channels: Seq<Option<bool>>) -> FileVisibilityState {
    if any_visible(channels) && any_hidden(channels) {
        FileVisibilityState::PartiallyVisible
    } else if any_visible(channels) {
        FileVisibilityState::AllVisible
    } else {
        FileVisibilityState::NoneVisible
    }
}

impl FileVisibilityState {
    /// The visibility state of a file from the track visibility of each of its channels: a
    /// channel without track counts as hidden.
    pub fn from_channels(channels: &[Option<bool>]) -> (r: Self)
        ensures
            r == visibility_state(channels@),
    {
        let mut visible = false;
        let mut hidden = false;
        let mut i: usize = 0;
        while i < channels.len()
            invariant
                i <= channels.len(),
                visible == exists|j: int| 0 <= j < i && #[trigger] channels@[j] == Some(true),
                hidden == exists|j: int| 0 <= j < i && #[trigger] channels@[j] != Some(true),
            decreases channels.len() - i,
        {
            match channels[i] {
                Some(true) => {
                    visible = true;
                },
                _ => {
                    hidden = true;
                },
            }
            i += 1;
        }
        if visible && hidden {
            FileVisibilityState::PartiallyVisible
        } else if visible {
            FileVisibilityState::AllVisible
        } else {
            FileVisibilityState::NoneVisible
        }
    }
}

/// Number of channels among `channels` that have a track.
pub open spec fn tracked_count(channels: Seq<(BufferId, bool)>) -> nat
    decreases channels.len(),
{
    if channels.len() == 0 {
        0
    } else {
        tracked_count(channels.drop_last()) + if channels.last().1 {
            1nat
        } else {
            0nat
        }
    }
}

/// Position of the first channel of `buffer_id` among `channels`, or `-1`.
pub open spec fn channel_position(channels: Seq<(BufferId, bool)>, buffer_id: BufferId) -> int
    decreases channels.len(),
{
    if channels.len() == 0 {
        -1
    } else if channel_position(channels.drop_last(), buffer_id) >= 0 {
        channel_position(channels.drop_last(), buffer_id)
    } else if channels.last().0 == buffer_id {
        channels.len() - 1
    } else {
        -1
    }
}

/// Where a restored track of channel `buffer_id` goes among the tracks: after the tracks of the
/// channels before it. `channels` lists every channel of the open files in sidebar order, with
/// whether it currently has a track; `None` when no file has the channel.
pub fn track_insert_index(channels: &[(BufferId, bool)], buffer_id: BufferId) -> (r: Option<usize>)
    ensures
        match r {
            Some(ix) => channel_position(channels@, buffer_id) >= 0 && ix == tracked_count(
                channels@.take(channel_position(channels@, buffer_id)),
            ),
            None => channel_position(channels@, buffer_id) < 0,
        },
{
    let mut insert_ix: usize = 0;
    let mut i: usize = 0;
    while i < channels.len()
        invariant
            i <= channels@.len(),
            channel_position(channels@.take(i as int), buffer_id) < 0,
            insert_ix == tracked_count(channels@.take(i as int)),
            insert_ix <= i,
        decreases channels.len() - i,
    {
        proof {
            assert(channels@.take(i + 1).drop_last() =~= channels@.take(i as int));
            assert(channels@.take(i + 1).last() == channels@[i as int]);
        }
        if channels[i].0 == buffer_id {
            proof {
                lemma_channel_position_prefix(channels@, buffer_id, i as int + 1);
            }
            return Some(insert_ix);
        }
        if channels[i].1 {
            insert_ix += 1;
        }
        i += 1;
    }
    proof {
        assert(channels@.take(i as int) =~= channels@);
    }
    None
}

/// Once a prefix holds the channel, the position in the whole sequence is the one in the prefix.
proof fn lemma_channel_position_prefix(channels: Seq<(BufferId, bool)>, buffer_id: BufferId, n: int)
    requires
        0 <= n <= channels.len(),
        channel_position(channels.take(n), buffer_id) >= 0,
    ensures
        channel_position(channels, buffer_id) == channel_position(channels.take(n), buffer_id),
    decreases channels.len() - n,
{
    if n < channels.len() {
        assert(channels.take(n + 1).drop_last() =~= channels.take(n));
        lemma_channel_position_prefix(channels, buffer_id, n + 1);
    } else {
        assert(channels.take(n) =~= channels);
    }
}

/// Where a channel track is restored, with the file offset it inherits: nothing when the
/// channel already has a track (`has_track`), when no open file has it, or when its file's
/// offset is unknown (`file_offset`); else its insertion index (`track_insert_index`).
pub fn restore_channel_plan(
    has_track: bool,
    channels: &[(BufferId, bool)],
    buffer_id: BufferId,
    file_offset: Option<i64>,
) -> (r: Option<(usize, i64)>)
    ensures
        r == if has_track || channel_position(channels@, buffer_id) < 0 || file_offset is None {
            None::<(usize, i64)>
        } else {
            Some(
                (
                    tracked_count(channels@.take(channel_position(channels@, buffer_id))) as usize,
                    file_offset->0,
                ),
            )
        },
{
    if has_track {
        return None;
    }
    let ix = match track_insert_index(channels, buffer_id) {
        Some(ix) => ix,
        None => return None,
    };
    match file_offset {
        Some(o) => Some((ix, o)),
        None => None,
    }
}

/// The tracks of a file's channels that follow its offset, in channel order: `channels` gives,
/// per channel, the track showing it and whether that track inherits the file offset.
pub open spec fn inheriting_tracks(channels: Seq<Option<(TrackId, bool)>>) -> Seq<TrackId>
    decreases channels.len(),
{
    if channels.len() == 0 {
        seq![]
    } else {
        let rest = inheriting_tracks(channels.drop_last());
        match channels.last() {
            Some((t, true)) => rest.push(t),
            _ => rest,
        }
    }
}

/// The tracks whose offset changes with their file's offset: those of its channels that
/// inherit it; channels without track are skipped.
pub fn file_offset_followers(channels: &[Option<(TrackId, bool)>]) -> (r: Vec<TrackId>)
    ensures
        r@ == inheriting_tracks(channels@),
{
    let mut r: Vec<TrackId> = Vec::new();
    let mut i: usize = 0;
    while i < channels.len()
        invariant
            i <= channels@.len(),
            r@ == inheriting_tracks(channels@.take(i as int)),
        decreases channels.len() - i,
    {
        proof {
            assert(channels@.take(i + 1).drop_last() =~= channels@.take(i as int));
            assert(channels@.take(i + 1).last() == channels@[i as int]);
        }
        match channels[i] {
            Some((t, true)) => r.push(t),
            _ => {},
        }
        i += 1;
    }
    proof {
        assert(channels@.take(i as int) =~= channels@);
    }
    r
}

/// Turning a track's offset inheritance on or off: refused (`None`) for a missing track
/// (`track_exists`) or when turning it on for a track without file (`file_offset` is `None`);
/// otherwise the offset the track adopts, which is its file's when turning it on, and its own
/// (`None`) when turning it off.
pub fn offset_inheritance(track_exists: bool, file_offset: Option<i64>, use_file_offset: bool) -> (r: Option<
    Option<i64>,
>)
    ensures
        r == if (use_file_offset && file_offset is None) || !track_exists {
            None::<Option<i64>>
        } else if use_file_offset {
            Some(file_offset)
        } else {
            Some(None::<i64>)
        },
{
    if use_file_offset && file_offset.is_none() {
        return None;
    }
    if !track_exists {
        return None;
    }
    if use_file_offset {
        Some(file_offset)
    } else {
        Some(None)
    }
}

/// Law: the tracks following a file's offset are exactly the inheriting tracks of its channels,
/// and there are no more of them than channels.
pub proof fn followers_are_the_inheriting_tracks(channels: Seq<Option<(TrackId, bool)>>, x: TrackId)
    ensures
        inheriting_tracks(channels).contains(x) <==> exists|i: int|
            0 <= i < channels.len() && #[trigger] channels[i] == Some((x, true)),
        inheriting_tracks(channels).len() <= channels.len(),
    decreases channels.len(),
{
    if channels.len() > 0 {
        let init = channels.drop_last();
        followers_are_the_inheriting_tracks(init, x);
        let rest = inheriting_tracks(init);
        if exists|i: int| 0 <= i < init.len() && #[trigger] init[i] == Some((x, true)) {
            let i = choose|i: int| 0 <= i < init.len() && #[trigger] init[i] == Some((x, true));
            assert(channels[i] == init[i]);
        }
        if exists|i: int| 0 <= i < channels.len() && #[trigger] channels[i] == Some((x, true)) {
            let i = choose|i: int| 0 <= i < channels.len() && #[trigger] channels[i] == Some((x, true));
            if i < channels.len() - 1 {
                assert(init[i] == channels[i]);
            }
        }
        match channels.last() {
            Some((t, true)) => {
                let r = rest.push(t);
                if rest.contains(x) {
                    let k = choose|k: int| 0 <= k < rest.len() && rest[k] == x;
                    assert(r[k] == x);
                }
                if r.contains(x) && x != t {
                    let k = choose|k: int| 0 <= k < r.len() && r[k] == x;
                    assert(rest[k] == x);
                }
                if x == t {
                    assert(r[rest.len() as int] == x);
                }
            },
            _ => {},
        }
    }
}

/// Law: a restored channel track goes right after the tracks of the channels listed before it:
/// its index counts exactly those earlier channels that have a track, so it never exceeds the
/// channel's own position.
pub proof fn restored_track_follows_earlier_tracks(channels: Seq<(BufferId, bool)>, n: int)
    requires
        0 <= n <= channels.len(),
    ensures
        tracked_count(channels.take(n)) <= n,
        n < channels.len() ==> tracked_count(channels.take(n + 1)) == tracked_count(channels.take(n)) + if channels[n].1 {
            1int
        } else {
            0int
        },
{
    if n < channels.len() {
        assert(channels.take(n + 1).drop_last() =~= channels.take(n));
    }
    lemma_tracked_count_bound(channels.take(n));
}

proof fn lemma_tracked_count_bound(channels: Seq<(BufferId, bool)>)
    ensures
        tracked_count(channels) <= channels.len(),
    decreases channels.len(),
{
    if channels.len() > 0 {
        lemma_tracked_count_bound(channels.drop_last());
    }
}

} // verus!
