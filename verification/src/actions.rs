//! The decisions of action processing that do not depend on floating-point view state: whether
//! a worker result still belongs to the workspace, what follows its integration, and where a
//! detected offset goes.
use crate::dependencies::BufferId;
use crate::detect_offset::{OffsetDetectionResult, OffsetDetectionTarget};
use crate::files::FileId;
use crate::track_selection::TrackId;
use vstd::prelude::*;

verus! {

/// An action queued after another one was processed.
#[derive(Debug, Clone, Copy, PartialEq, Eq, Structural)]
pub enum FollowUp {
    /// Fit every track to the whole timeline.
    ZoomToFull,
    /// Re-apply the equal-height layout to the new set of tracks.
    FillEqualHeight,
}

/// What follows integrating a worker result into the workspace, or `None` when the result
/// was prepared for a workspace that has since been cleared (`generation` is not the current
/// one) and is dropped.
pub fn integration_follow_ups(generation: u64, current_generation: u64, equal_height_layout: bool) -> (r: Option<
    Vec<FollowUp>,
>)
    ensures
        generation != current_generation ==> r is None,
        generation == current_generation ==> r is Some && r->0@ == if equal_height_layout {
            seq![FollowUp::ZoomToFull, FollowUp::FillEqualHeight]
        } else {
            seq![FollowUp::ZoomToFull]
        },
{
    if generation != current_generation {
        return None;
    }
    let mut follow = Vec::new();
    follow.push(FollowUp::ZoomToFull);
    if equal_height_layout {
        follow.push(FollowUp::FillEqualHeight);
    }
    Some(follow)
}

/// Why an action cannot be processed.
#[derive(Debug, Clone, Copy, PartialEq, Eq, Structural)]
pub enum ActionError {
    TrackNotFound(TrackId),
    FileNotFound(FileId),
}

/// The buffer to scan for a track's offset: none while the track inherits its file's offset,
/// and an error for a track that does not exist. `track` is the track's offset inheritance and
/// buffer, if the track exists.
pub fn track_offset_scan(track_id: TrackId, track: Option<(bool, BufferId)>) -> (r: Result<
    Option<BufferId>,
    ActionError,
>)
    ensures
        r == match track {
            None => Err::<Option<BufferId>, ActionError>(ActionError::TrackNotFound(track_id)),
            Some((true, _)) => Ok(None),
            Some((false, b)) => Ok(Some(b)),
        },
{
    match track {
        None => Err(ActionError::TrackNotFound(track_id)),
        Some((use_file_offset, buffer_id)) => if use_file_offset {
            Ok(None)
        } else {
            Ok(Some(buffer_id))
        },
    }
}

/// Where a detected offset is applied.
#[derive(Debug, Clone, Copy, PartialEq, Eq, Structural)]
pub enum OffsetApplication {
    /// Nothing was found, or the target is gone or no longer shows the scanned audio.
    Ignore,
    /// Set the track's offset.
    Track { track_id: TrackId, sample_ix_offset: i64 },
    /// Set the file's offset, and with it that of its inheriting channel tracks.
    File { file_id: FileId, sample_ix_offset: i64 },
}

/// Where a detected offset goes: a track target only while the track still shows the scanned
/// buffer (`track_buffer_now`, `None` once the track is gone), a file target only while the file
/// is open; a scan that found nothing changes nothing.
pub fn apply_detected_offset(
    result: OffsetDetectionResult,
    track_buffer_now: Option<BufferId>,
    file_open: bool,
) -> (r: OffsetApplication)
    ensures
        r == match (result.sample_ix_offset, result.target) {
            (None, _) => OffsetApplication::Ignore,
            (Some(o), OffsetDetectionTarget::Track { track_id, buffer_id }) => if track_buffer_now == Some(
                buffer_id,
            ) {
                OffsetApplication::Track { track_id, sample_ix_offset: o }
            } else {
                OffsetApplication::Ignore
            },
            (Some(o), OffsetDetectionTarget::File { file_id }) => if file_open {
                OffsetApplication::File { file_id, sample_ix_offset: o }
            } else {
                OffsetApplication::Ignore
            },
        },
{
    match result.sample_ix_offset {
        None => OffsetApplication::Ignore,
        Some(o) => match result.target {
            OffsetDetectionTarget::Track { track_id, buffer_id } => {
                let current = match track_buffer_now {
                    Some(b) => b == buffer_id,
                    None => false,
                };
                if current {
                    OffsetApplication::Track { track_id, sample_ix_offset: o }
                } else {
                    OffsetApplication::Ignore
                }
            },
            OffsetDetectionTarget::File { file_id } => if file_open {
                OffsetApplication::File { file_id, sample_ix_offset: o }
            } else {
                OffsetApplication::Ignore
            },
        },
    }
}

/// The global-timeline range whose statistics a track shows: the selection, if any, else the
/// whole buffer of `buffer_len` samples shifted by the track's `offset` (local index = global
/// index + offset). Ranges are half-open `(start, end)`.
pub fn stats_range(selection: Option<(i64, i64)>, offset: i64, buffer_len: i64) -> (r: (i64, i64))
    requires
        selection is None ==> offset > i64::MIN && i64::MIN <= buffer_len - offset <= i64::MAX,
    ensures
        r == match selection {
            Some(sel) => sel,
            None => ((-offset) as i64, (buffer_len - offset) as i64),
        },
{
    match selection {
        Some(sel) => sel,
        None => (-offset, buffer_len - offset),
    }
}

} // verus!
