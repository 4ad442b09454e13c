//! Settings of the application that the model logic reads.
use vstd::prelude::*;

verus! {

/// The value of a setting that is on unless the stored configuration says otherwise.
pub fn default_true() -> (r: bool)
    ensures
        r,
{
    true
}

/// What dragging the start of a selection keeps fixed.
#[derive(Debug, Clone, Copy, PartialEq, Eq, Structural)]
pub enum StartEditMode {
    KeepEnd,
    KeepLength,
}

impl Default for StartEditMode {
    fn default() -> (r: Self)
        ensures
            r == StartEditMode::KeepEnd,
    {
        StartEditMode::KeepEnd
    }
}

/// Selection settings.
#[derive(Debug, Clone, Copy, PartialEq, Eq, Structural)]
pub struct SelectionConfig {
    pub start_edit_mode: StartEditMode,
}

impl Default for SelectionConfig {
    fn default() -> (r: Self)
        ensures
            r.start_edit_mode == StartEditMode::KeepEnd,
    {
        SelectionConfig { start_edit_mode: StartEditMode::default() }
    }
}

/// Visibility and layout of the main view panels.
#[derive(Debug, Clone, Copy, PartialEq, Eq, Structural)]
pub struct ViewConfig {
    /// Show the right side panel (settings, jobs, ruler, hover and selection info).
    pub show_right_panel: bool,
}

impl Default for ViewConfig {
    /// The right panel is shown.
    fn default() -> (r: Self)
        ensures
            r.show_right_panel,
    {
        ViewConfig { show_right_panel: true }
    }
}

/// Which statistics to gather over a range of a buffer.
#[derive(Debug, Clone, Copy, PartialEq, Eq, Structural)]
pub struct StatsOptions {
    pub rms: bool,
    pub peak: bool,
}

impl Default for StatsOptions {
    /// Both statistics are gathered.
    fn default() -> (r: Self)
        ensures
            r.rms && r.peak,
    {
        StatsOptions { rms: true, peak: true }
    }
}

} // verus!
