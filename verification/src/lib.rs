//! Verified model logic of a WAV viewer and diff tool.
pub mod ruler;
pub mod dependencies;
pub mod shortcuts;
pub mod track_selection;
pub mod audio;
pub mod detect_offset;
pub mod diff;
pub mod diff_pairing;
pub mod jobs;
pub mod demo;
pub mod load_manager;
pub mod config;
pub mod view_buffer;
pub mod files;
pub mod monitoring;
pub mod selection;
pub mod peak;
pub mod text;
pub mod reload;
pub mod actions;
pub mod track_order;
