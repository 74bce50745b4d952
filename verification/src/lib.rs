//! Replay and record engine of a frame-accurate input editor.
//!
//! The crate keeps three things consistent with one another: the editable log
//! of per-frame controller input, a sparse cache of emulator snapshots, and the
//! cursors that say what has been emulated and what the user is looking at.
//! The emulator itself stays outside: the controller decides, the caller runs
//! the emulator and reports back.

pub mod tas;
pub mod ui;
