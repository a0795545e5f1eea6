//! Core of an application launcher: a catalog of launchable entries (bare
//! executables found on the search path and desktop-style application
//! descriptors), merged with a persisted usage cache keyed by filesystem
//! path, plus the command-line construction performed at launch time.
//!
//! The crate holds only the logic: scanning decisions, descriptor parsing,
//! catalog merging and ordering, usage counting, and command-string
//! construction. All filesystem, environment and process work is left to
//! the surrounding program, which hands plain values in and out.

pub mod strings;
pub mod entry;
pub mod store;
pub mod desktop;
pub mod order;
pub mod catalog;
pub mod dispatch;
pub mod options;
pub mod laws;
