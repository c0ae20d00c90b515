//! Profiling and hardening overlays for the units of the service manager.
//!
//! A unit is profiled by laying a transient fragment over it that runs its
//! start commands under a tracer, and hardened by laying a persistent
//! fragment over it that holds the options found. This crate works out what
//! is to be written, asked and concluded; it touches no file and starts no
//! process itself.
//!
//! - [`unit`]: the unit, its file name and the paths of its fragments.
//! - [`locator`]: the files that configure a unit, from the manager's status.
//! - [`directive`]: the values that those files give to a directive.
//! - [`fragment`]: the text of the two fragments.
//! - [`overlay`]: which fragments a unit may get or lose.
//! - [`journal`]: the options that the tracer has left in the log.
//! - [`control`]: the commands for the service manager, and what their end
//!   means.
//! - [`text`]: sequences of characters, lines and numbers.
//! - [`outside`]: the calls into other crates.
//! - [`error`]: what can go wrong.

pub mod control;
pub mod directive;
pub mod error;
pub mod fragment;
pub mod journal;
pub mod locator;
pub mod outside;
pub mod overlay;
pub mod text;
pub mod unit;
