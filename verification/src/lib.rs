//! A durable local registry for externally spawned work sessions.
//!
//! Each tracked entry binds a work directory and a terminal-multiplexer
//! window to a spawned command. The crate covers the persistent registry
//! (CRUD over entries and their tool-call log), the one-time migration of
//! the legacy on-disk layout, the pure stale-detection pass used by
//! cleanup, and the exit-kill policy that decides whether a finished
//! entry is deleted or kept with its exit code.
//!
//! All I/O (files, locks, child processes) lives outside this crate; the
//! functions here work on plain values and carry machine-checked
//! contracts.

pub mod cliargs;
pub mod entity;
pub mod error;
pub mod migrate;
pub mod order;
pub mod project;
pub mod registry;
pub mod stale;
pub mod tools;
pub mod trusted;
