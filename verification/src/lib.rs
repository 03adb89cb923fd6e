//! A reversible file-organization engine.
//!
//! Files in a directory are classified by extension into category
//! subdirectories, each move is recorded in an append-only operation log,
//! and the log can be replayed in reverse to undo the moves.
//!
//! The library does no file I/O: it plans moves, resolves name collisions
//! against a snapshot of existing paths, and encodes / decodes the
//! on-disk operation log. Performing the moves and reading directories
//! is left to the caller.

pub mod classify;
pub mod config;
pub mod codec;
pub mod log;
pub mod organize;
pub mod paths;
pub mod revert;
