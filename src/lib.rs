//! Keeps per-user mirrors of one credential field (the password hash) in step
//! with the system credential database, and rewrites that database from the
//! mirrors.

pub mod bytes;
pub mod utf8;
pub mod entry;
pub mod shadow;
pub mod mirror;
pub mod config;
pub mod rewrite;
pub mod watch;
pub mod paths;
