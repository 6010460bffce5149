//! Local working-copy manager for a remote CTF challenge catalog.
//!
//! The library reconciles a remote catalog against a local directory tree,
//! plans safe extraction of downloaded archives, and keeps a persisted cache
//! of already-tried flags so a flag is never submitted twice.

pub mod archive;
pub mod cli;
pub mod client;
pub mod flag_cache;
pub mod models;
pub mod reconcile;
pub mod repo;
pub mod submission;
pub mod sync;
pub mod text;
