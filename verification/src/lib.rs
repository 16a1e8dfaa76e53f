//! Overlay management for a game installation: bundles of files that are staged in
//! managed storage, projected onto the installation, and retracted again with the
//! files they overwrote put back.
//!
//! The library decides; the caller touches the disk and the database. Every operation
//! takes plain values in and hands a plan back: the copies, deletions and restores to
//! carry out, and the catalog as it stands afterwards.

pub mod db_deal;
pub mod entry;
pub mod error;
pub mod file_deal;
pub mod paths;
pub mod service;
