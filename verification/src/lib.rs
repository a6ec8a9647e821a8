//! Revenant core: read-only storage recovery logic.
//!
//! The verified library holds the on-disk format parsers (FAT32, NTFS), the
//! signature carver, structural verification of recovered file types, the
//! resilient reader, and the decision logic of the recovery engine.

pub mod bytes;
pub mod storage;
pub mod text;
pub mod digest;
pub mod signatures;
pub mod carve;
pub mod verify;
pub mod ntfs;
pub mod fat32;
pub mod resilience;
pub mod imaging;
pub mod fragment;
pub mod encryption;
pub mod provider;
pub mod device;
pub mod trim;
pub mod engine;
pub mod dedup;
pub mod destination;
pub mod preview;
pub mod auth;
pub mod scoring;
pub mod performance;
pub mod jobs;
pub mod workers;
pub mod server;
pub mod reporting;
pub mod platform;
pub mod checkpoint;
pub mod api;
pub mod fixtures;
