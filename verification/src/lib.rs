//! A verified A/B-bank software updater.
//!
//! An update is delivered as a zip archive holding logical blocks: opaque
//! byte images destined for fixed regions of the currently inactive bank.
//! The library parses the bank configuration, resolves the archive's index
//! and manifest, copies each block to its destination region in 4096-byte
//! chunks, and then verifies an RSA-PSS signature over the bytes that
//! actually landed at the destination.

pub mod crypto;
pub mod device;
pub mod logical_blocks;
pub mod map_json;
pub mod memory;
pub mod reporting;
pub mod software_archive;
pub mod text;
pub mod update_sequence;
pub mod xml;
