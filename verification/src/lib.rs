//! The storage engine of a content-addressed package registry: invoices
//! (versioned package manifests) and parcels (content-addressed blobs with
//! labels) on a hierarchical store.
//!
//! This crate is the verified core. It derives canonical on-disk names and
//! paths, encodes and parses the stored manifest documents — with a proof
//! that parsing undoes encoding — and decides every storage operation:
//! what to write where, which referenced parcels are missing, and how the
//! yank lifecycle behaves. A thin unverified shell performs the filesystem
//! and index effects these decisions call for.
pub mod addressing;
pub mod codec;
pub mod model;
pub mod storage;
pub mod text;
