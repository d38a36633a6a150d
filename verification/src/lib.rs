//! Planning and streaming core of an incremental bundle installer.
//!
//! A release is distributed as a few large archive blobs hosted as static
//! HTTP objects; each logical file is a byte range inside one of them,
//! addressed by a content hash. This library holds the verified pipeline:
//! manifest diffing, archive-position resolution, range coalescing, chunk
//! splicing across destination boundaries, and hash-addressed deployment
//! planning. All network and disk I/O lives outside the library and hands
//! plain values in and out.

pub mod deploy;
pub mod device;
pub mod diff;
pub mod locate;
pub mod manifest;
pub mod notify;
pub mod optimize;
pub mod plan;
pub mod splice;
pub mod state;

pub use manifest::HashInfo;
