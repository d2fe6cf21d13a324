//! Content-addressed image ingestion and confidence-ranked voting.
//!
//! The library holds the verified core of an image voting service:
//! deterministic content identity and canonical file naming, the Wilson
//! lower-bound ranking of vote tallies (in fixed-point millionths, since the
//! ranking key is a pure number), a sampler biased toward low-evidence
//! records, and the metadata store with its vote state machine. File and
//! network I/O stay outside; callers hand the library plain bytes, names and
//! vote values.

use vstd::prelude::*;

pub mod digits;
pub mod hashing;
pub mod ids;
pub mod naming;
pub mod rank;
pub mod sampler;
pub mod store;
pub mod transcode;

verus! {

/// Errors of the core, mirroring the service's taxonomy. A duplicate
/// ingestion is reported through [`Admit`], not here: it is informational.
#[derive(Clone, Copy, Debug, PartialEq, Eq, Structural)]
pub enum Error {
    /// A read, copy or move failed. Raised only by unverified callers that
    /// perform I/O; the verified core never produces it.
    IoError,
    /// The bytes could not be decoded as a supported raster image.
    DecodeError,
    /// A vote targeted an id with no record.
    NotFound,
    /// A vote value other than `+1` or `-1`.
    InvalidValue,
    /// The backing store refused an operation (id collision, capacity).
    StoreError,
}

/// Outcome of the dedup gate: either the content was new and admitted, or
/// identical bytes had been admitted before and nothing changed.
#[derive(Clone, Copy, Debug, PartialEq, Eq, Structural)]
pub enum Admit {
    Inserted,
    Duplicate,
}

/// The three storage locations, externally configured and passed explicitly
/// into every component that needs them.
#[derive(Debug, Clone)]
pub struct Config {
    /// Inbound, transient files awaiting ingestion.
    pub imports_path: String,
    /// Content-addressed originals, named `"{hash}.{ext}"`.
    pub raws_path: String,
    /// Fixed-size renditions, named `"{hash}.jpg"`.
    pub resized_path: String,
}

} // verus!
