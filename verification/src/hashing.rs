//! Content identity: a stable 64-bit fingerprint of a file's bytes,
//! computed with a fixed seed so the same bytes always produce the same
//! value across runs and processes. Chosen for speed over large payloads,
//! not for resistance to adversarial collisions.

use vstd::prelude::*;
use crate::digits::{dec_of, u64_to_dec};

verus! {

/// The 64-bit content fingerprint of a byte payload, a function of the
/// bytes alone.
pub uninterp spec fn content_fingerprint(bytes: Seq<u8>) -> u64;

/// Relies on twox-hash's 64-bit oneshot hash at seed zero: the result is
/// a function of the bytes alone, identical across runs and processes.
#[verifier::external_body]
fn xxhash64(bytes: &[u8]) -> (r: u64)
    ensures
        r == content_fingerprint(bytes@),
{
    twox_hash::XxHash64::oneshot(0, bytes)
}

/// The content key of a payload: the fingerprint and its decimal
/// rendering, which canonical file names and records carry.
pub fn content_key(bytes: &[u8]) -> (r: (u64, String))
    ensures
        r.0 == content_fingerprint(bytes@),
        r.1@ == dec_of(content_fingerprint(bytes@) as int),
{
    let h = xxhash64(bytes);
    let s = u64_to_dec(h);
    (h, s)
}

/// Law: content identity depends on the bytes alone, so two payloads with
/// equal bytes collapse to one fingerprint, one canonical key and - through
/// the store's dedup gate - one record, whatever their original names.
pub proof fn lemma_content_identity(b1: Seq<u8>, b2: Seq<u8>)
    requires
        b1 == b2,
    ensures
        content_fingerprint(b1) == content_fingerprint(b2),
        dec_of(content_fingerprint(b1) as int) == dec_of(content_fingerprint(b2) as int),
{
}

} // verus!
