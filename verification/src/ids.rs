//! Record identifiers: globally unique, sortable, immutable once assigned.

use vstd::prelude::*;

verus! {

/// Relies on ulid generation (the current time plus randomness), rendered
/// in Crockford base32: always 26 characters. Which value comes back
/// depends on the clock and the generator, so nothing more is promised.
#[verifier::external_body]
pub(crate) fn new_image_id() -> (r: String)
    ensures
        r@.len() == 26,
{
    ulid::Ulid::generate().to_string()
}

} // verus!
