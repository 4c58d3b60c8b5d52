//! Handles: 32-byte value slots holding the content digest of an
//! out-of-line blob.  The core never reads blob contents; a handle is
//! carried around as an opaque slot and may be weakened to a bare digest.

use vstd::prelude::*;
use crate::trible::RawValue;

verus! {

/// The schema of slots holding the digest, under hash family `H`, of a
/// blob of type `T`.  The parameters only tag the schema; a handle value
/// is its 32 digest bytes.
#[verifier::reject_recursive_types(H)]
#[verifier::reject_recursive_types(T)]
pub struct Handle<H, T> {
    pub typing: Ghost<Option<(H, T)>>,
}

/// Forget what a handle points at: the digest bytes stand unchanged.
pub fn handle_to_hash(v: &RawValue) -> (r: RawValue)
    requires
        v@.len() == 32,
    ensures
        r@ == v@,
{
    crate::trie::copy_bytes(v)
}

} // verus!
