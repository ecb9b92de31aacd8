//! Fragment distribution engine: splits a binary payload into per-container
//! fragments under two placement policies (chunked and scrambled), frames each
//! fragment with an order-recovery header, reassembles the payload from
//! fragments arriving in any order, and tracks a bounded worker pool that
//! drives the external embed primitive.

pub mod capacity;
pub mod cli;
pub mod engine;
pub mod errors;
pub mod framing;
pub mod pool;
pub mod split;

use vstd::prelude::*;

verus! {

/// The byte sequence of a `Vec<u8>` is its deep view.
pub proof fn lemma_bytes_deep_view(v: Vec<u8>)
    ensures
        v.deep_view() == v@,
{
    assert(v.deep_view() =~= v@);
}

} // verus!
