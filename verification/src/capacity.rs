//! Aggregate capacity arithmetic: how much payload a set of containers can
//! hold under each placement policy.
//!
//! The external primitive reports a raw byte capacity per container; 8 of
//! those bytes are reserved for the framing header, so each container's
//! usable capacity is the raw value less 8. The scrambled policy writes the
//! same number of bytes to every container, so its aggregate is the smallest
//! usable capacity times the container count; the chunked policy uses every
//! usable byte, so its aggregate is the sum.

use vstd::prelude::*;

use crate::errors::StegError;
use crate::split::{lemma_min_cap_take_succ, lemma_sum_caps_take_succ, min_cap, sum_caps};

verus! {

/// Bytes reserved per container for the framing header.
pub const HEADER_RESERVATION: u64 = 8;

/// Each raw reported capacity less the 8-byte framing reservation.
pub open spec fn usable(caps: Seq<u64>) -> Seq<u64> {
    caps.map_values(|c: u64| (c - 8) as u64)
}

/// An aggregate capacity rule: what one policy can store across containers
/// whose raw reported capacities are given.
pub trait MulCapacity {
    /// Bounds under which the aggregate fits in a `u64`.
    spec fn capacity_req(caps: Seq<u64>) -> bool;

    /// The aggregate usable payload capacity, in bytes.
    spec fn capacity_spec(caps: Seq<u64>) -> int;

    /// Aggregate usable payload capacity of containers whose raw reported
    /// capacities are `capacities`, in the order the containers were found.
    fn capacity(capacities: &Vec<u64>) -> (r: u64)
        requires
            Self::capacity_req(capacities@),
        ensures
            r == Self::capacity_spec(capacities@),
    ;
}

/// Aggregate capacity under the scrambled policy: the smallest usable
/// capacity times the container count, since every container receives the
/// same number of bytes.
pub struct MulScrambledCapacity;

/// Aggregate capacity under the chunked policy: the sum of the usable
/// capacities, since every usable byte is filled.
pub struct MulFullCapacity;

impl MulCapacity for MulScrambledCapacity {
    open spec fn capacity_req(caps: Seq<u64>) -> bool {
        &&& forall|i: int| 0 <= i < caps.len() ==> #[trigger] caps[i] >= 8
        &&& (caps.len() > 0 ==> min_cap(usable(caps)) * caps.len() <= u64::MAX)
    }

    open spec fn capacity_spec(caps: Seq<u64>) -> int {
        if caps.len() == 0 {
            0
        } else {
            min_cap(usable(caps)) * caps.len()
        }
    }

    #[verifier::loop_isolation(false)]
    fn capacity(capacities: &Vec<u64>) -> (r: u64) {
        let ghost small = usable(capacities@);
        let mut smallest: u64 = u64::MAX;
        let mut i: usize = 0;
        while i < capacities.len()
            invariant
                i <= capacities@.len(),
                smallest == min_cap(small.take(i as int)),
            decreases capacities@.len() - i,
        {
            let c = capacities[i] - 8;
            proof {
                assert(small[i as int] == c);
                lemma_min_cap_take_succ(small, i as int);
            }
            if c < smallest {
                smallest = c;
            }
            i = i + 1;
        }
        proof {
            assert(small.take(capacities@.len() as int) =~= small);
        }
        if capacities.len() == 0 {
            0
        } else {
            smallest * (capacities.len() as u64)
        }
    }
}

impl MulCapacity for MulFullCapacity {
    open spec fn capacity_req(caps: Seq<u64>) -> bool {
        &&& forall|i: int| 0 <= i < caps.len() ==> #[trigger] caps[i] >= 8
        &&& sum_caps(usable(caps)) <= u64::MAX
    }

    open spec fn capacity_spec(caps: Seq<u64>) -> int {
        sum_caps(usable(caps))
    }

    #[verifier::loop_isolation(false)]
    fn capacity(capacities: &Vec<u64>) -> (r: u64) {
        let ghost small = usable(capacities@);
        let mut total: u64 = 0;
        let mut i: usize = 0;
        while i < capacities.len()
            invariant
                i <= capacities@.len(),
                total == sum_caps(small.take(i as int)),
            decreases capacities@.len() - i,
        {
            let c = capacities[i] - 8;
            proof {
                assert(small[i as int] == c);
                lemma_sum_caps_take_succ(small, i as int);
                lemma_sum_caps_take_le(small, i + 1 as int);
            }
            total = total + c;
            i = i + 1;
        }
        proof {
            assert(small.take(capacities@.len() as int) =~= small);
        }
        total
    }
}

/// A prefix of a capacity list never exceeds the whole list's total.
pub proof fn lemma_sum_caps_take_le(caps: Seq<u64>, i: int)
    requires
        0 <= i <= caps.len(),
    ensures
        sum_caps(caps.take(i)) <= sum_caps(caps),
    decreases caps.len() - i,
{
    if i == caps.len() {
        assert(caps.take(i) =~= caps);
    } else {
        lemma_sum_caps_take_succ(caps, i);
        lemma_sum_caps_take_le(caps, i + 1);
    }
}

/// Reduce each raw reported capacity by the 8-byte framing reservation,
/// giving the per-container capacities a split may fill.
///
/// A container whose raw capacity cannot even hold the framing header has
/// no usable capacity to report: the whole list is refused with
/// `CapacityUnavailable`, so that a split never runs on a partial or
/// corrupted capacity list.
pub fn usable_capacities(raw: &Vec<u64>) -> (r: Result<Vec<u64>, StegError>)
    ensures
        match r {
            Ok(u) => (forall|i: int| 0 <= i < raw@.len() ==> #[trigger] raw@[i] >= 8) && u@
                == usable(raw@),
            Err(e) => e == StegError::CapacityUnavailable && (exists|i: int|
                0 <= i < raw@.len() && #[trigger] raw@[i] < 8),
        },
{
    let mut out: Vec<u64> = Vec::new();
    let mut i: usize = 0;
    #[verifier::loop_isolation(false)]
    while i < raw.len()
        invariant
            i <= raw@.len(),
            forall|j: int| 0 <= j < i ==> #[trigger] raw@[j] >= 8,
            out@ == usable(raw@).take(i as int),
        decreases raw@.len() - i,
    {
        let c = raw[i];
        if c < 8 {
            return Err(StegError::CapacityUnavailable);
        }
        out.push(c - 8);
        assert(out@ =~= usable(raw@).take(i + 1 as int));
        i = i + 1;
    }
    assert(out@ =~= usable(raw@));
    Ok(out)
}

} // verus!
