//! The fragment distribution engine's entry points: the compute half of the
//! embed path (reserve header room, split, frame) and of the extract path
//! (deframe, reorder, join), with the placement policy chosen by the
//! command line's mode at this boundary.
//!
//! Padding cannot be told apart from trailing zero bytes of the payload
//! itself, so the payload's true length is encoded explicitly: the stream
//! that is split is the payload behind an 8-byte big-endian length word.
//! The extract path first joins enough of the stream to read that word,
//! then joins exactly the bytes the word names and drops the word.

use vstd::prelude::*;

use crate::capacity::{usable, usable_capacities};
use crate::cli::SplitModeEnum;
use crate::errors::StegError;
use crate::framing::{
    collect_fragments, empty_slots, frame_fragment, framed, place_pieces, read_frame_index,
    u64_be_bytes, u64_from_be_bytes,
};
use crate::lemma_bytes_deep_view;
use crate::split::{
    concat_frags, lemma_concat_frags_push, unstride, Split, SplitChunks, SplitScrambled,
};

verus! {

/// Whether the chosen policy's split succeeds on this stream and these
/// usable capacities.
pub open spec fn mode_split_ok(mode: SplitModeEnum, data: Seq<u8>, caps: Seq<u64>) -> bool {
    match mode {
        SplitModeEnum::Scrambled => <SplitScrambled as Split>::split_ok(data, caps),
        SplitModeEnum::Full => <SplitChunks as Split>::split_ok(data, caps),
    }
}

/// The fragments of the chosen policy's split.
pub open spec fn mode_fragments(mode: SplitModeEnum, data: Seq<u8>, caps: Seq<u64>) -> Seq<
    Seq<u8>,
> {
    match mode {
        SplitModeEnum::Scrambled => <SplitScrambled as Split>::fragments(data, caps),
        SplitModeEnum::Full => <SplitChunks as Split>::fragments(data, caps),
    }
}

/// The error the chosen policy's split reports when it refuses.
pub open spec fn mode_split_err(mode: SplitModeEnum, data: Seq<u8>, caps: Seq<u64>) -> StegError {
    match mode {
        SplitModeEnum::Scrambled => <SplitScrambled as Split>::split_err(data, caps),
        SplitModeEnum::Full => <SplitChunks as Split>::split_err(data, caps),
    }
}

/// What the chosen policy's join needs of fragments and stream length.
pub open spec fn mode_join_req(mode: SplitModeEnum, frags: Seq<Seq<u8>>, stream_len: int) -> bool {
    match mode {
        SplitModeEnum::Scrambled => <SplitScrambled as Split>::join_req(frags, stream_len),
        SplitModeEnum::Full => <SplitChunks as Split>::join_req(frags, stream_len),
    }
}

/// The stream the chosen policy's join rebuilds.
pub open spec fn mode_joined(mode: SplitModeEnum, frags: Seq<Seq<u8>>, stream_len: int) -> Seq<
    u8,
> {
    match mode {
        SplitModeEnum::Scrambled => <SplitScrambled as Split>::joined(frags, stream_len),
        SplitModeEnum::Full => <SplitChunks as Split>::joined(frags, stream_len),
    }
}

/// Split under the policy the command line picked.
pub fn split_with_mode(mode: SplitModeEnum, data: &Vec<u8>, bin_capacities: &Vec<u64>) -> (r:
    Result<Vec<Vec<u8>>, StegError>)
    requires
        forall|i: int|
            0 <= i < bin_capacities@.len() ==> #[trigger] bin_capacities@[i] <= usize::MAX,
    ensures
        match r {
            Ok(bins) => mode_split_ok(mode, data@, bin_capacities@) && bins.deep_view()
                == mode_fragments(mode, data@, bin_capacities@),
            Err(e) => !mode_split_ok(mode, data@, bin_capacities@) && e == mode_split_err(
                mode,
                data@,
                bin_capacities@,
            ),
        },
{
    match mode {
        SplitModeEnum::Scrambled => SplitScrambled::split_to_bins(data, bin_capacities),
        SplitModeEnum::Full => SplitChunks::split_to_bins(data, bin_capacities),
    }
}

/// Join under the policy the command line picked.
pub fn join_with_mode(mode: SplitModeEnum, data: &[Vec<u8>], stream_len: usize) -> (r: Vec<u8>)
    requires
        mode_join_req(mode, data.deep_view(), stream_len as int),
    ensures
        r@ == mode_joined(mode, data.deep_view(), stream_len as int),
{
    match mode {
        SplitModeEnum::Scrambled => SplitScrambled::join_bins(data, stream_len),
        SplitModeEnum::Full => SplitChunks::join_bins(data, stream_len),
    }
}

/// The stream a payload is distributed as: the payload behind an 8-byte
/// big-endian word holding its true length, so that join-time padding
/// stripping never has to guess where the payload ends.
pub open spec fn length_prefixed(data: Seq<u8>) -> Seq<u8> {
    u64_be_bytes(data.len() as u64) + data
}

/// Whether the recovered fragments can carry a stream of `needed` bytes
/// under the chosen policy.
#[verifier::loop_isolation(false)]
fn joinable(mode: SplitModeEnum, frags: &Vec<Vec<u8>>, needed: usize) -> (r: bool)
    ensures
        r == mode_join_req(mode, frags.deep_view(), needed as int),
{
    let ghost frags_spec = frags.deep_view();
    let count = frags.len();
    match mode {
        SplitModeEnum::Scrambled => {
            if count == 0 {
                return false;
            }
            let mut ok = true;
            let mut i: usize = 0;
            while i < count
                invariant
                    i <= count,
                    count == frags_spec.len(),
                    ok == (forall|j: int|
                        0 <= j < i ==> needed <= (#[trigger] frags_spec[j]).len() * count),
                decreases count - i,
            {
                let flen = frags[i].len();
                proof {
                    lemma_bytes_deep_view(frags@[i as int]);
                    assert(frags_spec[i as int].len() == flen);
                    let mm = flen as u128;
                    let nn = count as u128;
                    assert(mm * nn <= u128::MAX) by (nonlinear_arith)
                        requires
                            mm < 0x1_0000_0000_0000_0000,
                            nn < 0x1_0000_0000_0000_0000,
                    ;
                }
                let over = (needed as u128) > (flen as u128) * (count as u128);
                if over {
                    ok = false;
                }
                proof {
                    assert(over == (needed > frags_spec[i as int].len() * count));
                }
                i = i + 1;
            }
            ok
        },
        SplitModeEnum::Full => {
            let mut covered: usize = 0;
            let mut i: usize = 0;
            while i < count
                invariant
                    i <= count,
                    count == frags_spec.len(),
                    covered <= needed,
                    covered == vstd::math::min(
                        needed as int,
                        concat_frags(frags_spec.take(i as int)).len() as int,
                    ),
                decreases count - i,
            {
                let flen = frags[i].len();
                proof {
                    lemma_bytes_deep_view(frags@[i as int]);
                    lemma_concat_frags_push(frags_spec.take(i as int), frags_spec[i as int]);
                    assert(frags_spec.take(i as int).push(frags_spec[i as int]) =~= frags_spec.take(
                        i + 1 as int,
                    ));
                }
                if flen >= needed - covered {
                    covered = needed;
                } else {
                    covered = covered + flen;
                }
                i = i + 1;
            }
            proof {
                assert(frags_spec.take(count as int) =~= frags_spec);
            }
            covered >= needed
        },
    }
}

/// The compute half of the embed path: reserve the 8-byte framing header in
/// every raw capacity, put the payload behind its 8-byte length word, split
/// the stream under the chosen policy, and frame each fragment with its
/// container index.
///
/// Succeeds exactly when every container can hold the framing header and
/// the policy accepts the stream; then piece `i` is fragment `i` behind its
/// index header, ready for container `i`. No partial list is ever
/// returned, so no embed call starts on a payload that cannot fully fit.
pub fn prepare_framed_fragments(
    mode: SplitModeEnum,
    data: &Vec<u8>,
    raw_capacities: &Vec<u64>,
) -> (r: Result<Vec<Vec<u8>>, StegError>)
    requires
        data@.len() + 8 <= usize::MAX,
        forall|i: int|
            0 <= i < raw_capacities@.len() ==> #[trigger] raw_capacities@[i] <= usize::MAX,
    ensures
        ({
            let caps = usable(raw_capacities@);
            let stream = length_prefixed(data@);
            match r {
                Ok(pieces) => {
                    &&& forall|i: int|
                        0 <= i < raw_capacities@.len() ==> #[trigger] raw_capacities@[i] >= 8
                    &&& mode_split_ok(mode, stream, caps)
                    &&& pieces.deep_view().len() == caps.len()
                    &&& forall|i: int|
                        0 <= i < caps.len() ==> #[trigger] pieces.deep_view()[i] == framed(
                            mode_fragments(mode, stream, caps)[i],
                            i as u64,
                        )
                },
                Err(e) => {
                    if exists|i: int|
                        0 <= i < raw_capacities@.len() && #[trigger] raw_capacities@[i] < 8 {
                        e == StegError::CapacityUnavailable
                    } else {
                        !mode_split_ok(mode, stream, caps) && e == mode_split_err(
                            mode,
                            stream,
                            caps,
                        )
                    }
                },
            }
        }),
{
    let caps = match usable_capacities(raw_capacities) {
        Ok(c) => c,
        Err(e) => {
            return Err(e);
        },
    };
    proof {
        assert forall|i: int| 0 <= i < caps@.len() implies #[trigger] caps@[i] <= usize::MAX by {
            assert(raw_capacities@[i] >= 8);
            assert(raw_capacities@[i] <= usize::MAX);
            assert(caps@[i] == usable(raw_capacities@)[i]);
        }
    }
    let stream = frame_fragment(data, data.len() as u64);
    proof {
        assert(stream@ == length_prefixed(data@));
    }
    let bins = match split_with_mode(mode, &stream, &caps) {
        Ok(b) => b,
        Err(e) => {
            return Err(e);
        },
    };
    let ghost frags = mode_fragments(mode, stream@, caps@);
    let mut pieces: Vec<Vec<u8>> = Vec::new();
    let mut i: usize = 0;
    #[verifier::loop_isolation(false)]
    while i < bins.len()
        invariant
            i <= bins@.len(),
            pieces.deep_view().len() == i,
            forall|j: int|
                0 <= j < i ==> #[trigger] pieces.deep_view()[j] == framed(frags[j], j as u64),
        decreases bins@.len() - i,
    {
        let piece = frame_fragment(&bins[i], i as u64);
        proof {
            lemma_bytes_deep_view(piece);
            lemma_bytes_deep_view(bins@[i as int]);
            assert(piece@ == framed(frags[i as int], i as u64));
        }
        let ghost before = pieces.deep_view();
        pieces.push(piece);
        proof {
            assert(pieces.deep_view() =~= before.push(piece@));
        }
        i = i + 1;
    }
    proof {
        assert(mode_fragments(mode, stream@, caps@).len() == caps@.len()) by {
            if mode is Scrambled {
                assert(<SplitScrambled as Split>::fragments(stream@, caps@).len() == caps@.len());
            } else {
                assert(<SplitChunks as Split>::fragments(stream@, caps@).len() == caps@.len());
            }
        }
    }
    Ok(pieces)
}

/// Whether every expected container index was recovered from the extracted
/// pieces.
pub open spec fn reassembly_complete(pieces: Seq<Seq<u8>>, count: nat) -> bool {
    forall|i: int|
        0 <= i < count ==> !((#[trigger] place_pieces(empty_slots(count), pieces)[i]) is None)
}

/// The fragments the extracted pieces carry, in container-index order.
pub open spec fn recovered_fragments(pieces: Seq<Seq<u8>>, count: nat) -> Seq<Seq<u8>> {
    Seq::new(count, |i: int| place_pieces(empty_slots(count), pieces)[i]->Some_0)
}

/// The payload length named by the stream's 8-byte length word.
pub open spec fn recovered_length(mode: SplitModeEnum, frags: Seq<Seq<u8>>) -> int {
    u64_from_be_bytes(mode_joined(mode, frags, 8)) as int
}

/// The compute half of the extract path: place each recovered piece by its
/// framing index, join enough of the reordered fragments to read the
/// 8-byte length word, and join exactly the bytes it names.
///
/// Fails loudly with `IncompleteReassembly` when an expected index is
/// missing, or when the recovered fragments cannot carry the length word
/// and the payload it names under the chosen policy — never a silently
/// corrupted payload.
pub fn recover_payload(mode: SplitModeEnum, pieces: &Vec<Vec<u8>>, count: usize) -> (r: Result<
    Vec<u8>,
    StegError,
>)
    ensures
        ({
            let frags = recovered_fragments(pieces.deep_view(), count as nat);
            let wire_len = recovered_length(mode, frags);
            match r {
                Ok(payload) => {
                    &&& reassembly_complete(pieces.deep_view(), count as nat)
                    &&& mode_join_req(mode, frags, 8)
                    &&& wire_len + 8 <= usize::MAX
                    &&& mode_join_req(mode, frags, wire_len + 8)
                    &&& payload@ == mode_joined(mode, frags, wire_len + 8).skip(8)
                },
                Err(e) => {
                    &&& e == StegError::IncompleteReassembly
                    &&& !({
                        &&& reassembly_complete(pieces.deep_view(), count as nat)
                        &&& mode_join_req(mode, frags, 8)
                        &&& wire_len + 8 <= usize::MAX
                        &&& mode_join_req(mode, frags, wire_len + 8)
                    })
                },
            }
        }),
{
    let ghost frags_spec = recovered_fragments(pieces.deep_view(), count as nat);
    let frags = match collect_fragments(pieces, count) {
        Ok(f) => f,
        Err(e) => {
            return Err(e);
        },
    };
    proof {
        assert(frags.deep_view() =~= frags_spec);
        assert forall|i: int|
            0 <= i < count implies !((#[trigger] place_pieces(
            empty_slots(count as nat),
            pieces.deep_view(),
        )[i]) is None) by {
            assert(place_pieces(empty_slots(count as nat), pieces.deep_view())[i] == Some(
                frags.deep_view()[i],
            ));
        }
    }

    if !joinable(mode, &frags, 8) {
        return Err(StegError::IncompleteReassembly);
    }
    let frag_slice = frags.as_slice();
    proof {
        assert(frag_slice.deep_view() =~= frags_spec);
    }
    let header = join_with_mode(mode, frag_slice, 8);
    proof {
        assert(header@.len() == 8) by {
            if mode is Scrambled {
            } else {
                assert(concat_frags(frags_spec).len() >= 8);
            }
        }
        assert(header@.take(8) =~= header@);
    }
    let wire_len = read_frame_index(&header);
    if wire_len > (usize::MAX - 8) as u64 {
        return Err(StegError::IncompleteReassembly);
    }
    let total = (wire_len as usize) + 8;
    if !joinable(mode, &frags, total) {
        return Err(StegError::IncompleteReassembly);
    }
    let mut stream = join_with_mode(mode, frag_slice, total);
    proof {
        assert(stream@.len() == total) by {
            if mode is Scrambled {
            } else {
                assert(concat_frags(frags_spec).len() >= total);
            }
        }
    }
    let payload = stream.split_off(8);
    proof {
        assert(payload@ =~= mode_joined(mode, frags_spec, total as int).skip(8));
    }
    Ok(payload)
}

/// The engine-level round trip: however the policy fragments a
/// length-prefixed stream, the fragments carry the length word and the
/// payload it names, and joining them back at the recovered length gives
/// the payload — for both policies, and independent of trailing zero bytes
/// of the payload itself.
pub proof fn lemma_engine_round_trip(mode: SplitModeEnum, data: Seq<u8>, caps: Seq<u64>)
    requires
        data.len() + 8 <= usize::MAX,
        mode_split_ok(mode, length_prefixed(data), caps),
    ensures
        ({
            let frags = mode_fragments(mode, length_prefixed(data), caps);
            &&& mode_join_req(mode, frags, 8)
            &&& recovered_length(mode, frags) == data.len()
            &&& mode_join_req(mode, frags, data.len() as int + 8)
            &&& mode_joined(mode, frags, data.len() as int + 8).skip(8) == data
        }),
{
    let stream = length_prefixed(data);
    let frags = mode_fragments(mode, stream, caps);
    let total = stream.len() as int;
    assert(total == data.len() + 8);
    if mode is Scrambled {
        crate::split::lemma_scrambled_round_trip(stream, caps);
        assert(<SplitScrambled as Split>::join_req(frags, 8));
        assert(unstride(frags, 8) =~= unstride(frags, total).take(8));
    } else {
        crate::split::lemma_chunked_round_trip(stream, caps);
        assert(<SplitChunks as Split>::join_req(frags, 8));
        assert(concat_frags(frags).take(8) =~= concat_frags(frags).take(total).take(8));
    }
    assert(mode_joined(mode, frags, total) == stream);
    assert(mode_joined(mode, frags, 8) =~= stream.take(8));
    assert(stream.take(8) =~= u64_be_bytes(data.len() as u64));
    crate::framing::lemma_u64_be_bytes_roundtrip(data.len() as u64);
    assert(recovered_length(mode, frags) == data.len());
    assert(stream.skip(8) =~= data);
}

} // verus!
