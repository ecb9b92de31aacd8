//! Order-recovery framing: each fragment is prefixed with an 8-byte
//! big-endian container index before it is handed to the embed primitive, and
//! reassembly places each recovered fragment into the slot named by that
//! index, independent of the order the fragments arrive in.

use vstd::prelude::*;

use crate::errors::StegError;
use crate::lemma_bytes_deep_view;

verus! {

/// The eight big-endian bytes of `x`, most significant first.
pub open spec fn u64_be_bytes(x: u64) -> Seq<u8> {
    seq![
        (x >> 56) as u8,
        (x >> 48) as u8,
        (x >> 40) as u8,
        (x >> 32) as u8,
        (x >> 24) as u8,
        (x >> 16) as u8,
        (x >> 8) as u8,
        x as u8,
    ]
}

/// The value whose big-endian bytes are `s`, most significant first.
pub open spec fn u64_from_be_bytes(s: Seq<u8>) -> u64
    recommends
        s.len() == 8,
{
    (((s[0] as u64) << 56) | ((s[1] as u64) << 48) | ((s[2] as u64) << 40) | ((s[3] as u64) << 32)
        | ((s[4] as u64) << 24) | ((s[5] as u64) << 16) | ((s[6] as u64) << 8) | (s[7] as u64))
}

/// Decoding the big-endian bytes of `x` gives back `x`.
pub proof fn lemma_u64_be_bytes_roundtrip(x: u64)
    ensures
        u64_from_be_bytes(u64_be_bytes(x)) == x,
{
    assert((((x >> 56) as u8 as u64) << 56) | (((x >> 48) as u8 as u64) << 48) | (((x
        >> 40) as u8 as u64) << 40) | (((x >> 32) as u8 as u64) << 32) | (((x
        >> 24) as u8 as u64) << 24) | (((x >> 16) as u8 as u64) << 16) | (((x
        >> 8) as u8 as u64) << 8) | (x as u8 as u64) == x) by (bit_vector);
}

/// A fragment as handed to the embed primitive: the container index as eight
/// big-endian bytes, then the fragment's bytes.
pub open spec fn framed(frag: Seq<u8>, index: u64) -> Seq<u8> {
    u64_be_bytes(index) + frag
}

/// Prepend the 8-byte big-endian container index to a fragment.
pub fn frame_fragment(frag: &Vec<u8>, index: u64) -> (r: Vec<u8>)
    ensures
        r@ == framed(frag@, index),
{
    let mut r: Vec<u8> = Vec::new();
    r.push((index >> 56) as u8);
    r.push((index >> 48) as u8);
    r.push((index >> 40) as u8);
    r.push((index >> 32) as u8);
    r.push((index >> 24) as u8);
    r.push((index >> 16) as u8);
    r.push((index >> 8) as u8);
    r.push(index as u8);
    assert(r@ =~= u64_be_bytes(index));
    let mut i: usize = 0;
    while i < frag.len()
        invariant
            i <= frag@.len(),
            r@ == u64_be_bytes(index) + frag@.take(i as int),
        decreases frag@.len() - i,
    {
        r.push(frag[i]);
        assert(r@ =~= u64_be_bytes(index) + frag@.take(i + 1 as int));
        i = i + 1;
    }
    assert(frag@.take(frag@.len() as int) =~= frag@);
    r
}

/// Read the container index from the first eight bytes of a framed fragment.
pub fn read_frame_index(piece: &Vec<u8>) -> (r: u64)
    requires
        piece@.len() >= 8,
    ensures
        r == u64_from_be_bytes(piece@.take(8)),
{
    let r = ((piece[0] as u64) << 56) | ((piece[1] as u64) << 48) | ((piece[2] as u64) << 40) | ((
    piece[3] as u64) << 32) | ((piece[4] as u64) << 24) | ((piece[5] as u64) << 16) | ((
    piece[6] as u64) << 8) | (piece[7] as u64);
    assert(forall|k: int| 0 <= k < 8 ==> piece@.take(8)[k] == piece@[k]);
    r
}

/// `count` empty reassembly slots, one per expected container index.
pub open spec fn empty_slots(count: nat) -> Seq<Option<Seq<u8>>> {
    Seq::new(count, |i: int| None)
}

/// Place one recovered piece into the slot its header names. A piece too
/// short to hold the header, or naming a slot that does not exist, is
/// skipped.
pub open spec fn place_piece(slots: Seq<Option<Seq<u8>>>, piece: Seq<u8>) -> Seq<Option<Seq<u8>>> {
    if piece.len() < 8 {
        slots
    } else {
        let index = u64_from_be_bytes(piece.take(8));
        if index < slots.len() {
            slots.update(index as int, Some(piece.skip(8)))
        } else {
            slots
        }
    }
}

/// Place every recovered piece, in arrival order, into the slot its header
/// names.
pub open spec fn place_pieces(slots: Seq<Option<Seq<u8>>>, pieces: Seq<Seq<u8>>) -> Seq<
    Option<Seq<u8>>,
>
    decreases pieces.len(),
{
    if pieces.len() == 0 {
        slots
    } else {
        place_pieces(place_piece(slots, pieces[0]), pieces.skip(1))
    }
}

/// Placing pieces one after another is placing all but the last, then the
/// last.
pub proof fn lemma_place_pieces_push(
    slots: Seq<Option<Seq<u8>>>,
    pieces: Seq<Seq<u8>>,
    piece: Seq<u8>,
)
    ensures
        place_pieces(slots, pieces.push(piece)) == place_piece(place_pieces(slots, pieces), piece),
    decreases pieces.len(),
{
    let extended = pieces.push(piece);
    if pieces.len() == 0 {
        assert(extended[0] == piece);
        assert(extended.skip(1) =~= Seq::<Seq<u8>>::empty());
        assert(place_pieces(slots, extended) == place_pieces(place_piece(slots, piece), extended.skip(1)));
        assert(place_pieces(place_piece(slots, piece), extended.skip(1)) == place_piece(slots, piece));
        assert(place_pieces(slots, pieces) == slots);
    } else {
        assert(extended[0] == pieces[0]);
        assert(extended.skip(1) =~= pieces.skip(1).push(piece));
        lemma_place_pieces_push(place_piece(slots, pieces[0]), pieces.skip(1), piece);
        assert(place_pieces(slots, extended) == place_pieces(place_piece(slots, pieces[0]), extended.skip(1)));
    }
}

/// Placing pieces never changes the number of slots.
pub proof fn lemma_place_pieces_len(slots: Seq<Option<Seq<u8>>>, pieces: Seq<Seq<u8>>)
    ensures
        place_pieces(slots, pieces).len() == slots.len(),
    decreases pieces.len(),
{
    if pieces.len() > 0 {
        lemma_place_pieces_len(place_piece(slots, pieces[0]), pieces.skip(1));
    }
}

/// Placing framed pieces whose indices are distinct fills exactly the slots
/// those indices name, each with its own fragment, and leaves every other
/// slot alone.
proof fn lemma_place_framed_pieces(
    slots: Seq<Option<Seq<u8>>>,
    frags: Seq<Seq<u8>>,
    pieces: Seq<Seq<u8>>,
    perm: Seq<int>,
)
    requires
        frags.len() == slots.len(),
        slots.len() <= u64::MAX,
        perm.len() == pieces.len(),
        forall|j: int| 0 <= j < perm.len() ==> 0 <= #[trigger] perm[j] < slots.len(),
        forall|j1: int, j2: int| 0 <= j1 < j2 < perm.len() ==> perm[j1] != perm[j2],
        forall|j: int|
            0 <= j < pieces.len() ==> #[trigger] pieces[j] == framed(
                frags[perm[j]],
                perm[j] as u64,
            ),
    ensures
        forall|i: int|
            0 <= i < slots.len() ==> #[trigger] place_pieces(slots, pieces)[i] == (if perm.contains(
                i,
            ) {
                Some(frags[i])
            } else {
                slots[i]
            }),
    decreases pieces.len(),
{
    lemma_place_pieces_len(slots, pieces);
    if pieces.len() == 0 {
        assert forall|i: int| !perm.contains(i) by {
            if perm.contains(i) {
                let j = choose|j: int| 0 <= j < perm.len() && perm[j] == i;
                assert(false);
            }
        }
    } else {
        let idx = perm[0];
        let piece = pieces[0];
        assert(piece == framed(frags[idx], idx as u64));
        assert(piece.len() == 8 + frags[idx].len());
        assert(piece.take(8) =~= u64_be_bytes(idx as u64));
        lemma_u64_be_bytes_roundtrip(idx as u64);
        assert(u64_from_be_bytes(piece.take(8)) == idx as u64);
        assert(piece.skip(8) =~= frags[idx]);
        let placed = slots.update(idx, Some(frags[idx]));
        assert(place_piece(slots, piece) == placed);
        assert(forall|j: int|
            0 <= j < perm.skip(1).len() ==> #[trigger] perm.skip(1)[j] == perm[j + 1]);
        assert(forall|j: int|
            0 <= j < pieces.skip(1).len() ==> #[trigger] pieces.skip(1)[j] == pieces[j + 1]);
        lemma_place_framed_pieces(placed, frags, pieces.skip(1), perm.skip(1));
        assert forall|i: int| 0 <= i < slots.len() implies #[trigger] place_pieces(slots, pieces)[i]
            == (if perm.contains(i) {
            Some(frags[i])
        } else {
            slots[i]
        }) by {
            assert(place_pieces(slots, pieces) == place_pieces(placed, pieces.skip(1)));
            if perm.skip(1).contains(i) {
                let j = choose|j: int| 0 <= j < perm.skip(1).len() && perm.skip(1)[j] == i;
                assert(perm[j + 1] == i);
                assert(perm.contains(i));
            } else if i == idx {
                assert(place_pieces(placed, pieces.skip(1))[i] == placed[i]);
                assert(perm.contains(idx));
            } else {
                assert(place_pieces(placed, pieces.skip(1))[i] == placed[i]);
                assert(placed[i] == slots[i]);
                if perm.contains(i) {
                    let j = choose|j: int| 0 <= j < perm.len() && perm[j] == i;
                    assert(j != 0);
                    assert(perm.skip(1)[j - 1] == i);
                    assert(perm.skip(1).contains(i));
                    assert(false);
                }
            }
        }
    }
}

/// Reassembly is order-independent: however the framed fragments of one
/// split are shuffled, placing them by their header indices fills slot `i`
/// with fragment `i`, for every `i`.
///
/// `pieces` is any rearrangement of the framed fragments of `frags`: `perm`
/// says which fragment each piece carries, covering each index at most once
/// and every index at least once by count.
pub proof fn lemma_reassembly_order_independent(
    frags: Seq<Seq<u8>>,
    pieces: Seq<Seq<u8>>,
    perm: Seq<int>,
)
    requires
        frags.len() <= u64::MAX,
        perm.len() == pieces.len(),
        pieces.len() == frags.len(),
        forall|j: int| 0 <= j < perm.len() ==> 0 <= #[trigger] perm[j] < frags.len(),
        forall|j1: int, j2: int| 0 <= j1 < j2 < perm.len() ==> perm[j1] != perm[j2],
        forall|j: int|
            0 <= j < pieces.len() ==> #[trigger] pieces[j] == framed(
                frags[perm[j]],
                perm[j] as u64,
            ),
    ensures
        forall|i: int|
            0 <= i < frags.len() ==> #[trigger] place_pieces(
                empty_slots(frags.len()),
                pieces,
            )[i] == Some(frags[i]),
{
    let n = frags.len() as int;
    let slots = empty_slots(frags.len());
    lemma_place_framed_pieces(slots, frags, pieces, perm);
    assert(perm.no_duplicates());
    perm.unique_seq_to_set();
    vstd::set_lib::lemma_int_range(0, n);
    assert(perm.to_set().subset_of(vstd::set_lib::set_int_range(0, n))) by {
        assert forall|i: int| perm.to_set().contains(i) implies vstd::set_lib::set_int_range(
            0,
            n,
        ).contains(i) by {
            let j = choose|j: int| 0 <= j < perm.len() && perm[j] == i;
        }
    }
    vstd::set_lib::lemma_subset_equality(
        perm.to_set(),
        vstd::set_lib::set_int_range(0, n),
    );
    assert forall|i: int| 0 <= i < n implies #[trigger] place_pieces(slots, pieces)[i] == Some(
        frags[i],
    ) by {
        assert(vstd::set_lib::set_int_range(0, n).contains(i));
        assert(perm.to_set().contains(i));
        assert(perm.contains(i));
    }
}

/// Strip the framing from every recovered piece and order the fragments by
/// their header indices.
///
/// Succeeds with the fragments in index order exactly when every one of the
/// `count` expected indices was recovered; a gap yields
/// `IncompleteReassembly`. When several pieces name the same slot, the last
/// one placed stays.
pub fn collect_fragments(pieces: &Vec<Vec<u8>>, count: usize) -> (r: Result<
    Vec<Vec<u8>>,
    StegError,
>)
    ensures
        ({
            let slots = place_pieces(empty_slots(count as nat), pieces.deep_view());
            match r {
                Ok(frags) => frags.deep_view().len() == count && (forall|i: int|
                    0 <= i < count ==> slots[i] == Some(#[trigger] frags.deep_view()[i])),
                Err(e) => e == StegError::IncompleteReassembly && (exists|i: int|
                    0 <= i < count && #[trigger] slots[i] is None),
            }
        }),
{
    let ghost all_pieces = pieces.deep_view();
    let mut slots: Vec<Option<Vec<u8>>> = Vec::new();
    while slots.len() < count
        invariant
            slots@.len() <= count,
            forall|i: int| 0 <= i < slots@.len() ==> slots@[i] is None,
        decreases count - slots@.len(),
    {
        slots.push(None);
    }
    assert(slots.deep_view() =~= empty_slots(count as nat));

    let mut j: usize = 0;
    while j < pieces.len()
        invariant
            j <= pieces@.len(),
            all_pieces == pieces.deep_view(),
            slots@.len() == count,
            slots.deep_view() == place_pieces(empty_slots(count as nat), all_pieces.take(j as int)),
        decreases pieces@.len() - j,
    {
        let ghost slots_before = slots.deep_view();
        let piece = &pieces[j];
        proof {
            lemma_bytes_deep_view(pieces@[j as int]);
            assert(all_pieces[j as int] == piece@);
        }
        if piece.len() >= 8 {
            let index = read_frame_index(piece);
            if index < count as u64 {
                let mut content: Vec<u8> = Vec::new();
                let mut k: usize = 8;
                while k < piece.len()
                    invariant
                        8 <= k <= piece@.len(),
                        content@ == piece@.subrange(8, k as int),
                    decreases piece@.len() - k,
                {
                    content.push(piece[k]);
                    assert(content@ =~= piece@.subrange(8, k + 1 as int));
                    k = k + 1;
                }
                assert(content@ =~= piece@.skip(8));
                slots[index as usize] = Some(content);
                proof {
                    lemma_bytes_deep_view(content);
                    assert(slots.deep_view() =~= slots_before.update(
                        index as int,
                        Some(piece@.skip(8)),
                    ));
                }
            } else {
                assert(slots.deep_view() =~= slots_before);
            }
        } else {
            assert(slots.deep_view() =~= slots_before);
        }
        assert(slots.deep_view() == place_piece(slots_before, all_pieces[j as int]));
        proof {
            lemma_place_pieces_push(
                empty_slots(count as nat),
                all_pieces.take(j as int),
                all_pieces[j as int],
            );
            assert(all_pieces.take(j as int).push(all_pieces[j as int]) =~= all_pieces.take(
                j + 1 as int,
            ));
        }
        j = j + 1;
    }
    assert(all_pieces.take(all_pieces.len() as int) =~= all_pieces);

    let ghost final_slots = place_pieces(empty_slots(count as nat), all_pieces);
    let mut frags: Vec<Vec<u8>> = Vec::new();
    let mut i: usize = 0;
    while i < count
        invariant
            i <= count,
            slots@.len() == count,
            final_slots == place_pieces(empty_slots(count as nat), pieces.deep_view()),
            slots.deep_view() == final_slots,
            frags.deep_view().len() == i,
            forall|m: int| 0 <= m < i ==> final_slots[m] == Some(#[trigger] frags.deep_view()[m]),
        decreases count - i,
    {
        let ghost frags_before = frags.deep_view();
        match &slots[i] {
            Some(content) => {
                let c = vstd::slice::slice_to_vec(content.as_slice());
                proof {
                    lemma_bytes_deep_view(c);
                    lemma_bytes_deep_view(*content);
                    assert(slots.deep_view()[i as int] == Some(c.deep_view()));
                }
                frags.push(c);
                assert(frags.deep_view() =~= frags_before.push(c.deep_view()));
            },
            None => {
                assert(slots.deep_view()[i as int] is None);
                assert(place_pieces(empty_slots(count as nat), pieces.deep_view())[i as int]
                    is None);
                return Err(StegError::IncompleteReassembly);
            },
        }
        i = i + 1;
    }
    Ok(frags)
}

} // verus!
