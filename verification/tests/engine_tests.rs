use steglib::cli::SplitModeEnum;
use steglib::engine::{join_with_mode, prepare_framed_fragments, recover_payload, split_with_mode};
use steglib::errors::StegError;

#[test]
fn embed_then_extract_chunked() {
    let data: Vec<u8> = vec![1, 2, 3];
    let raw: Vec<u64> = vec![16, 16];
    let pieces = prepare_framed_fragments(SplitModeEnum::Full, &data, &raw).unwrap();
    // Usable capacities 8 and 8; the split stream is the 8-byte length word
    // (3) followed by the payload; each piece carries its index header.
    assert_eq!(pieces[0], vec![0, 0, 0, 0, 0, 0, 0, 0, 0, 0, 0, 0, 0, 0, 0, 3]);
    assert_eq!(pieces[1], vec![0, 0, 0, 0, 0, 0, 0, 1, 1, 2, 3, 0, 0, 0, 0, 0]);

    // Hand them back in reverse order: the framing restores the payload.
    let recovered: Vec<Vec<u8>> = vec![pieces[1].clone(), pieces[0].clone()];
    assert_eq!(recover_payload(SplitModeEnum::Full, &recovered, 2).unwrap(), data);
}

#[test]
fn embed_then_extract_scrambled() {
    let data: Vec<u8> = vec![10, 20, 30, 40, 50];
    let raw: Vec<u64> = vec![13, 13, 13];
    let pieces = prepare_framed_fragments(SplitModeEnum::Scrambled, &data, &raw).unwrap();
    let recovered: Vec<Vec<u8>> = vec![pieces[2].clone(), pieces[0].clone(), pieces[1].clone()];
    assert_eq!(recover_payload(SplitModeEnum::Scrambled, &recovered, 3).unwrap(), data);
}

#[test]
fn embed_then_extract_keeps_trailing_zeros() {
    // The encoded length word keeps payload zeros apart from padding.
    let data: Vec<u8> = vec![7, 0, 0];
    let raw: Vec<u64> = vec![28];
    let pieces = prepare_framed_fragments(SplitModeEnum::Full, &data, &raw).unwrap();
    assert_eq!(recover_payload(SplitModeEnum::Full, &pieces, 1).unwrap(), data);
}

#[test]
fn prepare_refuses_undersized_container() {
    let data: Vec<u8> = vec![1];
    let raw: Vec<u64> = vec![10, 5];
    assert_eq!(
        prepare_framed_fragments(SplitModeEnum::Full, &data, &raw).unwrap_err(),
        StegError::CapacityUnavailable
    );
}

#[test]
fn prepare_refuses_oversized_payload() {
    // Usable capacities 2 + 2 cannot hold the length word and 5 bytes.
    let data: Vec<u8> = vec![1, 2, 3, 4, 5];
    let raw: Vec<u64> = vec![10, 10];
    assert_eq!(
        prepare_framed_fragments(SplitModeEnum::Full, &data, &raw).unwrap_err(),
        StegError::InsufficientCapacity
    );
}

#[test]
fn recover_refuses_missing_fragment() {
    let data: Vec<u8> = vec![1, 2, 3];
    let raw: Vec<u64> = vec![16, 16];
    let pieces = prepare_framed_fragments(SplitModeEnum::Full, &data, &raw).unwrap();
    let partial: Vec<Vec<u8>> = vec![pieces[1].clone()];
    assert_eq!(
        recover_payload(SplitModeEnum::Full, &partial, 2).unwrap_err(),
        StegError::IncompleteReassembly
    );
}

#[test]
fn recover_refuses_truncated_fragments() {
    // One fragment of a single byte cannot even carry the length word.
    let pieces: Vec<Vec<u8>> = vec![vec![0, 0, 0, 0, 0, 0, 0, 0, 9]];
    assert_eq!(
        recover_payload(SplitModeEnum::Full, &pieces, 1).unwrap_err(),
        StegError::IncompleteReassembly
    );
}

#[test]
fn recover_refuses_lying_length_word() {
    // A stream whose length word names more bytes than the fragments hold.
    let mut piece: Vec<u8> = vec![0, 0, 0, 0, 0, 0, 0, 0];
    piece.extend_from_slice(&[0, 0, 0, 0, 0, 0, 0, 99, 1, 2]);
    assert_eq!(
        recover_payload(SplitModeEnum::Full, &vec![piece], 1).unwrap_err(),
        StegError::IncompleteReassembly
    );
}

#[test]
fn mode_dispatch_selects_policy() {
    let data: Vec<u8> = vec![10, 20];
    let caps: Vec<u64> = vec![1, 5];
    let chunked = split_with_mode(SplitModeEnum::Full, &data, &caps).unwrap();
    assert_eq!(chunked, vec![vec![10], vec![20, 0, 0, 0, 0]]);
    assert_eq!(join_with_mode(SplitModeEnum::Full, &chunked, 2), data);

    let caps_even: Vec<u64> = vec![1, 1];
    let scrambled = split_with_mode(SplitModeEnum::Scrambled, &data, &caps_even).unwrap();
    assert_eq!(scrambled, vec![vec![10], vec![20]]);
    assert_eq!(join_with_mode(SplitModeEnum::Scrambled, &scrambled, 2), data);
}
