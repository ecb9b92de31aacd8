use steglib::errors::StegError;
use steglib::framing::{collect_fragments, frame_fragment, read_frame_index};
use steglib::split::{Split, SplitScrambled};

#[test]
fn frame_prepends_big_endian_index() {
    let frag: Vec<u8> = vec![1, 2, 3];
    let piece = frame_fragment(&frag, 0x0102030405060708);
    assert_eq!(piece, vec![1, 2, 3, 4, 5, 6, 7, 8, 1, 2, 3]);
    assert_eq!(read_frame_index(&piece), 0x0102030405060708);
}

#[test]
fn frame_index_round_trip() {
    let frag: Vec<u8> = vec![];
    for index in [0u64, 1, 255, 256, u64::MAX] {
        let piece = frame_fragment(&frag, index);
        assert_eq!(piece.len(), 8);
        assert_eq!(read_frame_index(&piece), index);
    }
}

#[test]
fn order_independence_of_reassembly() {
    // The scrambled fragments of [10,20,30,40,50] over [3,3,3], shuffled
    // before reassembly: the framing indices alone restore the payload.
    let data: Vec<u8> = vec![10, 20, 30, 40, 50];
    let caps: Vec<u64> = vec![3, 3, 3];
    let bins = SplitScrambled::split_to_bins(&data, &caps).unwrap();
    assert_eq!(bins, vec![vec![10, 40, 0], vec![20, 50, 0], vec![30, 0, 0]]);

    let framed: Vec<Vec<u8>> = bins.iter().enumerate().map(|(i, b)| frame_fragment(b, i as u64)).collect();
    let shuffled: Vec<Vec<u8>> = vec![framed[2].clone(), framed[0].clone(), framed[1].clone()];
    let frags = collect_fragments(&shuffled, 3).unwrap();
    assert_eq!(frags, bins);
    assert_eq!(SplitScrambled::join_bins(&frags, data.len()), data);
}

#[test]
fn missing_index_is_incomplete() {
    let pieces: Vec<Vec<u8>> = vec![
        frame_fragment(&vec![1, 2], 0),
        frame_fragment(&vec![3, 4], 2),
    ];
    assert_eq!(collect_fragments(&pieces, 3).unwrap_err(), StegError::IncompleteReassembly);
}

#[test]
fn short_pieces_are_skipped() {
    // A piece without a full header carries no index: it is ignored, and
    // the slot it might have filled stays empty.
    let pieces: Vec<Vec<u8>> = vec![vec![0, 0, 0], frame_fragment(&vec![5], 0)];
    assert_eq!(collect_fragments(&pieces, 1).unwrap(), vec![vec![5]]);
    let only_short: Vec<Vec<u8>> = vec![vec![0, 0, 0]];
    assert_eq!(collect_fragments(&only_short, 1).unwrap_err(), StegError::IncompleteReassembly);
}

#[test]
fn out_of_range_index_is_skipped() {
    let pieces: Vec<Vec<u8>> = vec![frame_fragment(&vec![9], 7), frame_fragment(&vec![5], 0)];
    assert_eq!(collect_fragments(&pieces, 1).unwrap(), vec![vec![5]]);
}

#[test]
fn empty_fragment_fills_its_slot() {
    // A piece of exactly the 8 header bytes carries an empty fragment.
    let pieces: Vec<Vec<u8>> = vec![frame_fragment(&vec![], 0)];
    assert_eq!(collect_fragments(&pieces, 1).unwrap(), vec![Vec::<u8>::new()]);
}
