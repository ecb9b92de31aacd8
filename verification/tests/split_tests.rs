use steglib::errors::StegError;
use steglib::split::{inflate_bins, Split, SplitChunks, SplitScrambled};

#[test]
fn test_split_full() {
    let data: Vec<u8> = vec![10, 20];
    let buckets_1: Vec<u64> = vec![3, 5];
    let buckets_2: Vec<u64> = vec![1, 5];
    let buckets_3: Vec<u64> = vec![1, 5, 1, 1, 1, 3];
    let buckets_4: Vec<u64> = vec![2];

    // Split the data, test for not modifying variables.
    assert_eq!(
        SplitChunks::split_to_bins(&data, &buckets_1).unwrap(),
        vec!(vec!(10, 20, 0), vec!(0, 0, 0, 0, 0))
    );
    assert_eq!(
        SplitChunks::split_to_bins(&data, &buckets_2).unwrap(),
        vec!(vec!(10), vec!(20, 0, 0, 0, 0))
    );
    assert_eq!(
        SplitChunks::split_to_bins(&data, &buckets_3).unwrap(),
        vec!(vec!(10), vec!(20, 0, 0, 0, 0), vec!(0), vec!(0), vec!(0), vec!(0, 0, 0))
    );
    assert_eq!(SplitChunks::split_to_bins(&data, &buckets_4).unwrap(), vec!(vec!(10, 20)));

    assert_eq!(data, vec!(10, 20));
}

#[test]
fn test_split_scrambled() {
    let data: Vec<u8> = vec![10, 20, 30, 40, 50];
    let buckets_1: Vec<u64> = vec![3, 5];
    let buckets_2: Vec<u64> = vec![3, 3, 3];
    let buckets_3: Vec<u64> = vec![5];

    // Split the data, test for not modifying variables.
    assert_eq!(
        SplitScrambled::split_to_bins(&data, &buckets_1).unwrap(),
        vec!(vec!(10, 30, 50), vec!(20, 40, 0, 0, 0))
    );
    assert_eq!(
        SplitScrambled::split_to_bins(&data, &buckets_2).unwrap(),
        vec!(vec!(10, 40, 0), vec!(20, 50, 0), vec!(30, 0, 0))
    );
    assert_eq!(
        SplitScrambled::split_to_bins(&data, &buckets_3).unwrap(),
        vec!(vec!(10, 20, 30, 40, 50))
    );

    assert_eq!(data, vec!(10, 20, 30, 40, 50));
}

#[test]
fn round_trip_chunked() {
    let data: Vec<u8> = vec![1, 2, 3, 4, 5, 6, 7, 8, 9, 0];
    let caps: Vec<u64> = vec![3, 4, 5];
    let bins = SplitChunks::split_to_bins(&data, &caps).unwrap();
    assert_eq!(SplitChunks::join_bins(&bins, data.len()), data);
}

#[test]
fn round_trip_chunked_trailing_zeros() {
    // Payload ends in zeros; the explicit true length keeps padding apart.
    let data: Vec<u8> = vec![7, 0, 0];
    let caps: Vec<u64> = vec![2, 6];
    let bins = SplitChunks::split_to_bins(&data, &caps).unwrap();
    assert_eq!(bins, vec![vec![7, 0], vec![0, 0, 0, 0, 0, 0]]);
    assert_eq!(SplitChunks::join_bins(&bins, data.len()), data);
}

#[test]
fn round_trip_chunked_empty_payload() {
    let data: Vec<u8> = vec![];
    let caps: Vec<u64> = vec![2, 3];
    let bins = SplitChunks::split_to_bins(&data, &caps).unwrap();
    assert_eq!(bins, vec![vec![0, 0], vec![0, 0, 0]]);
    assert_eq!(SplitChunks::join_bins(&bins, 0), data);
}

#[test]
fn round_trip_scrambled() {
    let data: Vec<u8> = vec![10, 20, 30, 40, 50];
    let caps: Vec<u64> = vec![3, 3, 3];
    let bins = SplitScrambled::split_to_bins(&data, &caps).unwrap();
    assert_eq!(SplitScrambled::join_bins(&bins, data.len()), data);
}

#[test]
fn round_trip_scrambled_exact_bound() {
    // min(C) * len(C) == len(P): the largest payload the policy accepts.
    let data: Vec<u8> = vec![1, 2, 3, 4, 5, 6];
    let caps: Vec<u64> = vec![2, 3, 2];
    let bins = SplitScrambled::split_to_bins(&data, &caps).unwrap();
    assert_eq!(bins, vec![vec![1, 4], vec![2, 5, 0], vec![3, 6]]);
    assert_eq!(SplitScrambled::join_bins(&bins, data.len()), data);
}

#[test]
fn capacity_rejection_chunked() {
    // 10 payload bytes over capacities totalling 7: refused, no fragments.
    let data: Vec<u8> = vec![0, 1, 2, 3, 4, 5, 6, 7, 8, 9];
    let caps: Vec<u64> = vec![3, 4];
    assert_eq!(
        SplitChunks::split_to_bins(&data, &caps).unwrap_err(),
        StegError::InsufficientCapacity
    );
}

#[test]
fn capacity_rejection_scrambled() {
    // min(C) * len(C) = 2 * 3 = 6 < 7: refused even though sum(C) = 13 >= 7.
    let data: Vec<u8> = vec![0, 1, 2, 3, 4, 5, 6];
    let caps: Vec<u64> = vec![2, 5, 6];
    assert_eq!(
        SplitScrambled::split_to_bins(&data, &caps).unwrap_err(),
        StegError::InsufficientCapacity
    );
}

#[test]
fn no_containers_scrambled() {
    let data: Vec<u8> = vec![1];
    let caps: Vec<u64> = vec![];
    assert_eq!(SplitScrambled::split_to_bins(&data, &caps).unwrap_err(), StegError::NoContainers);
}

#[test]
fn chunked_literal_example() {
    let data: Vec<u8> = vec![10, 20];
    let caps: Vec<u64> = vec![1, 5];
    let bins = SplitChunks::split_to_bins(&data, &caps).unwrap();
    assert_eq!(bins, vec![vec![10], vec![20, 0, 0, 0, 0]]);
    assert_eq!(SplitChunks::join_bins(&bins, 2), vec![10, 20]);
}

#[test]
fn inflate_to_capacity_is_idempotent() {
    let caps: Vec<u64> = vec![3, 2, 4];
    let mut bins: Vec<Vec<u8>> = vec![vec![1, 2], vec![9]];
    inflate_bins(&mut bins, &caps);
    assert_eq!(bins, vec![vec![1, 2, 0], vec![9, 0], vec![0, 0, 0, 0]]);
    let once = bins.clone();
    inflate_bins(&mut bins, &caps);
    assert_eq!(bins, once);
}
