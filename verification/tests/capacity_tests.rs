use steglib::capacity::{usable_capacities, MulCapacity, MulFullCapacity, MulScrambledCapacity};
use steglib::errors::StegError;

#[test]
fn scrambled_capacity_is_min_times_count() {
    let raw: Vec<u64> = vec![100, 50, 80];
    assert_eq!(MulScrambledCapacity::capacity(&raw), (50 - 8) * 3);
}

#[test]
fn full_capacity_is_sum_of_usable() {
    let raw: Vec<u64> = vec![100, 50, 80];
    assert_eq!(MulFullCapacity::capacity(&raw), (100 - 8) + (50 - 8) + (80 - 8));
}

#[test]
fn capacity_of_no_containers_is_zero() {
    let raw: Vec<u64> = vec![];
    assert_eq!(MulScrambledCapacity::capacity(&raw), 0);
    assert_eq!(MulFullCapacity::capacity(&raw), 0);
}

#[test]
fn usable_capacities_reserve_header() {
    let raw: Vec<u64> = vec![10, 9, 8];
    assert_eq!(usable_capacities(&raw).unwrap(), vec![2, 1, 0]);
}

#[test]
fn capacity_below_header_is_unavailable() {
    let raw: Vec<u64> = vec![10, 7];
    assert_eq!(usable_capacities(&raw).unwrap_err(), StegError::CapacityUnavailable);
}
