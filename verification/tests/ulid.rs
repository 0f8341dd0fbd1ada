use harness_proxy::ulid::{new_ulid, ulid_from_parts};
use std::collections::HashSet;

#[test]
fn ulid_is_26_chars_of_crockford_base32() {
    let id = new_ulid();
    assert_eq!(id.len(), 26);
    assert!(
        id.chars().all(|c| b"0123456789ABCDEFGHJKMNPQRSTVWXYZ".contains(&(c as u8))),
        "ULID contained invalid character: {}",
        id
    );
}

#[test]
fn ulids_are_unique_across_rapid_calls() {
    let ids: HashSet<String> = (0..200).map(|_| new_ulid()).collect();
    assert_eq!(ids.len(), 200, "ULID collision within 200 rapid calls");
}

#[test]
fn ulids_are_lexicographically_monotone_with_time() {
    let a = new_ulid();
    let b = new_ulid();
    assert_eq!(a.len(), 26);
    assert_eq!(b.len(), 26);
    assert!(a[..10] <= b[..10], "timestamp component regressed: {} > {}", &a[..10], &b[..10]);
}

#[test]
fn ulid_of_zero_is_all_zero_digits() {
    assert_eq!(ulid_from_parts(0, [0u8; 10]), "00000000000000000000000000");
}

#[test]
fn ulid_prefix_is_the_timestamp() {
    assert_eq!(ulid_from_parts(1, [0u8; 10]), "00000000010000000000000000");
    assert_eq!(ulid_from_parts(32, [0u8; 10]), "00000000100000000000000000");
    assert_eq!(ulid_from_parts(1, [0xFFu8; 10]), "0000000001ZZZZZZZZZZZZZZZZ");
    let id = ulid_from_parts(1_700_000_000_000, [7u8; 10]);
    assert_eq!(&id[..10], &ulid_from_parts(1_700_000_000_000, [200u8; 10])[..10]);
}

#[test]
fn ulid_known_value() {
    // 0x0123456789 ms and random bytes 0..10, written in base 32.
    let id = ulid_from_parts(0x01_2345_6789, [0, 1, 2, 3, 4, 5, 6, 7, 8, 9]);
    assert_eq!(id, "0004HMASW9000G40R40M30E209");
}

#[test]
fn later_timestamp_sorts_after() {
    let a = ulid_from_parts(1_000, [0xFFu8; 10]);
    let b = ulid_from_parts(1_001, [0u8; 10]);
    assert!(a < b);
    assert!(a[..10] < b[..10]);
}

#[test]
fn different_random_parts_differ() {
    let a = ulid_from_parts(5, [1u8; 10]);
    let mut r = [1u8; 10];
    r[9] = 2;
    let b = ulid_from_parts(5, r);
    assert_ne!(a, b);
}

#[test]
fn later_millisecond_sorts_after_whatever_the_random_bytes() {
    let earlier = ulid_from_parts(1_700_000_000_000, [0xff; 10]);
    let later = ulid_from_parts(1_700_000_000_001, [0; 10]);
    assert!(earlier < later);
}
