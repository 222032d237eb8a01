use ngram_gen::span::{EncodingOverflow, Offset, MAX_START, MAX_TOKEN_LEN};

#[test]
fn round_trip_small() {
    let o = Offset::encode(5, 3).unwrap();
    assert_eq!(o.decode(), (5, 3));
    assert_eq!(o.ptr(), 5);
    assert_eq!(o.len(), 3);
}

#[test]
fn round_trip_bounds() {
    let o = Offset::encode(MAX_START, MAX_TOKEN_LEN).unwrap();
    assert_eq!(o.decode(), (MAX_START, MAX_TOKEN_LEN));
    let o = Offset::encode(0, 1).unwrap();
    assert_eq!(o.decode(), (0, 1));
    let o = Offset::encode(MAX_START, 0).unwrap();
    assert_eq!(o.decode(), (MAX_START, 0));
}

#[test]
fn overflow_length_is_rejected() {
    assert_eq!(Offset::encode(0, MAX_TOKEN_LEN + 1), Err(EncodingOverflow));
    assert_eq!(Offset::encode(10, 1000), Err(EncodingOverflow));
}

#[test]
fn overflow_start_is_rejected() {
    assert_eq!(Offset::encode(MAX_START + 1, 1), Err(EncodingOverflow));
    assert_eq!(Offset::encode(usize::MAX, 1), Err(EncodingOverflow));
}

#[test]
fn sentinel_is_zero_length() {
    let s = Offset::sentinel();
    assert!(s.is_sentinel());
    assert_eq!(s.len(), 0);
    assert_eq!(s.ptr(), 0);
    let o = Offset::encode(7, 2).unwrap();
    assert!(!o.is_sentinel());
}
