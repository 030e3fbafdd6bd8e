use fuzzy_search::distance::calc_dist_bytes;

#[test]
fn distance_kitten_sitting_is_three() {
    assert_eq!(calc_dist_bytes(b"kitten", b"sitting"), 3);
}

#[test]
fn distance_to_self_is_zero() {
    assert_eq!(calc_dist_bytes(b"", b""), 0);
    assert_eq!(calc_dist_bytes(b"a", b"a"), 0);
    assert_eq!(calc_dist_bytes(b"Mario Rossi", b"Mario Rossi"), 0);
}

#[test]
fn distance_is_symmetric() {
    let pairs: [(&[u8], &[u8]); 4] = [
        (b"kitten", b"sitting"),
        (b"abc", b""),
        (b"Anna", b"Anne"),
        (b"flaw", b"lawn"),
    ];
    for (a, b) in pairs {
        assert_eq!(calc_dist_bytes(a, b), calc_dist_bytes(b, a));
    }
}

#[test]
fn distance_from_empty_is_length() {
    assert_eq!(calc_dist_bytes(b"", b"abcde"), 5);
    assert_eq!(calc_dist_bytes(b"abcde", b""), 5);
    assert_eq!(calc_dist_bytes(b"", b""), 0);
}

#[test]
fn distance_triangle_inequality() {
    let triples: [(&[u8], &[u8], &[u8]); 3] = [
        (b"kitten", b"sitting", b"fitting"),
        (b"abc", b"", b"xyz"),
        (b"Mario", b"Maria", b"Marta"),
    ];
    for (a, b, c) in triples {
        let ac = calc_dist_bytes(a, c);
        let ab = calc_dist_bytes(a, b);
        let bc = calc_dist_bytes(b, c);
        assert!(ac <= ab + bc);
    }
}

#[test]
fn distance_single_substitution() {
    assert_eq!(calc_dist_bytes(b"Anne", b"Anna"), 1);
}

#[test]
fn distance_is_byte_wise() {
    // Multi-byte text is compared byte by byte, so the two-byte
    // encoded characters below differ in one byte only.
    let a = "héllo".as_bytes();
    let b = "hèllo".as_bytes();
    assert_eq!(calc_dist_bytes(a, b), 1);
}
