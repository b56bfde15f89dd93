use rvnc::rfb::auth::{constant_time_eq, encrypt_challenge};

/// Vectors generated with noVNC's own DES implementation, so a mismatch here
/// means real clients would fail to authenticate.
const CHALLENGE: [u8; 16] = [
    3, 20, 37, 54, 71, 88, 105, 122, 139, 156, 173, 190, 207, 224, 241, 2,
];

#[test]
fn matches_novnc_for_a_short_password() {
    assert_eq!(
        encrypt_challenge("test", &CHALLENGE),
        [60, 203, 75, 9, 225, 251, 179, 159, 199, 30, 6, 123, 208, 115, 70, 148]
    );
}

#[test]
fn matches_novnc_on_an_all_zero_challenge() {
    let out = encrypt_challenge("test", &[0u8; 16]);
    assert_eq!(out[..8], [119, 223, 168, 28, 159, 215, 180, 7]);
    // ECB: identical plaintext blocks encrypt identically.
    assert_eq!(out[..8], out[8..]);
}

#[test]
fn password_is_truncated_to_eight_bytes() {
    let expected = [84, 12, 169, 124, 69, 230, 73, 113, 32, 242, 22, 101, 226, 27, 25, 207];
    assert_eq!(encrypt_challenge("12345678", &CHALLENGE), expected);
    assert_eq!(encrypt_challenge("123456789abc", &CHALLENGE), expected);
}

#[test]
fn eq_is_length_sensitive() {
    assert!(constant_time_eq(b"abc", b"abc"));
    assert!(!constant_time_eq(b"abc", b"abd"));
    assert!(!constant_time_eq(b"abc", b"ab"));
}

#[test]
fn blocks_do_not_affect_each_other() {
    let mut other = CHALLENGE;
    other[15] ^= 1;
    let (a, b) = (encrypt_challenge("test", &CHALLENGE), encrypt_challenge("test", &other));
    assert_eq!(a[..8], b[..8]);
    assert_ne!(a[8..], b[8..]);
    // The limit is eight bytes, wherever a character ends.
    let long = encrypt_challenge("1234567\u{e9}", &CHALLENGE);
    assert_eq!(long, encrypt_challenge("1234567\u{e8}", &CHALLENGE));
}
