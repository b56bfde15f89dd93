use rvnc::rfb::auth::encrypt_challenge;
use rvnc::rfb::handshake::{advance, greet, judge_response, needed, Backoff, Refusal, Stage};

const CHALLENGE: [u8; 16] = [7; 16];

fn secret() -> Option<String> {
    Some("secret".to_string())
}

fn step(stage: &Stage, input: &[u8], password: &Option<String>) -> (Stage, Vec<u8>) {
    assert_eq!(input.len(), needed(stage));
    advance(stage, input, password, 640, 480, "desk")
}

/// Go as far as the client's answer to the challenge.
fn answered(version: &[u8], answer: &[u8; 16]) -> (Stage, Vec<u8>) {
    let (stage, hello) = greet();
    assert_eq!(hello, b"RFB 003.008\n");
    let (mut stage, mut reply) = step(&stage, version, &secret());
    if let Stage::Choice { .. } = stage {
        assert_eq!(reply, [1, 2]);
        (stage, reply) = step(&stage, &[2], &secret());
        assert_eq!(reply, []);
    } else {
        assert_eq!(reply, [0, 0, 0, 2]);
    }
    assert!(matches!(stage, Stage::Challenge { .. }));
    (stage, reply) = step(&stage, &CHALLENGE, &secret());
    assert_eq!(reply, CHALLENGE);
    step(&stage, answer, &secret())
}

#[test]
fn a_client_with_the_password_gets_in() {
    let right = encrypt_challenge("secret", &CHALLENGE);
    for version in [b"RFB 003.003\n", b"RFB 003.007\n", b"RFB 003.008\n"] {
        let (stage, reply) = answered(version, &right);
        assert!(matches!(stage, Stage::Init));
        assert_eq!(reply, [0, 0, 0, 0]);
        let (stage, init) = step(&stage, &[1], &secret());
        assert!(matches!(stage, Stage::Ready));
        assert_eq!(&init[..4], [2, 128, 1, 224]);
        assert_eq!(&init[20..], b"\x00\x00\x00\x04desk");
        assert_eq!(init[4..8], [32, 24, 0, 1]);
    }
}

#[test]
fn a_client_without_it_is_turned_away_and_told_why() {
    let wrong = encrypt_challenge("Secret", &CHALLENGE);
    let (stage, reply) = answered(b"RFB 003.008\n", &wrong);
    assert!(matches!(stage, Stage::Refused(Refusal::AuthenticationFailed)));
    assert_eq!(reply, b"\x00\x00\x00\x01\x00\x00\x00\x15authentication failed");

    // Older clients are told that it failed, but not why.
    let (stage, reply) = answered(b"RFB 003.007\n", &wrong);
    assert!(matches!(stage, Stage::Refused(Refusal::AuthenticationFailed)));
    assert_eq!(reply, [0, 0, 0, 1]);

    let (stage, reply) = step(&stage, &[], &secret());
    assert!(matches!(stage, Stage::Refused(Refusal::AuthenticationFailed)));
    assert_eq!(reply, []);
}

#[test]
fn no_password_means_no_challenge() {
    let none = None;
    let (stage, reply) = step(&Stage::Version, b"RFB 003.008\n", &none);
    assert_eq!(reply, [1, 1]);
    let (stage, reply) = step(&stage, &[1], &none);
    assert!(matches!(stage, Stage::Init));
    assert_eq!(reply, [0, 0, 0, 0]);

    // 3.7 sends no result without authentication, and 3.3 no list of types.
    let (stage, _) = step(&Stage::Version, b"RFB 003.007\n", &none);
    assert_eq!(step(&stage, &[1], &none).1, []);
    let (stage, reply) = step(&Stage::Version, b"RFB 003.003\n", &none);
    assert!(matches!(stage, Stage::Init));
    assert_eq!(reply, [0, 0, 0, 1]);
}

#[test]
fn a_password_cannot_be_stepped_around() {
    let (stage, _) = step(&Stage::Version, b"RFB 003.008\n", &secret());
    let (stage, reply) = step(&stage, &[1], &secret());
    assert!(matches!(stage, Stage::Refused(Refusal::WrongSecurityType)));
    assert_eq!(reply, b"\x00\x00\x00\x01\x00\x00\x00\x19unsupported security type");
}

#[test]
fn whoever_does_not_speak_rfb_is_turned_away() {
    let (stage, reply) = step(&Stage::Version, b"GET / HTTP/1", &secret());
    assert!(matches!(stage, Stage::Refused(Refusal::NotRfb)));
    assert_eq!(reply, []);
}

#[test]
fn an_unreadable_version_counts_as_the_newest() {
    let (stage, _) = step(&Stage::Version, b"RFB 003.x\xff9\n", &secret());
    assert!(matches!(stage, Stage::Choice { minor: 8 }));
    let (stage, _) = step(&Stage::Version, b"RFB 003.889\n", &secret());
    assert!(matches!(stage, Stage::Choice { minor: 8 }));
}

#[test]
fn wrong_answers_are_held_back_longer_and_longer() {
    let mut backoff = Backoff::new();
    let delays: Vec<u64> = (0..8).map(|_| backoff.failed()).collect();
    assert_eq!(delays, [250, 500, 1000, 2000, 4000, 8000, 8000, 8000]);
    backoff.succeeded();
    assert_eq!(backoff.failed(), 250);
}

#[test]
fn one_wrong_byte_is_enough() {
    let mut response = [3u8; 16];
    let (stage, reply) = judge_response(8, &response, &[3; 16]);
    assert!(matches!(stage, Stage::Init));
    assert_eq!(reply, [0, 0, 0, 0]);
    response[15] = 4;
    let (stage, _) = judge_response(8, &response, &[3; 16]);
    assert!(matches!(stage, Stage::Refused(Refusal::AuthenticationFailed)));
}
