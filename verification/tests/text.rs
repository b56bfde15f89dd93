use rvnc::bytes::{push_be16, push_be32, push_be64, read_be16, read_be32, read_be64};
use rvnc::log::{debug, info, set_verbose, warn, Log};
use rvnc::startup::{link_host, startup_lines};
use rvnc::text::{parse_number, push_decimal, split, split_word, trim};

fn chars(s: &str) -> Vec<char> {
    s.chars().collect()
}

fn text(s: &[char]) -> String {
    s.iter().collect()
}

#[test]
fn numbers_are_read_as_std_reads_them() {
    for s in ["0", "7", "007", "+8", "255", "256", "", "+", "-1", "1 ", "x", "99999999999", "\u{b2}"] {
        assert_eq!(parse_number(&chars(s), 255), s.parse::<u8>().ok().map(u32::from), "{s:?}");
        assert_eq!(parse_number(&chars(s), u32::MAX), s.parse::<u32>().ok(), "{s:?}");
    }
}

#[test]
fn what_is_written_in_decimal_reads_back() {
    for n in [0u64, 9, 10, 4_294_967_295, u64::MAX] {
        let mut s = "n=".to_string();
        push_decimal(&mut s, n);
        assert_eq!(s, format!("n={n}"));
    }
}

#[test]
fn white_space_is_what_std_takes_it_for() {
    for s in ["  a b ", "\u{a0}x\u{3000}", "\t\r\n", "", "\u{85}\u{2028}y\u{1680}", "\u{200b}z"] {
        assert_eq!(text(trim(&chars(s))), s.trim(), "{s:?}");
    }
    let all: Vec<char> = (0..0x1_0000u32).filter_map(char::from_u32).collect();
    for c in all {
        assert_eq!(trim(&[c]).is_empty(), c.is_whitespace(), "{c:?}");
    }
}

#[test]
fn words_and_pieces_are_told_apart() {
    let s = chars("  GET \u{2003}/a b");
    let (word, rest) = split_word(&s);
    assert_eq!(text(word), "GET");
    let (word, rest) = split_word(rest);
    assert_eq!(text(word), "/a");
    assert_eq!(text(split_word(rest).0), "b");
    let pieces: Vec<String> = split(&chars("a,,b,"), ',').iter().map(|p| text(p)).collect();
    assert_eq!(pieces, ["a", "", "b", ""]);
}

#[test]
fn integers_go_to_bytes_and_back() {
    let mut b = Vec::new();
    push_be16(&mut b, 0x0102);
    push_be32(&mut b, 0x0304_0506);
    push_be64(&mut b, 0x0708_090a_0b0c_0d0e);
    assert_eq!(b, (1..15).collect::<Vec<u8>>());
    assert_eq!(read_be16(&b, 0), 0x0102);
    assert_eq!(read_be32(&b, 2), 0x0304_0506);
    assert_eq!(read_be64(&b, 6), 0x0708_090a_0b0c_0d0e);
}

#[test]
fn the_log_has_three_levels() {
    let mut log = Log { verbose: false };
    assert_eq!(info("up"), "rvnc: up");
    assert_eq!(warn("odd"), "rvnc: warning: odd");
    assert_eq!(debug(&log, "more"), None);
    set_verbose(&mut log, true);
    assert_eq!(debug(&log, "more").as_deref(), Some("rvnc: more"));
}

#[test]
fn the_startup_lines_lead_to_the_desktop() {
    let host = link_host(true, "0.0.0.0");
    let password = Some("Kf3xpQ7m".to_string());
    assert_eq!(
        startup_lines(":1", 1440, 900, &host, 6080, &password, false),
        [
            "rvnc: serving X display :1 (1440x900)",
            "rvnc: open http://localhost:6080/?password=Kf3xpQ7m",
            "rvnc:   or http://localhost:6080/ and enter: Kf3xpQ7m",
        ]
    );
    let host = link_host(false, "10.0.0.5");
    assert_eq!(
        startup_lines(":0", 64, 48, &host, 80, &None, true),
        [
            "rvnc: serving X display :0 (64x48)",
            "rvnc: open http://10.0.0.5:80/",
            "rvnc: warning: no password: anyone who can reach this port has the desktop",
            "rvnc: view-only: client input is ignored",
        ]
    );
}
