use rvnc::spawn::{display_lock, display_name, display_socket, free_display_number};
use rvnc::spawn::{server_args, Supervisor};
use std::path::Path;

#[test]
fn display_numbers_skip_existing_sockets() {
    // Whatever it returns must be genuinely unused.
    let taken: Vec<u32> =
        (1..100).filter(|&n| Path::new(&display_socket(n)).exists()).collect();
    if let Some(n) = free_display_number(&taken) {
        assert!(!Path::new(&display_socket(n)).exists());
    }
}

#[test]
fn stop_is_idempotent() {
    let mut sup = Supervisor::new();
    sup.stop();
    sup.stop();
}

#[test]
fn displays_have_their_paths_and_names() {
    assert_eq!(display_socket(7), "/tmp/.X11-unix/X7");
    assert_eq!(display_lock(12), "/tmp/.X12-lock");
    assert_eq!(display_name(0), ":0");
}

#[test]
fn the_first_free_number_is_taken() {
    assert_eq!(free_display_number(&[]), Some(1));
    assert_eq!(free_display_number(&[3, 1, 2, 5]), Some(4));
    let all: Vec<u32> = (1..100).collect();
    assert_eq!(free_display_number(&all), None);
}

#[test]
fn an_x_server_is_told_its_screen() {
    assert_eq!(
        server_args(7, 1920, 1200, 24),
        [":7", "-screen", "0", "1920x1200x24", "-nolisten", "tcp", "-noreset"]
    );
}

#[test]
fn the_session_goes_before_the_server_under_it() {
    let mut sup = Supervisor::new();
    assert_eq!(sup.session(), None);
    sup.adopt(10);
    sup.adopt(11);
    assert_eq!(sup.session(), Some(11));
    let t = sup.stop();
    assert_eq!((t.kill, t.wait), (vec![11, 10], vec![10, 11]));
    let again = sup.stop();
    assert!(again.kill.is_empty() && again.wait.is_empty());
}
