use rvnc::args::{bind_addr, choose_display, parse_args, parse_geometry, random_password};
use rvnc::args::{resolve_password, ArgError, Args, DisplayChoice, Parsed, PasswordChoice};

fn words(args: &[&str]) -> Vec<String> {
    args.iter().map(|s| s.to_string()).collect()
}

fn parse(args: &[&str]) -> Args {
    match parse_args(&words(args), &[]) {
        Ok(Parsed::Run(a)) => a,
        _ => panic!("{args:?} should run"),
    }
}

#[test]
fn defaults_match_the_documented_ones() {
    let a = parse(&[]);
    assert_eq!(a.listen, "0.0.0.0:6080");
    assert_eq!(a.geometry, (1440, 900));
    assert!(a.command.is_empty());
    assert!(!a.view_only);
}

#[test]
fn bare_command_is_captured_with_its_own_flags() {
    let a = parse(&["--display", ":3", "xfce4-session", "--replace", "-v"]);
    assert_eq!(a.display.as_deref(), Some(":3"));
    assert_eq!(a.command, vec!["xfce4-session", "--replace", "-v"]);
    assert!(!a.verbose, "flags after the command belong to the command");
}

#[test]
fn double_dash_separates_the_command() {
    let a = parse(&["-v", "--", "--weird-binary-name"]);
    assert!(a.verbose);
    assert_eq!(a.command, vec!["--weird-binary-name"]);
}

#[test]
fn listen_accepts_port_only() {
    assert_eq!(bind_addr("6080").unwrap(), "0.0.0.0:6080");
    assert_eq!(bind_addr(":9000").unwrap(), "0.0.0.0:9000");
    assert_eq!(bind_addr("127.0.0.1:6080").unwrap(), "127.0.0.1:6080");
    assert!(bind_addr("localhost").is_err());
}

#[test]
fn geometry_parsing() {
    assert_eq!(parse_geometry("1920x1080").unwrap(), (1920, 1080));
    assert_eq!(parse_geometry("800X600").unwrap(), (800, 600));
    assert!(parse_geometry("1920").is_err());
    assert!(parse_geometry("1x1").is_err());
}

#[test]
fn unknown_options_are_rejected() {
    assert!(parse_args(&["--nope".to_string()], &[]).is_err());
}

#[test]
fn contradicting_password_flags_are_rejected() {
    let r = parse_args(&words(&["--password", "x", "--no-password"]), &[]);
    assert!(r.is_err());
}

#[test]
fn generated_passwords_are_eight_usable_characters() {
    let p = random_password(&[0, 1, 2, 57, 100, 200, 254, 255]);
    assert_eq!(p.len(), 8);
    assert!(p.chars().all(|c| c.is_ascii_alphanumeric()));
    assert_ne!(p, random_password(&[9, 1, 2, 57, 100, 200, 254, 255]));
}

fn error(args: &[&str]) -> ArgError {
    match parse_args(&words(args), &[]) {
        Err(e) => e,
        Ok(_) => panic!("{args:?} should fail"),
    }
}

#[test]
fn every_option_is_taken_in() {
    let a = parse(&[
        "-l", "9000", "-d", ":7", "-g", "800x600", "--depth", "16", "--max-geometry", "1024x768",
        "--allow-origin", "a", "--allow-origin", "b", "--xserver", "Xephyr", "-p", "pw",
        "--view-only", "--max-fps", "500", "--verbose",
    ]);
    assert_eq!(a.listen, "9000");
    assert_eq!(a.display.as_deref(), Some(":7"));
    assert_eq!((a.geometry, a.depth, a.max_geometry), ((800, 600), 16, (1024, 768)));
    assert_eq!(a.allow_origin, ["a", "b"]);
    assert_eq!(a.xserver, "Xephyr");
    assert_eq!(a.password.as_deref(), Some("pw"));
    assert!(a.view_only && a.verbose && !a.no_password);
    assert_eq!(a.max_fps, 120);
    assert_eq!(parse(&["--max-fps", "0"]).max_fps, 1);

    let d = parse(&[]);
    assert_eq!((d.depth, d.max_geometry, d.max_fps), (24, (1920, 1200), 30));
    assert_eq!(d.xserver, "Xvfb");
    assert!(d.allow_origin.is_empty() && d.password.is_none() && d.display.is_none());
    // A lone dash is a word.
    assert_eq!(parse(&["-"]).command, ["-"]);
}

#[test]
fn help_and_version_stop_at_once() {
    assert!(matches!(parse_args(&words(&["-v", "--help", "--nope"]), &[]), Ok(Parsed::Help)));
    assert!(matches!(parse_args(&words(&["-V"]), &[]), Ok(Parsed::Version)));
    assert_eq!(parse(&["prog", "--help"]).command, ["prog", "--help"]);
}

#[test]
fn each_mistake_has_its_error() {
    assert!(matches!(error(&["-l"]), ArgError::MissingValue(f) if f == "--listen"));
    assert!(matches!(error(&["-g", "800"]), ArgError::BadGeometry(s) if s == "800"));
    assert!(matches!(error(&["-g", "ax600"]), ArgError::BadWidth(s) if s == "ax600"));
    assert!(matches!(error(&["-g", "800x"]), ArgError::BadHeight(s) if s == "800x"));
    assert!(matches!(error(&["-g", "15x600"]), ArgError::GeometryOutOfRange(s) if s == "15x600"));
    assert!(matches!(
        error(&["--max-geometry", "800x16385"]),
        ArgError::GeometryOutOfRange(s) if s == "800x16385"
    ));
    assert!(matches!(error(&["--depth", "x"]), ArgError::NotANumber(f) if f == "--depth"));
    assert!(matches!(error(&["--max-fps", "-1"]), ArgError::NotANumber(f) if f == "--max-fps"));
    assert!(matches!(error(&["--depth", "8"]), ArgError::UnsupportedDepth(8)));
    assert!(matches!(error(&["-x"]), ArgError::UnknownOption(s) if s == "-x"));
    assert!(matches!(
        error(&["--no-password", "-p", "x"]),
        ArgError::ContradictingPasswords
    ));
    assert!(matches!(bind_addr(":x"), Err(ArgError::BadPort(s)) if s == ":x"));
    assert!(matches!(bind_addr("65536"), Err(ArgError::NeedsPort(s)) if s == "65536"));
    assert_eq!(parse_geometry(" 800 x 600 ").ok(), Some((800, 600)));
}

#[test]
fn a_password_file_is_asked_for_and_read() {
    let args = words(&["--password-file", "/p", "-v"]);
    match parse_args(&args, &[]) {
        Ok(Parsed::NeedFile(path)) => assert_eq!(path, "/p"),
        _ => panic!("the file should be asked for"),
    }
    match parse_args(&args, &words(&["  pass word \r\nmore\n"])) {
        Ok(Parsed::Run(a)) => {
            assert_eq!(a.password.as_deref(), Some("pass word"));
            assert!(a.verbose);
        }
        _ => panic!("the file should do"),
    }
    assert!(matches!(
        parse_args(&args, &words(&[" \nx"])),
        Err(ArgError::EmptyPasswordFile(path)) if path == "/p"
    ));
}

#[test]
fn the_default_is_never_open() {
    assert!(matches!(resolve_password(&parse(&[])), PasswordChoice::Random));
    assert!(matches!(resolve_password(&parse(&["--no-password"])), PasswordChoice::Open));
    assert!(matches!(
        resolve_password(&parse(&["-p", "12345678"])),
        PasswordChoice::Given { password, cut: false } if password == "12345678"
    ));
    // Eight characters, but nine bytes.
    assert!(matches!(
        resolve_password(&parse(&["-p", "1234567\u{e9}"])),
        PasswordChoice::Given { cut: true, .. }
    ));
    assert_eq!(random_password(&[0, 24, 25, 48, 49, 56, 57, 255]), "azAZ29aC");
}

#[test]
fn a_display_is_named_started_or_inherited() {
    assert!(matches!(
        choose_display(&parse(&["-d", ":5", "prog"])),
        DisplayChoice::Existing(d) if d == ":5"
    ));
    assert!(matches!(choose_display(&parse(&["prog"])), DisplayChoice::Start));
    assert!(matches!(choose_display(&parse(&[])), DisplayChoice::FromEnvironment));
}
