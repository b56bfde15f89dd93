use rvnc::clipboard::{from_latin1, to_latin1, AnswerContents, Atoms, Clipboard, MAX_TEXT};
use rvnc::clipboard::{SelectionAction, SelectionAsk, SelectionEvent};

#[test]
fn latin1_round_trips_western_text() {
    let text = "Olá, ação — çãé";
    let bytes = to_latin1(text);
    // The em dash is outside Latin-1 and degrades, the accents survive.
    assert_eq!(from_latin1(&bytes), "Olá, ação ? çãé");
}

#[test]
fn latin1_is_byte_for_byte_for_ascii() {
    assert_eq!(to_latin1("hello"), b"hello");
    assert_eq!(from_latin1(b"hello"), "hello");
}

#[test]
fn non_latin1_becomes_a_placeholder() {
    assert_eq!(to_latin1("日本"), b"??");
    assert_eq!(to_latin1("emoji 🎉"), b"emoji ?");
}

const ATOMS: Atoms = Atoms {
    clipboard: 100,
    primary: 1,
    targets: 101,
    utf8_string: 102,
    text: 103,
    string: 31,
    incr: 104,
    property: 105,
};

fn bridge() -> Clipboard {
    let (clipboard, first) = Clipboard::open(50, ATOMS);
    assert_eq!(first, 100);
    clipboard
}

fn ask(target: u32, property: u32) -> SelectionAsk {
    SelectionAsk { time: 9, requestor: 60, selection: 100, target, property }
}

#[test]
fn our_text_is_handed_to_programs_that_ask() {
    let mut c = bridge();
    assert_eq!(c.set("ação".to_string()), (100, 1));
    for target in [102, 103, 31] {
        let a = c.answer_request(&ask(target, 77));
        assert_eq!(a.property, 77);
        assert!(matches!(a.contents, AnswerContents::Text(t) if t == "ação".as_bytes()));
    }
    let a = c.answer_request(&ask(101, 77));
    assert!(matches!(a.contents, AnswerContents::Targets(t) if t == [101, 102, 103, 31]));
    // Obsolete clients leave the property unset.
    assert_eq!(c.answer_request(&ask(102, 0)).property, 102);
    let a = c.answer_request(&ask(999, 77));
    assert_eq!(a.property, 0);
    assert!(matches!(a.contents, AnswerContents::Refused));

    assert!(matches!(c.on_event(&SelectionEvent::Lost), SelectionAction::Nothing));
    let a = c.answer_request(&ask(102, 77));
    assert!(matches!(a.contents, AnswerContents::Text(t) if t.is_empty()));
}

#[test]
fn text_of_others_is_asked_for_and_ours_is_not() {
    let mut c = bridge();
    let taken = |owner| SelectionEvent::OwnerChanged { owner, selection: 1 };
    assert!(matches!(c.on_event(&taken(60)), SelectionAction::Convert { selection: 1 }));
    assert!(matches!(c.on_event(&taken(50)), SelectionAction::Nothing));
    assert!(matches!(c.on_event(&taken(0)), SelectionAction::Nothing));
    let arrived = |property| SelectionEvent::Arrived { property };
    assert!(matches!(c.on_event(&arrived(105)), SelectionAction::Read));
    assert!(matches!(c.on_event(&arrived(0)), SelectionAction::Nothing));
    assert!(matches!(c.on_event(&SelectionEvent::Other), SelectionAction::Nothing));
    let asked = SelectionEvent::Asked(ask(102, 77));
    assert!(matches!(c.on_event(&asked), SelectionAction::Answer(a) if a.property == 77));
}

#[test]
fn a_property_is_read_as_utf8() {
    let mut c = bridge();
    assert_eq!(c.read_property(102, "日本".as_bytes(), false).as_deref(), Some("日本"));
    assert_eq!(c.read_property(102, &[b'a', 0xff], false).as_deref(), Some("a\u{fffd}"));
    assert_eq!(c.read_property(102, &[], false), None);
    // What goes on beyond the limit is ignored.
    assert_eq!(c.read_property(102, b"huge", true), None);
}

#[test]
fn a_text_in_chunks_is_delivered_whole() {
    let mut c = bridge();
    let set = SelectionEvent::PropertySet { property: 105 };
    assert!(matches!(c.on_event(&set), SelectionAction::Nothing));
    c.on_event(&SelectionEvent::Arrived { property: 105 });
    assert_eq!(c.read_property(104, &[0, 0, 0, 9], false), None);
    // A character may be split between chunks.
    for chunk in [&[b'a', 0xc3][..], &[0xa9, b'b'][..]] {
        assert!(matches!(c.on_event(&set), SelectionAction::Read));
        assert_eq!(c.read_property(102, chunk, false), None);
    }
    let other = SelectionEvent::PropertySet { property: 106 };
    assert!(matches!(c.on_event(&other), SelectionAction::Nothing));
    assert!(matches!(c.on_event(&set), SelectionAction::Read));
    assert_eq!(c.read_property(102, &[], false).as_deref(), Some("aéb"));
    assert!(matches!(c.on_event(&set), SelectionAction::Nothing));
}

#[test]
fn a_text_in_chunks_that_grows_too_large_is_ignored() {
    let mut c = bridge();
    c.read_property(104, &[], false);
    let chunk = vec![b'x'; MAX_TEXT];
    assert_eq!(c.read_property(102, &chunk, false), None);
    assert_eq!(c.read_property(102, b"x", false), None);
    assert_eq!(c.read_property(102, b"y", false), None);
    assert_eq!(c.read_property(102, &[], false), None);
    assert_eq!(c.read_property(102, b"next", false).as_deref(), Some("next"));
}
