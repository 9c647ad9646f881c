use autodbconv::encoding::{Message, Signal, BIT_START_INVALID};
use autodbconv::ldf::{
    assign_frame_offset, check_event_constituent, check_sporadic_constituent, frames_same_width,
    signal_width_checked,
};
use autodbconv::namemap::NameMap;
use autodbconv::{parse_ldf, Error};

fn sig(width: u16) -> Signal {
    Signal {
        signed: false,
        little_endian: true,
        bit_start: BIT_START_INVALID,
        bit_width: width,
        init_value: 0,
        encodings: Vec::new(),
    }
}

fn msg(sender: &str, width: u16) -> Message {
    Message {
        sender: sender.to_string(),
        id: 1,
        byte_width: width,
        signals: Vec::new(),
        mux_signals: NameMap::new(),
    }
}

#[test]
fn width_check_boundary() {
    assert_eq!(signal_width_checked(64).unwrap(), 64);
    assert!(matches!(signal_width_checked(65), Err(Error::SignalTooWide)));
    assert_eq!(signal_width_checked(1).unwrap(), 1);
}

#[test]
fn offset_assignment_unknown_then_duplicate() {
    let mut signals: NameMap<Signal> = NameMap::new();
    signals.insert("Sig1".to_string(), sig(8));
    assert!(matches!(
        assign_frame_offset(&mut signals, "Nope", 0),
        Err(Error::UnknownSignal)
    ));
    assert!(assign_frame_offset(&mut signals, "Sig1", 4).is_ok());
    assert_eq!(signals.get("Sig1").unwrap().bit_start, 4);
    assert!(matches!(
        assign_frame_offset(&mut signals, "Sig1", 4),
        Err(Error::DuplicateSignal)
    ));
}

#[test]
fn sporadic_constituent_rules() {
    let mut messages: NameMap<Message> = NameMap::new();
    messages.insert("F1".to_string(), msg("ECU1", 1));
    messages.insert("F2".to_string(), msg("ECU2", 1));
    let commander = "ECU1".to_string();
    let taken = vec!["F1".to_string()];
    assert!(matches!(
        check_sporadic_constituent(&messages, &commander, &taken, &"Nope".to_string()),
        Err(Error::UnknownFrame)
    ));
    assert!(matches!(
        check_sporadic_constituent(&messages, &commander, &taken, &"F2".to_string()),
        Err(Error::SporadicFrameHasResponder)
    ));
    assert!(matches!(
        check_sporadic_constituent(&messages, &commander, &taken, &"F1".to_string()),
        Err(Error::DuplicateFrame)
    ));
    let empty: Vec<String> = Vec::new();
    assert!(check_sporadic_constituent(&messages, &commander, &empty, &"F1".to_string()).is_ok());
}

#[test]
fn event_constituent_rules() {
    let mut messages: NameMap<Message> = NameMap::new();
    messages.insert("F1".to_string(), msg("ECU1", 1));
    let taken = vec!["F1".to_string()];
    assert!(matches!(
        check_event_constituent(&messages, &taken, &"F1".to_string()),
        Err(Error::DuplicateFrame)
    ));
    let empty: Vec<String> = Vec::new();
    assert!(matches!(
        check_event_constituent(&messages, &empty, &"Nope".to_string()),
        Err(Error::NotUnconditionalFrame)
    ));
    assert!(check_event_constituent(&messages, &empty, &"F1".to_string()).is_ok());
}

#[test]
fn same_width_check() {
    let mut messages: NameMap<Message> = NameMap::new();
    messages.insert("F1".to_string(), msg("ECU1", 1));
    messages.insert("F2".to_string(), msg("ECU1", 1));
    messages.insert("F3".to_string(), msg("ECU1", 2));
    let empty: Vec<String> = Vec::new();
    assert!(frames_same_width(&messages, &empty));
    let same = vec!["F1".to_string(), "F2".to_string()];
    assert!(frames_same_width(&messages, &same));
    let differ = vec!["F1".to_string(), "F3".to_string()];
    assert!(!frames_same_width(&messages, &differ));
}

#[test]
fn name_map_keeps_order_and_replaces() {
    let mut m: NameMap<u32> = NameMap::new();
    m.insert("b".to_string(), 1);
    m.insert("a".to_string(), 2);
    m.insert("b".to_string(), 3);
    assert_eq!(m.entries.len(), 2);
    assert_eq!(m.entries[0].0, "b");
    assert_eq!(m.entries[0].1, 3);
    assert_eq!(m.entries[1].0, "a");
    assert!(m.contains("a"));
    assert!(!m.contains("c"));
    assert_eq!(m.get("b"), Some(&3));
    assert_eq!(m.index_of("a"), Some(1));
    assert_eq!(m.index_of("c"), None);
}

#[test]
fn databases_from_different_texts_differ() {
    let one = parse_ldf(
        "LIN_description_file; LIN_protocol_version = \"2.2\"; \
         LIN_language_version = \"2.2\"; LIN_speed = 19.2 kbps; \
         Nodes { Master: ECU1, 10 ms, 0.1 ms; Slaves: ECU2; } \
         Signals { Sig1: 8, 0, ECU1; } Frames { } Node_attributes { } Schedule_tables { }",
    )
    .unwrap();
    let other = parse_ldf(
        "LIN_description_file; LIN_protocol_version = \"2.2\"; \
         LIN_language_version = \"2.2\"; LIN_speed = 19.2 kbps; \
         Nodes { Master: ECU1, 10 ms, 0.1 ms; Slaves: ECU2; } \
         Signals { Sig1: 16, 0, ECU1; } Frames { } Node_attributes { } Schedule_tables { }",
    )
    .unwrap();
    assert!(!one.equals(&other));
}
