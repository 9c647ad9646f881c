use autodbconv::encoding::{DatabaseType, LDFScheduleCommand, BIT_START_INVALID};
use autodbconv::numbers::Real;
use autodbconv::{parse_ldf, Error};

const HEAD: &str = "LIN_description_file; \
    LIN_protocol_version = \"2.2\"; \
    LIN_language_version = \"2.2\"; \
    LIN_speed = 19.2 kbps; ";

const NODES: &str = "Nodes { Master: ECU1, 10 ms, 0.1 ms; Slaves: ECU2; } ";

const TAIL: &str = "Node_attributes { } Schedule_tables { }";

fn doc(middle: &str) -> String {
    format!("{}{}{}", HEAD, NODES, middle)
}

#[test]
fn minimal_document_scenario() {
    // the concrete end-to-end scenario: one signal, one frame, one responder
    let text = doc(
        "Signals { Sig1: 8, 0, ECU1, ECU2; } \
         Frames { Frame1: 1, ECU1, 1 { Sig1, 0; } } \
         Node_attributes { } Schedule_tables { }",
    );
    let db = parse_ldf(&text).unwrap();

    assert_eq!(db.signals.entries.len(), 1);
    let sig = db.signals.get("Sig1").unwrap();
    assert_eq!(sig.bit_width, 8);
    assert_eq!(sig.bit_start, 0);
    assert_eq!(sig.init_value, 0);
    assert!(!sig.signed);
    assert!(sig.little_endian);

    assert_eq!(db.messages.entries.len(), 1);
    let msg = db.messages.get("Frame1").unwrap();
    assert_eq!(msg.id, 1);
    assert_eq!(msg.sender, "ECU1");
    assert_eq!(msg.byte_width, 1);
    assert_eq!(msg.signals.len(), 1);
    assert_eq!(msg.signals[0], "Sig1");

    match &db.extra {
        DatabaseType::LDF(data) => {
            assert_eq!(data.bitrate, Real { neg: false, mantissa: 192, exp10: 2 });
            assert_eq!(data.commander, "ECU1");
            assert_eq!(data.time_base, Real { neg: false, mantissa: 10, exp10: 0 });
            assert_eq!(data.jitter, Real { neg: false, mantissa: 1, exp10: -1 });
            assert_eq!(data.responders.entries.len(), 1);
            let resp = data.responders.get("ECU2").unwrap();
            assert_eq!(resp.subscribed_signals.len(), 1);
            assert_eq!(resp.subscribed_signals[0], "Sig1");
        },
        _ => panic!("the database should carry LDF data"),
    }
}

#[test]
fn round_trip_same_text_gives_equal_databases() {
    let text = doc(
        "Signals { Sig1: 8, 0, ECU1, ECU2; Sig2: 16, 3, ECU1; } \
         Frames { Frame1: 1, ECU1, 1 { Sig1, 0; } Frame2: 2, ECU2, 2 { Sig2, 0; } } \
         Sporadic_frames { Spor1: Frame1; } \
         Node_attributes { ECU2 { LIN_protocol = \"2.2\"; configured_NAD = 0x20; \
             product_id = 0x1234, 0x5678, 1; response_error = Sig1; \
             configurable_frames { Frame2; } } } \
         Schedule_tables { Tab1 { Frame1 delay 10 ms; MasterReq delay 10 ms; } } \
         Signal_encoding_types { Enc1 { physical_value, 0, 254, 0.5, 0, \"deg\"; \
             logical_value, 255, \"fault\"; } }",
    );
    let first = parse_ldf(&text).unwrap();
    let second = parse_ldf(&text).unwrap();
    assert!(first.equals(&second));
    assert!(second.equals(&first));
}

#[test]
fn version_mismatch_is_advisory() {
    // a malformed version literal does not abort the parse
    let text = format!(
        "LIN_description_file; \
         LIN_protocol_version = \"2.1\"; \
         LIN_language_version = \"1.3\"; \
         LIN_speed = 19.2 kbps; {}Signals {{ }} Frames {{ }} {}",
        NODES, TAIL
    );
    assert!(parse_ldf(&text).is_ok());
}

#[test]
fn unknown_signal_in_frame() {
    let text = doc(
        "Signals { Sig1: 8, 0, ECU1; } \
         Frames { Frame1: 1, ECU1, 1 { Nope, 0; } } Node_attributes { } Schedule_tables { }",
    );
    assert!(matches!(parse_ldf(&text), Err(Error::UnknownSignal)));
}

#[test]
fn signal_in_two_frames_is_duplicate() {
    let text = doc(
        "Signals { Sig1: 8, 0, ECU1; } \
         Frames { Frame1: 1, ECU1, 1 { Sig1, 0; } Frame2: 2, ECU1, 1 { Sig1, 0; } } \
         Node_attributes { } Schedule_tables { }",
    );
    assert!(matches!(parse_ldf(&text), Err(Error::DuplicateSignal)));
}

#[test]
fn width_sixty_five_is_too_wide() {
    let text = doc("Signals { Sig1: 65, 0, ECU1; } Frames { } Node_attributes { } Schedule_tables { }");
    assert!(matches!(parse_ldf(&text), Err(Error::SignalTooWide)));
}

#[test]
fn width_sixty_four_is_accepted() {
    let text = doc(
        "Signals { Sig1: 64, 0, ECU1; } Frames { Frame1: 1, ECU1, 8 { Sig1, 0; } } \
         Node_attributes { } Schedule_tables { }",
    );
    let db = parse_ldf(&text).unwrap();
    assert_eq!(db.signals.get("Sig1").unwrap().bit_width, 64);
}

#[test]
fn unplaced_signal_keeps_the_sentinel() {
    let text = doc(
        "Signals { Sig1: 8, 0, ECU1; } Frames { } Node_attributes { } Schedule_tables { }",
    );
    let db = parse_ldf(&text).unwrap();
    assert_eq!(db.signals.get("Sig1").unwrap().bit_start, BIT_START_INVALID);
}

#[test]
fn sporadic_frame_from_responder_is_rejected() {
    let text = doc(
        "Signals { Sig1: 8, 0, ECU1; } \
         Frames { Frame1: 1, ECU2, 1 { Sig1, 0; } } \
         Sporadic_frames { Spor1: Frame1; } Node_attributes { } Schedule_tables { }",
    );
    assert!(matches!(parse_ldf(&text), Err(Error::SporadicFrameHasResponder)));
}

#[test]
fn sporadic_frame_listed_twice_is_duplicate() {
    let text = doc(
        "Signals { Sig1: 8, 0, ECU1; } \
         Frames { Frame1: 1, ECU1, 1 { Sig1, 0; } } \
         Sporadic_frames { Spor1: Frame1, Frame1; } Node_attributes { } Schedule_tables { }",
    );
    assert!(matches!(parse_ldf(&text), Err(Error::DuplicateFrame)));
}

#[test]
fn sporadic_unknown_frame_is_rejected() {
    let text = doc(
        "Signals { } Frames { } \
         Sporadic_frames { Spor1: Nope; } Node_attributes { } Schedule_tables { }",
    );
    assert!(matches!(parse_ldf(&text), Err(Error::UnknownFrame)));
}

#[test]
fn sporadic_group_name_colliding_with_frame_is_duplicate() {
    let text = doc(
        "Signals { Sig1: 8, 0, ECU1; } \
         Frames { Frame1: 1, ECU1, 1 { Sig1, 0; } } \
         Sporadic_frames { Frame1: Frame1; } Node_attributes { } Schedule_tables { }",
    );
    assert!(matches!(parse_ldf(&text), Err(Error::DuplicateFrame)));
}

#[test]
fn event_frames_of_different_length_are_rejected() {
    let text = doc(
        "Signals { Sig1: 8, 0, ECU1; Sig2: 8, 0, ECU1; } \
         Frames { Frame1: 1, ECU1, 1 { Sig1, 0; } Frame2: 2, ECU2, 2 { Sig2, 0; } } \
         Event_triggered_frames { Evt1: Tab1, 3, Frame1, Frame2; } \
         Node_attributes { } Schedule_tables { }",
    );
    assert!(matches!(parse_ldf(&text), Err(Error::EventFrameDifferentLength)));
}

#[test]
fn event_frames_of_equal_length_are_accepted() {
    let text = doc(
        "Signals { Sig1: 8, 0, ECU1; Sig2: 8, 0, ECU1; } \
         Frames { Frame1: 1, ECU1, 1 { Sig1, 0; } Frame2: 2, ECU2, 1 { Sig2, 0; } } \
         Event_triggered_frames { Evt1: Tab1, 3, Frame1, Frame2; } \
         Node_attributes { } Schedule_tables { }",
    );
    let db = parse_ldf(&text).unwrap();
    match &db.extra {
        DatabaseType::LDF(data) => {
            let grp = data.event_frames.get("Evt1").unwrap();
            assert_eq!(grp.0, "Tab1");
            assert_eq!(grp.1, 3);
            assert_eq!(grp.2, vec!["Frame1".to_string(), "Frame2".to_string()]);
        },
        _ => panic!("the database should carry LDF data"),
    }
}

#[test]
fn event_group_with_no_frames_is_accepted() {
    let text = doc(
        "Signals { } Frames { } \
         Event_triggered_frames { Evt1: Tab1, 3; } Node_attributes { } Schedule_tables { }",
    );
    let db = parse_ldf(&text).unwrap();
    match &db.extra {
        DatabaseType::LDF(data) => {
            assert!(data.event_frames.get("Evt1").unwrap().2.is_empty());
        },
        _ => panic!("the database should carry LDF data"),
    }
}

#[test]
fn event_constituent_must_be_unconditional() {
    let text = doc(
        "Signals { } Frames { } \
         Event_triggered_frames { Evt1: Tab1, 3, Nope; } Node_attributes { } Schedule_tables { }",
    );
    assert!(matches!(parse_ldf(&text), Err(Error::NotUnconditionalFrame)));
}

#[test]
fn node_attributes_for_unknown_node() {
    let text = doc(
        "Signals { } Frames { } \
         Node_attributes { ECU9 { LIN_protocol = \"2.2\"; configured_NAD = 1; } } \
         Schedule_tables { }",
    );
    assert!(matches!(parse_ldf(&text), Err(Error::UnknownNode)));
}

#[test]
fn node_attributes_response_error_must_exist() {
    let text = doc(
        "Signals { } Frames { } \
         Node_attributes { ECU2 { LIN_protocol = \"2.2\"; configured_NAD = 1; \
             product_id = 1, 2, 3; response_error = Nope; } } \
         Schedule_tables { }",
    );
    assert!(matches!(parse_ldf(&text), Err(Error::UnknownSignal)));
}

#[test]
fn node_attributes_full_record() {
    let text = doc(
        "Signals { Sig1: 8, 0, ECU1, ECU2; } \
         Frames { Frame1: 1, ECU1, 1 { Sig1, 0; } } \
         Event_triggered_frames { Evt1: Tab1, 3, Frame1; } \
         Node_attributes { ECU2 { LIN_protocol = \"2.2\"; configured_NAD = 0x20; \
             initial_NAD = 0x21; product_id = 0x1234, 0x5678; response_error = Sig1; \
             P2_min = 50 ms; ST_min = 0 ms; \
             configurable_frames { Frame1; Evt1 = 0x10; } } } \
         Schedule_tables { }",
    );
    let db = parse_ldf(&text).unwrap();
    match &db.extra {
        DatabaseType::LDF(data) => {
            let resp = data.responders.get("ECU2").unwrap();
            assert_eq!(resp.configured_nad, 0x20);
            assert_eq!(resp.initial_nad, Some(0x21));
            // the variant byte defaults to zero when omitted
            assert_eq!(resp.product_id, Some((0x1234, 0x5678, 0)));
            assert_eq!(resp.response_error.as_deref(), Some("Sig1"));
            assert_eq!(
                resp.configurable_frames,
                vec![("Frame1".to_string(), None), ("Evt1".to_string(), Some(0x10))]
            );
        },
        _ => panic!("the database should carry LDF data"),
    }
}

#[test]
fn configurable_frame_must_be_known() {
    let text = doc(
        "Signals { Sig1: 8, 0, ECU1; } Frames { } \
         Node_attributes { ECU2 { LIN_protocol = \"2.2\"; configured_NAD = 1; \
             product_id = 1, 2; response_error = Sig1; \
             configurable_frames { Nope; } } } \
         Schedule_tables { }",
    );
    assert!(matches!(parse_ldf(&text), Err(Error::UnknownFrame)));
}

#[test]
fn non_diagnostic_protocol_reads_short_record() {
    let text = doc(
        "Signals { } Frames { } \
         Node_attributes { ECU2 { LIN_protocol = \"1.3\"; configured_NAD = 5; } } \
         Schedule_tables { }",
    );
    let db = parse_ldf(&text).unwrap();
    match &db.extra {
        DatabaseType::LDF(data) => {
            let resp = data.responders.get("ECU2").unwrap();
            assert_eq!(resp.configured_nad, 5);
            assert_eq!(resp.product_id, None);
            assert_eq!(resp.response_error, None);
        },
        _ => panic!("the database should carry LDF data"),
    }
}

#[test]
fn schedule_commands_of_every_kind() {
    let text = doc(
        "Signals { Sig1: 8, 0, ECU1; } \
         Frames { Frame1: 1, ECU1, 1 { Sig1, 0; } } \
         Node_attributes { } \
         Schedule_tables { Tab1 { \
             Frame1 delay 10 ms; \
             MasterReq delay 10 ms; \
             SlaveResp delay 10 ms; \
             AssignNAD { ECU2 } delay 10 ms; \
             ConditionalChangeNAD { 1, 2, 3, 4, 5, 6 } delay 10 ms; \
             DataDump { ECU2, 1, 2, 3, 4, 5 } delay 10 ms; \
             SaveConfiguration { ECU2 } delay 10 ms; \
             AssignFrameIdRange { ECU2, 0 } delay 10 ms; \
             AssignFrameIdRange { ECU2, 4, 1, 2, 3, 4 } delay 10 ms; \
             FreeFormat { 1, 2, 3, 4, 5, 6, 7, 8 } delay 10 ms; \
             AssignFrameId { ECU2, Frame1 } delay 5.5 ms; \
         } }",
    );
    let db = parse_ldf(&text).unwrap();
    match &db.extra {
        DatabaseType::LDF(data) => {
            let table = data.schedule_tables.get("Tab1").unwrap();
            assert_eq!(table.len(), 11);
            assert!(matches!(&table[0].0, LDFScheduleCommand::Frame(n) if n == "Frame1"));
            assert!(matches!(table[1].0, LDFScheduleCommand::CommanderReq));
            assert!(matches!(table[2].0, LDFScheduleCommand::ResponderResp));
            assert!(matches!(&table[3].0, LDFScheduleCommand::AssignNAD(n) if n == "ECU2"));
            assert!(matches!(
                table[4].0,
                LDFScheduleCommand::ConditionalChangeNAD {
                    nad: 1,
                    id: 2,
                    byte: 3,
                    mask: 4,
                    inv: 5,
                    new_nad: 6
                }
            ));
            assert!(
                matches!(&table[5].0, LDFScheduleCommand::DataDump { name, data }
                    if name == "ECU2" && *data == vec![1, 2, 3, 4, 5])
            );
            assert!(matches!(&table[6].0, LDFScheduleCommand::SaveConfiguration(n) if n == "ECU2"));
            // without an explicit PID the four bytes default to 0xFF
            assert!(
                matches!(&table[7].0, LDFScheduleCommand::AssignFrameIdRange { name, index: 0, pid }
                    if name == "ECU2" && *pid == vec![0xFF, 0xFF, 0xFF, 0xFF])
            );
            assert!(
                matches!(&table[8].0, LDFScheduleCommand::AssignFrameIdRange { name, index: 4, pid }
                    if name == "ECU2" && *pid == vec![1, 2, 3, 4])
            );
            assert!(
                matches!(&table[9].0, LDFScheduleCommand::FreeFormat(d)
                    if *d == vec![1, 2, 3, 4, 5, 6, 7, 8])
            );
            assert!(
                matches!(&table[10].0, LDFScheduleCommand::AssignFrameId { node, frame }
                    if node == "ECU2" && frame == "Frame1")
            );
            assert_eq!(table[10].1, Real { neg: false, mantissa: 55, exp10: -1 });
        },
        _ => panic!("the database should carry LDF data"),
    }
}

#[test]
fn schedule_bare_unknown_name_is_rejected() {
    let text = doc(
        "Signals { } Frames { } Node_attributes { } \
         Schedule_tables { Tab1 { Nope delay 10 ms; } }",
    );
    assert!(matches!(parse_ldf(&text), Err(Error::UnknownFrame)));
}

#[test]
fn schedule_assign_nad_unknown_node_is_rejected() {
    let text = doc(
        "Signals { } Frames { } Node_attributes { } \
         Schedule_tables { Tab1 { AssignNAD { ECU9 } delay 10 ms; } }",
    );
    assert!(matches!(parse_ldf(&text), Err(Error::UnknownNode)));
}

#[test]
fn duplicate_encoding_block_is_rejected() {
    let text = doc(
        "Signals { } Frames { } Node_attributes { } Schedule_tables { } \
         Signal_encoding_types { Enc1 { physical_value, 0, 10, 1, 0; } \
             Enc1 { logical_value, 1, \"on\"; } }",
    );
    assert!(matches!(parse_ldf(&text), Err(Error::DuplicateEncoding)));
}

#[test]
fn encoding_entry_of_unknown_kind_is_rejected() {
    let text = doc(
        "Signals { } Frames { } Node_attributes { } Schedule_tables { } \
         Signal_encoding_types { Enc1 { magic_value, 1; } }",
    );
    assert!(matches!(parse_ldf(&text), Err(Error::IncorrectToken)));
}

#[test]
fn bad_speed_numeral_is_rejected() {
    let text = format!(
        "LIN_description_file; LIN_protocol_version = \"2.2\"; \
         LIN_language_version = \"2.2\"; LIN_speed = fast kbps; {}Signals {{ }} Frames {{ }} {}",
        NODES, TAIL
    );
    assert!(matches!(parse_ldf(&text), Err(Error::NumberParse)));
}

#[test]
fn missing_header_is_incorrect_token() {
    assert!(matches!(parse_ldf("Nodes { }"), Err(Error::IncorrectToken)));
}

#[test]
fn empty_input_has_no_token() {
    assert!(matches!(parse_ldf(""), Err(Error::ExpectedToken)));
}

#[test]
fn bad_comment_is_fatal() {
    assert!(matches!(parse_ldf("/oops"), Err(Error::ExpectedComment)));
}

#[test]
fn trailing_garbage_is_unexpected() {
    let text = doc("Signals { } Frames { } Node_attributes { } Schedule_tables { } Whatever");
    assert!(matches!(parse_ldf(&text), Err(Error::UnexpectedToken)));
}

#[test]
fn signal_representation_section_is_not_covered() {
    let text = doc(
        "Signals { } Frames { } Node_attributes { } Schedule_tables { } \
         Signal_representation { }",
    );
    assert!(matches!(parse_ldf(&text), Err(Error::UnexpectedToken)));
}

#[test]
fn channel_name_is_kept() {
    let text = format!(
        "{}Channel_name = \"CH1\"; {}Signals {{ }} Frames {{ }} {}",
        HEAD, NODES, TAIL
    );
    let db = parse_ldf(&text).unwrap();
    match &db.extra {
        DatabaseType::LDF(data) => assert_eq!(data.postfix, "\"CH1\""),
        _ => panic!("the database should carry LDF data"),
    }
}

#[test]
fn composite_nodes_are_skipped() {
    let text = format!(
        "{}{}composite {{ configuration {{ CFG {{ ECU2 = 1; }} }} }} Signals {{ }} Frames {{ }} {}",
        HEAD, NODES, TAIL
    );
    assert!(parse_ldf(&text).is_ok());
}

#[test]
fn init_value_array_defaults_to_zero() {
    let text = doc(
        "Signals { Sig1: 16, { 1, 2 }, ECU1; } Frames { } Node_attributes { } Schedule_tables { }",
    );
    let db = parse_ldf(&text).unwrap();
    assert_eq!(db.signals.get("Sig1").unwrap().init_value, 0);
}

#[test]
fn diagnostic_templates_are_matched() {
    let text = doc(
        "Signals { } \
         Diagnostic_signals { \
             MasterReqB0: 8, 0; MasterReqB1: 8, 0; MasterReqB2: 8, 0; MasterReqB3: 8, 0; \
             MasterReqB4: 8, 0; MasterReqB5: 8, 0; MasterReqB6: 8, 0; MasterReqB7: 8, 0; \
             SlaveRespB0: 8, 0; SlaveRespB1: 8, 0; SlaveRespB2: 8, 0; SlaveRespB3: 8, 0; \
             SlaveRespB4: 8, 0; SlaveRespB5: 8, 0; SlaveRespB6: 8, 0; SlaveRespB7: 8, 0; \
         } \
         Frames { } \
         Diagnostic_frames { \
             MasterReq: 60 { \
                 MasterReqB0, 0; MasterReqB1, 8; MasterReqB2, 16; MasterReqB3, 24; \
                 MasterReqB4, 32; MasterReqB5, 40; MasterReqB6, 48; MasterReqB7, 56; \
             } \
             SlaveResp: 61 { \
                 SlaveRespB0, 0; SlaveRespB1, 8; SlaveRespB2, 16; SlaveRespB3, 24; \
                 SlaveRespB4, 32; SlaveRespB5, 40; SlaveRespB6, 48; SlaveRespB7, 56; \
             } \
         } \
         Node_attributes { } Schedule_tables { }",
    );
    assert!(parse_ldf(&text).is_ok());
}

#[test]
fn diagnostic_template_deviation_is_incorrect_token() {
    let text = doc(
        "Signals { } \
         Diagnostic_signals { MasterReqB0: 8, 1; } \
         Frames { } Node_attributes { } Schedule_tables { }",
    );
    assert!(matches!(parse_ldf(&text), Err(Error::IncorrectToken)));
}

#[test]
fn signal_groups_section_is_skipped() {
    let text = doc(
        "Signals { } Frames { } Node_attributes { } Schedule_tables { } \
         Signal_groups { Grp1: 2 { A, 0; B, 1; } }",
    );
    assert!(parse_ldf(&text).is_ok());
}

#[test]
fn comments_are_allowed_between_tokens() {
    let text = doc(
        "Signals { /* one signal */ Sig1: 8, 0, ECU1; // end of line\n } \
         Frames { } Node_attributes { } Schedule_tables { }",
    );
    assert!(parse_ldf(&text).is_ok());
}

#[test]
fn event_group_name_colliding_with_sporadic_group() {
    let text = doc(
        "Signals { Sig1: 8, 0, ECU1; } \
         Frames { Frame1: 1, ECU1, 1 { Sig1, 0; } } \
         Sporadic_frames { Grp1: Frame1; } \
         Event_triggered_frames { Grp1: Tab1, 3, Frame1; } \
         Node_attributes { } Schedule_tables { }",
    );
    assert!(matches!(parse_ldf(&text), Err(Error::DuplicateFrame)));
}

#[test]
fn schedule_tables_keep_their_order() {
    let text = doc(
        "Signals { Sig1: 8, 0, ECU1; } \
         Frames { Frame1: 1, ECU1, 1 { Sig1, 0; } } \
         Node_attributes { } \
         Schedule_tables { TabB { Frame1 delay 10 ms; } TabA { Frame1 delay 20 ms; } }",
    );
    let db = parse_ldf(&text).unwrap();
    match &db.extra {
        DatabaseType::LDF(data) => {
            assert_eq!(data.schedule_tables.entries.len(), 2);
            assert_eq!(data.schedule_tables.entries[0].0, "TabB");
            assert_eq!(data.schedule_tables.entries[1].0, "TabA");
        },
        _ => panic!("the database should carry LDF data"),
    }
}

#[test]
fn hexadecimal_numerals_in_frames() {
    let text = doc(
        "Signals { Sig1: 0x8, 0x0, ECU1; } \
         Frames { Frame1: 0x2A, ECU1, 0x1 { Sig1, 0x0; } } \
         Node_attributes { } Schedule_tables { }",
    );
    let db = parse_ldf(&text).unwrap();
    let msg = db.messages.get("Frame1").unwrap();
    assert_eq!(msg.id, 42);
    assert_eq!(msg.byte_width, 1);
    assert_eq!(db.signals.get("Sig1").unwrap().bit_width, 8);
}

#[test]
fn placement_offset_must_fit_below_the_sentinel() {
    let text = doc(
        "Signals { Sig1: 8, 0, ECU1; } \
         Frames { Frame1: 1, ECU1, 1 { Sig1, 65535; } } \
         Node_attributes { } Schedule_tables { }",
    );
    assert!(matches!(parse_ldf(&text), Err(Error::NumberParse)));
}

#[test]
fn exponent_speed_literal() {
    let text = format!(
        "LIN_description_file; LIN_protocol_version = \"2.2\"; \
         LIN_language_version = \"2.2\"; LIN_speed = 1.92e1 kbps; {}Signals {{ }} Frames {{ }} {}",
        NODES, TAIL
    );
    let db = parse_ldf(&text).unwrap();
    match &db.extra {
        DatabaseType::LDF(data) => {
            assert_eq!(data.bitrate, Real { neg: false, mantissa: 192, exp10: 2 });
        },
        _ => panic!("the database should carry LDF data"),
    }
}
