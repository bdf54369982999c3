use quorum_node::decode;
use quorum_node::encode;
use quorum_node::Message;
use quorum_node::MessageType;
use quorum_node::State;

fn message(sender_id: u64, message_type: MessageType, proposed_state: State, id: &str) -> Message {
    Message { sender_id, message_type, proposed_state, proposal_id: id.to_string() }
}

fn as_json(m: &Message) -> serde_json::Value {
    let kind = match m.message_type {
        MessageType::Proposal => "Proposal",
        MessageType::Acknowledgment => "Acknowledgment",
        MessageType::Commit => "Commit",
    };
    let state_name = match m.proposed_state {
        State::Init => "Init",
        State::Running => "Running",
        State::Stopped => "Stopped",
    };
    let mut object = serde_json::Map::new();
    object.insert("sender_id".to_string(), serde_json::Value::from(m.sender_id));
    object.insert("message_type".to_string(), serde_json::Value::from(kind));
    object.insert("proposed_state".to_string(), serde_json::Value::from(state_name));
    object.insert("proposal_id".to_string(), serde_json::Value::from(m.proposal_id.as_str()));
    serde_json::Value::Object(object)
}

fn awkward_identifiers() -> Vec<String> {
    vec![
        String::new(),
        "plain".to_string(),
        "3f2b8c1e-9d4a-4f6b-8c2d-1e5a7b9c0d3f".to_string(),
        "say \"hello\"".to_string(),
        "back\\slash".to_string(),
        "tab\there".to_string(),
        "line\nfeed\rreturn".to_string(),
        "bell\u{7}backspace\u{8}formfeed\u{c}".to_string(),
        "nul\u{0}unit\u{1f}del\u{7f}".to_string(),
        "caf\u{e9} \u{4e16}\u{754c} \u{1f980}".to_string(),
        "/slash/ {brace} [bracket], colon: end\"}".to_string(),
    ]
}

#[test]
fn encode_gives_the_compact_object() {
    let m = message(1, MessageType::Proposal, State::Running, "abc");
    let expected = br#"{"sender_id":1,"message_type":"Proposal","proposed_state":"Running","proposal_id":"abc"}"#;
    assert_eq!(encode(&m), expected.to_vec());
}

#[test]
fn encode_names_every_message_type_and_state() {
    let ack = message(2, MessageType::Acknowledgment, State::Init, "x");
    assert_eq!(
        encode(&ack),
        br#"{"sender_id":2,"message_type":"Acknowledgment","proposed_state":"Init","proposal_id":"x"}"#
            .to_vec()
    );
    let commit = message(3, MessageType::Commit, State::Stopped, "y");
    assert_eq!(
        encode(&commit),
        br#"{"sender_id":3,"message_type":"Commit","proposed_state":"Stopped","proposal_id":"y"}"#
            .to_vec()
    );
}

#[test]
fn encode_writes_the_sender_in_decimal() {
    let zero = message(0, MessageType::Commit, State::Init, "");
    assert_eq!(
        encode(&zero),
        br#"{"sender_id":0,"message_type":"Commit","proposed_state":"Init","proposal_id":""}"#
            .to_vec()
    );
    let largest = message(u64::MAX, MessageType::Commit, State::Init, "");
    assert_eq!(
        encode(&largest),
        br#"{"sender_id":18446744073709551615,"message_type":"Commit","proposed_state":"Init","proposal_id":""}"#
            .to_vec()
    );
    let round = message(1000, MessageType::Commit, State::Init, "");
    assert!(encode(&round).starts_with(br#"{"sender_id":1000,"#));
}

#[test]
fn encode_escapes_the_identifier() {
    let m = message(1, MessageType::Proposal, State::Running, "a\"b\\c\nd\u{1}e\u{1f}f\u{8}\u{c}\r\t");
    let expected =
        br#"{"sender_id":1,"message_type":"Proposal","proposed_state":"Running","proposal_id":"a\"b\\c\nd\u0001e\u001ff\b\f\r\t"}"#;
    assert_eq!(encode(&m), expected.to_vec());
}

#[test]
fn encode_leaves_other_characters_alone() {
    let m = message(1, MessageType::Proposal, State::Running, "caf\u{e9}/\u{7f}");
    let mut expected =
        br#"{"sender_id":1,"message_type":"Proposal","proposed_state":"Running","proposal_id":""#
            .to_vec();
    expected.extend_from_slice("caf\u{e9}/\u{7f}".as_bytes());
    expected.extend_from_slice(b"\"}");
    assert_eq!(encode(&m), expected);
}

#[test]
fn round_trip_for_every_type_and_state() {
    let types = [MessageType::Proposal, MessageType::Acknowledgment, MessageType::Commit];
    let states = [State::Init, State::Running, State::Stopped];
    for message_type in types {
        for proposed_state in states {
            let original = message(42, message_type, proposed_state, "7c9e6679-7425-40de-944b-e07fc1f90ae7");
            let decoded = decode(&encode(&original));
            assert_eq!(decoded, Some(original));
        }
    }
}

#[test]
fn round_trip_for_awkward_identifiers() {
    for id in awkward_identifiers() {
        let original = message(9, MessageType::Acknowledgment, State::Stopped, &id);
        let decoded = decode(&encode(&original)).expect("an encoding decodes");
        assert_eq!(decoded.sender_id, 9);
        assert_eq!(decoded.message_type, MessageType::Acknowledgment);
        assert_eq!(decoded.proposed_state, State::Stopped);
        assert_eq!(decoded.proposal_id, id);
    }
}

#[test]
fn round_trip_for_extreme_senders() {
    for sender in [0u64, 1, 9, 10, 99, 100, 1 << 32, u64::MAX - 1, u64::MAX] {
        let original = message(sender, MessageType::Proposal, State::Running, "p");
        assert_eq!(decode(&encode(&original)), Some(original));
    }
}

#[test]
fn decode_reads_a_written_out_object() {
    let bytes = br#"{"sender_id":7,"message_type":"Commit","proposed_state":"Stopped","proposal_id":"p-1"}"#;
    assert_eq!(decode(bytes), Some(message(7, MessageType::Commit, State::Stopped, "p-1")));
}

#[test]
fn decode_reads_escapes_back() {
    let bytes = br#"{"sender_id":7,"message_type":"Commit","proposed_state":"Stopped","proposal_id":"a\"b\\c\nd\u0001\u001f\b\f\r\t"}"#;
    let decoded = decode(bytes).expect("well-formed");
    assert_eq!(decoded.proposal_id, "a\"b\\c\nd\u{1}\u{1f}\u{8}\u{c}\r\t");
}

#[test]
fn decode_builds_the_identifier_from_utf8() {
    let mut bytes =
        br#"{"sender_id":7,"message_type":"Commit","proposed_state":"Stopped","proposal_id":""#
            .to_vec();
    bytes.extend_from_slice(&[0xe4, 0xb8, 0x96, 0xe7, 0x95, 0x8c]);
    bytes.extend_from_slice(b"\"}");
    let decoded = decode(&bytes).expect("well-formed");
    assert_eq!(decoded.proposal_id, "\u{4e16}\u{754c}");
    assert_eq!(decoded.proposal_id.chars().count(), 2);
}

#[test]
fn decode_rejects_bytes_that_are_not_utf8() {
    let mut bytes =
        br#"{"sender_id":7,"message_type":"Commit","proposed_state":"Stopped","proposal_id":""#
            .to_vec();
    bytes.extend_from_slice(&[0xff, 0xfe]);
    bytes.extend_from_slice(b"\"}");
    assert_eq!(decode(&bytes), None);
    let mut truncated =
        br#"{"sender_id":7,"message_type":"Commit","proposed_state":"Stopped","proposal_id":""#
            .to_vec();
    truncated.extend_from_slice(&[0xe4, 0xb8]);
    truncated.extend_from_slice(b"\"}");
    assert_eq!(decode(&truncated), None);
}

#[test]
fn decode_rejects_what_is_no_message() {
    let malformed: Vec<&[u8]> = vec![
        b"",
        b"{",
        b"{}",
        b"null",
        b"not json at all",
        b"\x00\x01\x02",
        br#"{"sender_id":1}"#,
        br#"{"sender_id":1,"message_type":"Proposal","proposed_state":"Running"}"#,
        br#"{"sender_id":1,"message_type":"Proposal","proposed_state":"Running","proposal_id":"abc""#,
        br#"{"sender_id":1,"message_type":"Proposal","proposed_state":"Running","proposal_id":"abc}"#,
        br#"{"sender_id":1,"message_type":"Proposal","proposed_state":"Running","proposal_id":abc}"#,
    ];
    for bytes in malformed {
        assert_eq!(decode(bytes), None);
    }
}

#[test]
fn decode_rejects_unknown_tokens() {
    let unknown: Vec<&[u8]> = vec![
        br#"{"sender_id":1,"message_type":"Veto","proposed_state":"Running","proposal_id":"abc"}"#,
        br#"{"sender_id":1,"message_type":"proposal","proposed_state":"Running","proposal_id":"abc"}"#,
        br#"{"sender_id":1,"message_type":"Proposal","proposed_state":"Paused","proposal_id":"abc"}"#,
        br#"{"sender_id":1,"message_type":"Proposal","proposed_state":"","proposal_id":"abc"}"#,
        br#"{"sender_id":1,"message_type":"Proposals","proposed_state":"Running","proposal_id":"abc"}"#,
        br#"{"sender_id":1,"message_type":0,"proposed_state":"Running","proposal_id":"abc"}"#,
    ];
    for bytes in unknown {
        assert_eq!(decode(bytes), None);
    }
}

#[test]
fn decode_rejects_senders_that_are_no_u64() {
    let bad: Vec<&[u8]> = vec![
        br#"{"sender_id":,"message_type":"Proposal","proposed_state":"Running","proposal_id":"abc"}"#,
        br#"{"sender_id":-1,"message_type":"Proposal","proposed_state":"Running","proposal_id":"abc"}"#,
        br#"{"sender_id":1.0,"message_type":"Proposal","proposed_state":"Running","proposal_id":"abc"}"#,
        br#"{"sender_id":1e3,"message_type":"Proposal","proposed_state":"Running","proposal_id":"abc"}"#,
        br#"{"sender_id":"1","message_type":"Proposal","proposed_state":"Running","proposal_id":"abc"}"#,
        br#"{"sender_id":18446744073709551616,"message_type":"Proposal","proposed_state":"Running","proposal_id":"abc"}"#,
        br#"{"sender_id":99999999999999999999999999,"message_type":"Proposal","proposed_state":"Running","proposal_id":"abc"}"#,
    ];
    for bytes in bad {
        assert_eq!(decode(bytes), None);
    }
}

#[test]
fn decode_accepts_only_the_one_encoding() {
    let other_forms: Vec<&[u8]> = vec![
        br#"{"sender_id":01,"message_type":"Proposal","proposed_state":"Running","proposal_id":"abc"}"#,
        br#"{"sender_id": 1,"message_type":"Proposal","proposed_state":"Running","proposal_id":"abc"}"#,
        br#" {"sender_id":1,"message_type":"Proposal","proposed_state":"Running","proposal_id":"abc"}"#,
        br#"{"sender_id":1,"message_type":"Proposal","proposed_state":"Running","proposal_id":"abc"} "#,
        b"{\"sender_id\":1,\"message_type\":\"Proposal\",\"proposed_state\":\"Running\",\"proposal_id\":\"abc\"}\n",
        br#"{"message_type":"Proposal","sender_id":1,"proposed_state":"Running","proposal_id":"abc"}"#,
        br#"{"sender_id":1,"message_type":"Proposal","proposed_state":"Running","proposal_id":"abc","more":1}"#,
        br#"{"sender_id":1,"message_type":"Proposal","proposed_state":"Running","proposal_id":"abc",}"#,
        br#"{"sender_id":1,"message_type":"Proposal","proposed_state":"Running","proposal_id":"a\/c"}"#,
        br#"{"sender_id":1,"message_type":"Proposal","proposed_state":"Running","proposal_id":"\u000a"}"#,
        br#"{"sender_id":1,"message_type":"Proposal","proposed_state":"Running","proposal_id":"\u001F"}"#,
        b"{\"sender_id\":1,\"message_type\":\"Proposal\",\"proposed_state\":\"Running\",\"proposal_id\":\"a\tb\"}",
        br#"{"sender_id":1,"message_type":"Proposal","proposed_state":"Running","proposal_id":"a\"}"#,
        br#"{"sender_id":1,"message_type":"Proposal","proposed_state":"Running","proposal_id":"a\x"}"#,
        br#"{"sender_id":1,"message_type":"Proposal","proposed_state":"Running","proposal_id":"a\u00"}"#,
    ];
    for bytes in other_forms {
        assert_eq!(decode(bytes), None);
    }
}

#[test]
fn decode_rejects_two_messages_in_one_read() {
    let m = message(1, MessageType::Proposal, State::Running, "abc");
    let mut twice = encode(&m);
    twice.extend_from_slice(&encode(&m));
    assert_eq!(decode(&twice), None);
    let once = encode(&m);
    assert_eq!(decode(&once[..once.len() - 1]), None);
    assert_eq!(decode(&once[1..]), None);
}

#[test]
fn what_decodes_encodes_to_the_same_bytes() {
    let bytes = br#"{"sender_id":65535,"message_type":"Acknowledgment","proposed_state":"Init","proposal_id":"q\\r\u0000"}"#;
    let decoded = decode(bytes).expect("well-formed");
    assert_eq!(encode(&decoded), bytes.to_vec());
}

#[test]
fn different_messages_have_different_encodings() {
    let base = message(1, MessageType::Proposal, State::Running, "abc");
    let others = vec![
        message(2, MessageType::Proposal, State::Running, "abc"),
        message(1, MessageType::Commit, State::Running, "abc"),
        message(1, MessageType::Proposal, State::Stopped, "abc"),
        message(1, MessageType::Proposal, State::Running, "abd"),
        message(1, MessageType::Proposal, State::Running, "abc\""),
    ];
    for other in others {
        assert_ne!(encode(&base), encode(&other));
    }
}

#[test]
fn encoding_is_what_serde_json_writes() {
    for id in awkward_identifiers() {
        for sender in [0u64, 7, u64::MAX] {
            let m = message(sender, MessageType::Proposal, State::Running, &id);
            let written = serde_json::to_vec(&as_json(&m)).expect("a value serializes");
            assert_eq!(encode(&m), written);
        }
    }
}

#[test]
fn encoding_is_read_by_serde_json() {
    for id in awkward_identifiers() {
        let m = message(123456789, MessageType::Acknowledgment, State::Init, &id);
        let value: serde_json::Value = serde_json::from_slice(&encode(&m)).expect("valid JSON");
        assert_eq!(value, as_json(&m));
        assert_eq!(value["sender_id"].as_u64(), Some(123456789));
        assert_eq!(value["message_type"].as_str(), Some("Acknowledgment"));
        assert_eq!(value["proposed_state"].as_str(), Some("Init"));
        assert_eq!(value["proposal_id"].as_str(), Some(id.as_str()));
    }
}

#[test]
fn message_equality_compares_every_field() {
    let base = message(1, MessageType::Proposal, State::Running, "abc");
    assert_eq!(base, message(1, MessageType::Proposal, State::Running, "abc"));
    assert_eq!(base.clone(), base);
    assert_ne!(base, message(2, MessageType::Proposal, State::Running, "abc"));
    assert_ne!(base, message(1, MessageType::Acknowledgment, State::Running, "abc"));
    assert_ne!(base, message(1, MessageType::Proposal, State::Init, "abc"));
    assert_ne!(base, message(1, MessageType::Proposal, State::Running, "abC"));
}

/// A small deterministic generator, so that the sweep below is the same
/// on every run.
fn next(seed: &mut u64) -> u64 {
    *seed = seed.wrapping_mul(6364136223846793005).wrapping_add(1442695040888963407);
    *seed >> 16
}

fn generated_identifier(seed: &mut u64) -> String {
    let length = (next(seed) % 24) as usize;
    let mut text = String::new();
    for _ in 0..length {
        let c = match next(seed) % 6 {
            0 => char::from_u32((next(seed) % 0x20) as u32),
            1 => char::from_u32((0x20 + next(seed) % 0x60) as u32),
            2 => Some('"'),
            3 => Some('\\'),
            4 => char::from_u32((0x80 + next(seed) % 0x780) as u32),
            _ => char::from_u32((0x1f300 + next(seed) % 0x100) as u32),
        };
        text.push(c.unwrap_or('?'));
    }
    text
}

#[test]
fn sweep_agrees_with_serde_json_and_round_trips() {
    let types = [MessageType::Proposal, MessageType::Acknowledgment, MessageType::Commit];
    let states = [State::Init, State::Running, State::Stopped];
    let mut seed: u64 = 0x5eed;
    for round in 0..2000usize {
        let sender = if round % 3 == 0 { next(&mut seed) % 1000 } else { next(&mut seed) << 16 };
        let id = generated_identifier(&mut seed);
        let m = message(sender, types[round % 3], states[(round / 3) % 3], &id);
        let bytes = encode(&m);
        assert_eq!(bytes, serde_json::to_vec(&as_json(&m)).expect("a value serializes"));
        assert_eq!(decode(&bytes), Some(m));
    }
}
