use dhtshare::parse::decode_message;
use dhtshare::protocol::DecodeError;
use dhtshare::protocol::Message;
use dhtshare::protocol::encode_message;

fn round_trip(m: Message) {
    let line = encode_message(&m);
    let back = decode_message(line.as_str()).expect("canonical encoding must decode");
    assert_eq!(back, m);
}

#[test]
fn round_trip_join() {
    round_trip(Message::Join { node_id: String::from("node1") });
    round_trip(Message::Join { node_id: String::from("") });
}

#[test]
fn round_trip_ping_pong_ack() {
    round_trip(Message::Ping);
    round_trip(Message::Pong);
    round_trip(Message::Ack);
}

#[test]
fn round_trip_store_lookup() {
    round_trip(Message::Store { key: String::from("alpha"), value: String::from("1") });
    round_trip(Message::Store { key: String::from(""), value: String::from("") });
    round_trip(Message::Lookup { key: String::from("alpha") });
}

#[test]
fn round_trip_file_request() {
    round_trip(Message::FileRequest { file_id: String::from("chunk-7") });
}

#[test]
fn round_trip_file_data_arbitrary_bytes() {
    let data: Vec<u8> = vec![0, 1, 9, 10, 13, 31, 32, 65, 127, 128, 200, 254, 255];
    round_trip(Message::FileData { file_id: String::from("f"), data });
    round_trip(Message::FileData { file_id: String::from("empty"), data: Vec::new() });
    let all: Vec<u8> = (0u8..=255u8).collect();
    round_trip(Message::FileData { file_id: String::from("all"), data: all });
}

#[test]
fn round_trip_special_characters_in_strings() {
    round_trip(Message::Store {
        key: String::from("line\nbreak"),
        value: String::from("quote\" back\\slash"),
    });
    round_trip(Message::Store {
        key: String::from("tab\tret\r"),
        value: String::from("ctrl\u{1}\u{1f}"),
    });
    round_trip(Message::Join { node_id: String::from("unicode \u{3b1}\u{3b2}\u{10348}") });
}

#[test]
fn exact_wire_forms() {
    assert_eq!(
        encode_message(&Message::Store {
            key: String::from("alpha"),
            value: String::from("1"),
        }),
        "{\"Store\":{\"key\":\"alpha\",\"value\":\"1\"}}"
    );
    assert_eq!(encode_message(&Message::Ping), "{\"Ping\":null}");
    assert_eq!(encode_message(&Message::Ack), "{\"Ack\":null}");
    assert_eq!(
        encode_message(&Message::Lookup { key: String::from("k") }),
        "{\"Lookup\":{\"key\":\"k\"}}"
    );
    assert_eq!(
        encode_message(&Message::FileData { file_id: String::from("f"), data: vec![0, 10, 255] }),
        "{\"FileData\":{\"file_id\":\"f\",\"data\":[0,10,255]}}"
    );
    assert_eq!(
        encode_message(&Message::Join { node_id: String::from("a\nb") }),
        "{\"Join\":{\"node_id\":\"a\\nb\"}}"
    );
    assert_eq!(
        encode_message(&Message::Join { node_id: String::from("\u{1}") }),
        "{\"Join\":{\"node_id\":\"\\u0001\"}}"
    );
}

#[test]
fn encoded_line_never_holds_a_raw_newline() {
    let m = Message::Store {
        key: String::from("a\nb\rc"),
        value: String::from("x\ny"),
    };
    let line = encode_message(&m);
    assert!(!line.contains('\n'));
    assert!(!line.contains('\r'));
}

#[test]
fn malformed_lines_are_rejected() {
    let bad = [
        "",
        "not json at all",
        "{\"Nope\":null}",
        "{\"Ping\":true}",
        "{\"Ping\":null} ",
        "x{\"Ping\":null}",
        "{\"Store\":{\"key\":\"a\"}}",
        "{\"Store\":{\"key\":\"a\",\"value\":\"b\"}",
        "{\"Lookup\":{\"key\":\"a}}",
        "{\"Join\":{\"node_id\":\"a\\q\"}}",
        "{ \"Ping\": null }",
    ];
    for line in bad.iter() {
        assert_eq!(decode_message(line), Err(DecodeError));
    }
}

#[test]
fn non_canonical_forms_are_rejected() {
    // Leading zeros, out-of-range bytes, a trailing comma, and escapes that
    // denote a character whose canonical form is different.
    let bad = [
        "{\"FileData\":{\"file_id\":\"f\",\"data\":[01]}}",
        "{\"FileData\":{\"file_id\":\"f\",\"data\":[256]}}",
        "{\"FileData\":{\"file_id\":\"f\",\"data\":[1,]}}",
        "{\"FileData\":{\"file_id\":\"f\",\"data\":[1 ,2]}}",
        "{\"Join\":{\"node_id\":\"\\u0041\"}}",
        "{\"Join\":{\"node_id\":\"\\u000a\"}}",
        "{\"Join\":{\"node_id\":\"\\u00A1\"}}",
    ];
    for line in bad.iter() {
        assert_eq!(decode_message(line), Err(DecodeError));
    }
}

#[test]
fn canonical_escape_forms_are_accepted() {
    let m = decode_message("{\"Join\":{\"node_id\":\"\\u0001\"}}").unwrap();
    assert_eq!(m, Message::Join { node_id: String::from("\u{1}") });
    let m2 = decode_message("{\"Store\":{\"key\":\"\\\"\",\"value\":\"\\\\\"}}").unwrap();
    assert_eq!(m2, Message::Store { key: String::from("\""), value: String::from("\\") });
}
