use dhtshare::dht::DHT;
use dhtshare::network::dispatch;
use dhtshare::network::handle_request_line;
use dhtshare::protocol::DecodeError;
use dhtshare::protocol::Message;
use dhtshare::protocol::encode_message;

#[test]
fn store_request_is_acknowledged_and_stored() {
    let mut d = DHT::new();
    let reply = dispatch(
        &mut d,
        Message::Store { key: String::from("alpha"), value: String::from("1") },
    );
    assert_eq!(reply, Message::Ack);
    assert_eq!(d.lookup("alpha"), Some(String::from("1")));
}

#[test]
fn lookup_hit_replies_with_store_shaped_carrier() {
    let mut d = DHT::new();
    dispatch(&mut d, Message::Store { key: String::from("alpha"), value: String::from("1") });
    let reply = dispatch(&mut d, Message::Lookup { key: String::from("alpha") });
    assert_eq!(reply, Message::Store { key: String::from("alpha"), value: String::from("1") });
}

#[test]
fn lookup_miss_replies_with_ack() {
    let mut d = DHT::new();
    let reply = dispatch(&mut d, Message::Lookup { key: String::from("missing") });
    assert_eq!(reply, Message::Ack);
}

#[test]
fn other_messages_are_acknowledged_only() {
    let mut d = DHT::new();
    assert_eq!(dispatch(&mut d, Message::Ping), Message::Ack);
    assert_eq!(dispatch(&mut d, Message::Pong), Message::Ack);
    assert_eq!(dispatch(&mut d, Message::Join { node_id: String::from("n") }), Message::Ack);
    assert_eq!(
        dispatch(&mut d, Message::FileRequest { file_id: String::from("f") }),
        Message::Ack
    );
    assert_eq!(
        dispatch(&mut d, Message::FileData { file_id: String::from("f"), data: vec![1, 2] }),
        Message::Ack
    );
    assert_eq!(dispatch(&mut d, Message::Ack), Message::Ack);
    assert_eq!(d.lookup("n"), None);
}

#[test]
fn request_lines_drive_the_store() {
    let mut d = DHT::new();
    let store_line = encode_message(&Message::Store {
        key: String::from("alpha"),
        value: String::from("1"),
    });
    let reply = handle_request_line(&mut d, store_line.as_str()).unwrap();
    assert_eq!(reply, encode_message(&Message::Ack));

    let lookup_line = encode_message(&Message::Lookup { key: String::from("alpha") });
    let reply2 = handle_request_line(&mut d, lookup_line.as_str()).unwrap();
    assert_eq!(
        reply2,
        encode_message(&Message::Store { key: String::from("alpha"), value: String::from("1") })
    );

    let miss_line = encode_message(&Message::Lookup { key: String::from("missing") });
    let reply3 = handle_request_line(&mut d, miss_line.as_str()).unwrap();
    assert_eq!(reply3, encode_message(&Message::Ack));
}

#[test]
fn malformed_line_reports_error_and_leaves_store_working() {
    let mut d = DHT::new();
    let store_line = encode_message(&Message::Store {
        key: String::from("k"),
        value: String::from("v"),
    });
    handle_request_line(&mut d, store_line.as_str()).unwrap();

    assert_eq!(handle_request_line(&mut d, "this is not a message"), Err(DecodeError));
    assert_eq!(handle_request_line(&mut d, "{\"Unknown\":{}}"), Err(DecodeError));

    // The store is untouched and the handler keeps serving.
    let lookup_line = encode_message(&Message::Lookup { key: String::from("k") });
    let reply = handle_request_line(&mut d, lookup_line.as_str()).unwrap();
    assert_eq!(
        reply,
        encode_message(&Message::Store { key: String::from("k"), value: String::from("v") })
    );
}
