//! Concurrent handlers sharing one store: many tasks, each taking the lock
//! only for the duration of a single request, exactly as the server's
//! per-connection tasks do.

use std::sync::Arc;

use tokio::sync::Mutex;

use dhtshare::dht::DHT;
use dhtshare::network::handle_request_line;
use dhtshare::parse::decode_message;
use dhtshare::protocol::Message;
use dhtshare::protocol::encode_message;

fn runtime() -> tokio::runtime::Runtime {
    tokio::runtime::Builder::new_multi_thread()
        .worker_threads(4)
        .enable_all()
        .build()
        .unwrap()
}

/// One request/response exchange, as a connection handler performs it.
async fn serve_one(store: &Arc<Mutex<DHT>>, msg: &Message) -> Option<Message> {
    let line = encode_message(msg);
    let outcome = {
        let mut guard = store.lock().await;
        handle_request_line(&mut guard, line.as_str())
    };
    match outcome {
        Ok(reply_line) => decode_message(reply_line.as_str()).ok(),
        Err(_) => None,
    }
}

#[test]
fn concurrent_stores_distinct_keys_all_retrievable() {
    let rt = runtime();
    rt.block_on(async {
        let store = Arc::new(Mutex::new(DHT::new()));
        let mut handles = Vec::new();
        for i in 0..8 {
            let store = store.clone();
            handles.push(tokio::spawn(async move {
                let reply = serve_one(
                    &store,
                    &Message::Store { key: format!("key{}", i), value: format!("val{}", i) },
                )
                .await
                .unwrap();
                assert_eq!(reply, Message::Ack);
            }));
        }
        for h in handles {
            h.await.unwrap();
        }
        for i in 0..8 {
            let reply = serve_one(&store, &Message::Lookup { key: format!("key{}", i) })
                .await
                .unwrap();
            assert_eq!(
                reply,
                Message::Store { key: format!("key{}", i), value: format!("val{}", i) }
            );
        }
    });
}

#[test]
fn concurrent_stores_same_key_leave_one_submitted_value() {
    let rt = runtime();
    rt.block_on(async {
        let store = Arc::new(Mutex::new(DHT::new()));
        let mut handles = Vec::new();
        for i in 0..8 {
            let store = store.clone();
            handles.push(tokio::spawn(async move {
                let reply = serve_one(
                    &store,
                    &Message::Store { key: String::from("shared"), value: format!("w{}", i) },
                )
                .await
                .unwrap();
                assert_eq!(reply, Message::Ack);
            }));
        }
        for h in handles {
            h.await.unwrap();
        }
        let reply = serve_one(&store, &Message::Lookup { key: String::from("shared") })
            .await
            .unwrap();
        match reply {
            Message::Store { key, value } => {
                assert_eq!(key, String::from("shared"));
                let submitted: Vec<String> = (0..8).map(|i| format!("w{}", i)).collect();
                assert!(submitted.contains(&value));
            },
            other => panic!("expected a Store-shaped reply, got {:?}", other),
        }
    });
}

#[test]
fn scenario_three_clients_in_order() {
    let rt = runtime();
    rt.block_on(async {
        let store = Arc::new(Mutex::new(DHT::new()));

        // Client A stores alpha -> 1 and is acknowledged.
        let a = serve_one(
            &store,
            &Message::Store { key: String::from("alpha"), value: String::from("1") },
        )
        .await
        .unwrap();
        assert_eq!(a, Message::Ack);

        // Client B looks alpha up and receives the Store-shaped carrier.
        let b = serve_one(&store, &Message::Lookup { key: String::from("alpha") })
            .await
            .unwrap();
        assert_eq!(b, Message::Store { key: String::from("alpha"), value: String::from("1") });

        // Client C looks a missing key up and receives a plain Ack.
        let c = serve_one(&store, &Message::Lookup { key: String::from("missing") })
            .await
            .unwrap();
        assert_eq!(c, Message::Ack);
    });
}

#[test]
fn malformed_request_does_not_stop_later_requests() {
    let rt = runtime();
    rt.block_on(async {
        let store = Arc::new(Mutex::new(DHT::new()));

        // A handler that got garbage reports an error and sends nothing.
        let garbage = {
            let mut guard = store.lock().await;
            handle_request_line(&mut guard, "this is not a message")
        };
        assert!(garbage.is_err());

        // Later connections are served as if nothing happened.
        let reply = serve_one(
            &store,
            &Message::Store { key: String::from("after"), value: String::from("ok") },
        )
        .await
        .unwrap();
        assert_eq!(reply, Message::Ack);
        let reply2 = serve_one(&store, &Message::Lookup { key: String::from("after") })
            .await
            .unwrap();
        assert_eq!(
            reply2,
            Message::Store { key: String::from("after"), value: String::from("ok") }
        );
    });
}
