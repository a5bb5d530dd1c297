//! The server-side connection handler logic.
//!
//! A handler reads one line, decodes it, dispatches the message against the
//! store, and encodes one reply. Everything except the socket reads and
//! writes lives here: `handle_request_line` maps the received line and the
//! store's state to the reply line and the store's next state. The documented
//! error policy: a line that decodes to no message is reported as a
//! `DecodeError` to the caller and no reply is sent; the store is untouched.
//!
//! A found value is carried back to a `Lookup` inside a `Store`-shaped
//! message (a lookup result in a `Store` carrier): a deliberate protocol
//! economy, not a request to store anything.

use vstd::prelude::*;
use crate::dht::DHT;
use crate::parse::decode_message;
use crate::protocol::DecodeError;
use crate::protocol::Message;
use crate::protocol::MessageV;
use crate::protocol::enc_msg;
use crate::protocol::encode_message;

verus! {

/// The reply the handler owes for `m` when the store holds `s`.
pub open spec fn reply_for(m: MessageV, s: Map<Seq<char>, Seq<char>>) -> MessageV {
    match m {
        MessageV::Lookup { key } => {
            if s.contains_key(key) {
                MessageV::Store { key: key, value: s[key] }
            } else {
                MessageV::Ack
            }
        },
        _ => MessageV::Ack,
    }
}

/// The store's state after the handler acts on `m` in state `s`.
pub open spec fn store_after(m: MessageV, s: Map<Seq<char>, Seq<char>>) -> Map<
    Seq<char>,
    Seq<char>,
> {
    match m {
        MessageV::Store { key, value } => s.insert(key, value),
        _ => s,
    }
}

/// Acts on one decoded message: mutates or queries the store and returns
/// the reply message.
pub fn dispatch(store: &mut DHT, msg: Message) -> (reply: Message)
    requires
        old(store).wf(),
    ensures
        final(store).wf(),
        final(store)@ == store_after(msg@, old(store)@),
        reply@ == reply_for(msg@, old(store)@),
{
    match msg {
        Message::Store { key, value } => {
            store.insert(key, value);
            Message::Ack
        },
        Message::Lookup { key } => {
            match store.lookup(key.as_str()) {
                Some(value) => Message::Store { key, value },
                None => Message::Ack,
            }
        },
        _ => Message::Ack,
    }
}

/// Handles one request line: decodes, dispatches, encodes the reply line.
/// On a malformed line the store is untouched and the error is returned;
/// the caller sends no reply.
pub fn handle_request_line(store: &mut DHT, line: &str) -> (r: Result<String, DecodeError>)
    requires
        old(store).wf(),
    ensures
        final(store).wf(),
        forall|mv: MessageV| line@ == enc_msg(mv) ==> {
            &&& r matches Ok(out) && out@ == enc_msg(reply_for(mv, old(store)@))
            &&& final(store)@ == store_after(mv, old(store)@)
        },
        (forall|mv: MessageV| line@ != enc_msg(mv)) ==> {
            &&& r is Err
            &&& final(store)@ == old(store)@
        },
{
    match decode_message(line) {
        Ok(msg) => {
            let reply = dispatch(store, msg);
            Ok(encode_message(&reply))
        },
        Err(e) => Err(e),
    }
}

/// Write-then-read consistency: storing under `k` makes the handler answer
/// a lookup of `k` with a `Store`-shaped reply carrying exactly the stored
/// value, and the storing request itself is acknowledged.
pub proof fn lemma_store_then_lookup(s: Map<Seq<char>, Seq<char>>, k: Seq<char>, v: Seq<char>)
    ensures
        reply_for(MessageV::Store { key: k, value: v }, s) == MessageV::Ack,
        reply_for(
            MessageV::Lookup { key: k },
            store_after(MessageV::Store { key: k, value: v }, s),
        ) == (MessageV::Store { key: k, value: v }),
{
}

/// A key never stored is answered with a plain `Ack`.
pub proof fn lemma_lookup_absent(s: Map<Seq<char>, Seq<char>>, k: Seq<char>)
    requires
        !s.contains_key(k),
    ensures
        reply_for(MessageV::Lookup { key: k }, s) == MessageV::Ack,
{
}

/// Stores under distinct keys do not interfere: in whichever order the two
/// serialized mutations land, both values are retrievable afterwards, and
/// the resulting store state is the same.
pub proof fn lemma_distinct_stores_commute(
    s: Map<Seq<char>, Seq<char>>,
    k1: Seq<char>,
    v1: Seq<char>,
    k2: Seq<char>,
    v2: Seq<char>,
)
    requires
        k1 != k2,
    ensures
        ({
            let s12 = store_after(
                MessageV::Store { key: k2, value: v2 },
                store_after(MessageV::Store { key: k1, value: v1 }, s),
            );
            &&& s12.contains_key(k1) && s12[k1] == v1
            &&& s12.contains_key(k2) && s12[k2] == v2
            &&& s12 == store_after(
                MessageV::Store { key: k1, value: v1 },
                store_after(MessageV::Store { key: k2, value: v2 }, s),
            )
        }),
{
    let s12 = s.insert(k1, v1).insert(k2, v2);
    let s21 = s.insert(k2, v2).insert(k1, v1);
    assert(s12 =~= s21);
}

/// Stores to the same key leave exactly one of the submitted values: the
/// later of the two serialized mutations wins, in either order, and the
/// store is never left with anything other than one of them.
pub proof fn lemma_same_key_last_write_wins(
    s: Map<Seq<char>, Seq<char>>,
    k: Seq<char>,
    v1: Seq<char>,
    v2: Seq<char>,
)
    ensures
        ({
            let s12 = store_after(
                MessageV::Store { key: k, value: v2 },
                store_after(MessageV::Store { key: k, value: v1 }, s),
            );
            s12.contains_key(k) && s12[k] == v2
        }),
        ({
            let s21 = store_after(
                MessageV::Store { key: k, value: v1 },
                store_after(MessageV::Store { key: k, value: v2 }, s),
            );
            s21.contains_key(k) && s21[k] == v1
        }),
{
}


} // verus!
