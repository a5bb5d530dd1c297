//! The message model and its wire encoding.
//!
//! Each message travels as one self-describing JSON object on a single line:
//! `{"Store":{"key":"k","value":"v"}}`, `{"Ping":null}`, and so on, with the
//! line delimiter added by the transport. The encoding is canonical: string
//! fields are escaped with `\"`, `\\`, `\n`, `\r`, `\t` and `\u00XX` (other
//! control characters), byte payloads are decimal byte lists, and the decoder
//! accepts exactly the canonical form — malformed or unrecognized input is a
//! `DecodeError`, never a crash or a silent success.

use vstd::prelude::*;
use vstd::std_specs::cmp::PartialEqSpec;
use crate::text::push_char;
use crate::text::push_str;

verus! {

/// One unit of protocol exchange between nodes.
#[derive(Debug)]
pub enum Message {
    /// Sent by a node to join the network.
    Join { node_id: String },
    /// A heartbeat message to verify node availability.
    Ping,
    /// Response to a `Ping` message.
    Pong,
    /// Instructs the receiver to store a key-value pair.
    /// Also reused as the reply carrying a found value back to a `Lookup`.
    Store { key: String, value: String },
    /// Requests the value associated with a key.
    Lookup { key: String },
    /// Requests a file or a file chunk.
    FileRequest { file_id: String },
    /// Carries the data of a requested file or chunk.
    FileData { file_id: String, data: Vec<u8> },
    /// Acknowledgment, the default reply.
    Ack,
}

/// The mathematical value of a `Message`: the same variants over sequences.
#[verifier::ext_equal]
pub enum MessageV {
    Join { node_id: Seq<char> },
    Ping,
    Pong,
    Store { key: Seq<char>, value: Seq<char> },
    Lookup { key: Seq<char> },
    FileRequest { file_id: Seq<char> },
    FileData { file_id: Seq<char>, data: Seq<u8> },
    Ack,
}

impl View for Message {
    type V = MessageV;

    open spec fn view(&self) -> MessageV {
        match self {
            Message::Join { node_id } => MessageV::Join { node_id: node_id@ },
            Message::Ping => MessageV::Ping,
            Message::Pong => MessageV::Pong,
            Message::Store { key, value } => MessageV::Store { key: key@, value: value@ },
            Message::Lookup { key } => MessageV::Lookup { key: key@ },
            Message::FileRequest { file_id } => MessageV::FileRequest { file_id: file_id@ },
            Message::FileData { file_id, data } => MessageV::FileData {
                file_id: file_id@,
                data: data@,
            },
            Message::Ack => MessageV::Ack,
        }
    }
}

/// Decoding failed: the line is not the canonical encoding of any message.
#[derive(Debug, Clone, Copy, PartialEq, Eq, Structural)]
pub struct DecodeError;

/// The lowercase hexadecimal digit for `n` (0 to 15).
pub open spec fn hex_char(n: int) -> char {
    if n < 10 {
        ((48 + n) as u8) as char
    } else {
        ((87 + n) as u8) as char
    }
}

/// The canonical escape of one character inside a JSON string.
pub open spec fn esc_char(c: char) -> Seq<char> {
    if c == '"' {
        seq!['\\', '"']
    } else if c == '\\' {
        seq!['\\', '\\']
    } else if c == '\n' {
        seq!['\\', 'n']
    } else if c == '\r' {
        seq!['\\', 'r']
    } else if c == '\t' {
        seq!['\\', 't']
    } else if (c as u32) < 32 {
        seq!['\\', 'u', '0', '0', hex_char(c as u32 as int / 16), hex_char(c as u32 as int % 16)]
    } else {
        seq![c]
    }
}

/// The canonical escape of a whole string.
pub open spec fn esc(s: Seq<char>) -> Seq<char>
    decreases s.len(),
{
    if s.len() == 0 {
        Seq::empty()
    } else {
        esc_char(s[0]) + esc(s.drop_first())
    }
}

/// The canonical decimal digits of a byte, with no leading zeros.
pub open spec fn dec_u8(b: u8) -> Seq<char> {
    if b < 10 {
        seq![hex_char(b as int)]
    } else if b < 100 {
        seq![hex_char(b as int / 10), hex_char(b as int % 10)]
    } else {
        seq![hex_char(b as int / 100), hex_char((b as int / 10) % 10), hex_char(b as int % 10)]
    }
}

/// The canonical comma-separated byte list (without the brackets).
pub open spec fn enc_bytes(bs: Seq<u8>) -> Seq<char>
    decreases bs.len(),
{
    if bs.len() == 0 {
        Seq::empty()
    } else if bs.len() == 1 {
        dec_u8(bs[0])
    } else {
        dec_u8(bs[0]) + seq![','] + enc_bytes(bs.drop_first())
    }
}

/// The canonical wire encoding of a message, one line of JSON.
pub open spec fn enc_msg(m: MessageV) -> Seq<char> {
    match m {
        MessageV::Join { node_id } => "{\"Join\":{\"node_id\":\""@ + esc(node_id) + "\"}}"@,
        MessageV::Ping => "{\"Ping\":null}"@,
        MessageV::Pong => "{\"Pong\":null}"@,
        MessageV::Store { key, value } => "{\"Store\":{\"key\":\""@ + esc(key) + "\",\"value\":\""@
            + esc(value) + "\"}}"@,
        MessageV::Lookup { key } => "{\"Lookup\":{\"key\":\""@ + esc(key) + "\"}}"@,
        MessageV::FileRequest { file_id } => "{\"FileRequest\":{\"file_id\":\""@ + esc(file_id)
            + "\"}}"@,
        MessageV::FileData { file_id, data } => "{\"FileData\":{\"file_id\":\""@ + esc(file_id)
            + "\",\"data\":["@ + enc_bytes(data) + "]}}"@,
        MessageV::Ack => "{\"Ack\":null}"@,
    }
}

proof fn lemma_esc_push(s: Seq<char>, c: char)
    ensures
        esc(s.push(c)) == esc(s) + esc_char(c),
    decreases s.len(),
{
    if s.len() == 0 {
        assert(s.push(c)[0] == c);
        assert(s.push(c).drop_first() =~= Seq::<char>::empty());
        assert(esc(Seq::<char>::empty()) == Seq::<char>::empty());
        assert(esc(s.push(c)) =~= esc_char(c));
        assert(esc(s) + esc_char(c) =~= esc_char(c));
    } else {
        assert(s.push(c)[0] == s[0]);
        assert(s.push(c).drop_first() =~= s.drop_first().push(c));
        lemma_esc_push(s.drop_first(), c);
        assert(esc(s.push(c)) =~= esc(s) + esc_char(c));
    }
}

proof fn lemma_enc_bytes_push(bs: Seq<u8>, b: u8)
    ensures
        bs.len() == 0 ==> enc_bytes(bs.push(b)) == dec_u8(b),
        bs.len() > 0 ==> enc_bytes(bs.push(b)) == enc_bytes(bs) + seq![','] + dec_u8(b),
    decreases bs.len(),
{
    if bs.len() == 0 {
        assert(bs.push(b)[0] == b);
        assert(bs.push(b).len() == 1);
    } else {
        assert(bs.push(b)[0] == bs[0]);
        assert(bs.push(b).drop_first() =~= bs.drop_first().push(b));
        lemma_enc_bytes_push(bs.drop_first(), b);
        assert(enc_bytes(bs.push(b)) =~= enc_bytes(bs) + seq![','] + dec_u8(b));
    }
}

/// The lowercase hexadecimal digit for `n`, executable.
fn hex_digit(n: u32) -> (c: char)
    requires
        n < 16,
    ensures
        c == hex_char(n as int),
{
    if n < 10 {
        (48 + n) as u8 as char
    } else {
        (87 + n) as u8 as char
    }
}

/// Appends the canonical escape of `c` to `out`.
fn esc_char_into(out: &mut String, c: char)
    ensures
        final(out)@ == old(out)@ + esc_char(c),
{
    if c == '"' {
        push_char(out, '\\');
        push_char(out, '"');
    } else if c == '\\' {
        push_char(out, '\\');
        push_char(out, '\\');
    } else if c == '\n' {
        push_char(out, '\\');
        push_char(out, 'n');
    } else if c == '\r' {
        push_char(out, '\\');
        push_char(out, 'r');
    } else if c == '\t' {
        push_char(out, '\\');
        push_char(out, 't');
    } else if (c as u32) < 32 {
        let v = c as u32;
        push_char(out, '\\');
        push_char(out, 'u');
        push_char(out, '0');
        push_char(out, '0');
        push_char(out, hex_digit(v / 16));
        push_char(out, hex_digit(v % 16));
        proof {
            assert(out@ =~= old(out)@ + esc_char(c));
        }
    } else {
        push_char(out, c);
    }
    proof {
        assert(out@ =~= old(out)@ + esc_char(c));
    }
}

/// Appends the canonical escape of the whole string `s` to `out`.
fn esc_into(out: &mut String, s: &str)
    ensures
        final(out)@ == old(out)@ + esc(s@),
{
    let n = s.unicode_len();
    let mut i: usize = 0;
    proof {
        assert(s@.subrange(0, 0) =~= Seq::<char>::empty());
        assert(out@ =~= old(out)@ + esc(s@.subrange(0, 0)));
    }
    while i < n
        invariant
            n == s@.len(),
            i <= n,
            out@ == old(out)@ + esc(s@.subrange(0, i as int)),
        decreases n - i,
    {
        let c = s.get_char(i);
        esc_char_into(out, c);
        proof {
            assert(s@.subrange(0, i + 1) =~= s@.subrange(0, i as int).push(c));
            lemma_esc_push(s@.subrange(0, i as int), c);
            assert(out@ =~= old(out)@ + esc(s@.subrange(0, i + 1)));
        }
        i += 1;
    }
    proof {
        assert(s@.subrange(0, n as int) =~= s@);
    }
}

/// Appends the canonical decimal digits of `b` to `out`.
fn dec_u8_into(out: &mut String, b: u8)
    ensures
        final(out)@ == old(out)@ + dec_u8(b),
{
    if b < 10 {
        push_char(out, hex_digit(b as u32));
        proof {
            assert(out@ =~= old(out)@ + dec_u8(b));
        }
    } else if b < 100 {
        push_char(out, hex_digit((b / 10) as u32));
        push_char(out, hex_digit((b % 10) as u32));
        proof {
            assert(out@ =~= old(out)@ + dec_u8(b));
        }
    } else {
        push_char(out, hex_digit((b / 100) as u32));
        push_char(out, hex_digit(((b / 10) % 10) as u32));
        push_char(out, hex_digit((b % 10) as u32));
        proof {
            assert(out@ =~= old(out)@ + dec_u8(b));
        }
    }
}

/// Appends the canonical byte list of `data` to `out`.
fn enc_bytes_into(out: &mut String, data: &Vec<u8>)
    ensures
        final(out)@ == old(out)@ + enc_bytes(data@),
{
    let n = data.len();
    let mut i: usize = 0;
    proof {
        assert(data@.subrange(0, 0) =~= Seq::<u8>::empty());
        assert(out@ =~= old(out)@ + enc_bytes(data@.subrange(0, 0)));
    }
    while i < n
        invariant
            n == data@.len(),
            i <= n,
            out@ == old(out)@ + enc_bytes(data@.subrange(0, i as int)),
        decreases n - i,
    {
        if i > 0 {
            push_char(out, ',');
        }
        let b = data[i];
        dec_u8_into(out, b);
        proof {
            assert(data@.subrange(0, i + 1) =~= data@.subrange(0, i as int).push(b));
            lemma_enc_bytes_push(data@.subrange(0, i as int), b);
            assert(out@ =~= old(out)@ + enc_bytes(data@.subrange(0, i + 1)));
        }
        i += 1;
    }
    proof {
        assert(data@.subrange(0, n as int) =~= data@);
    }
}

/// Encodes a message as its canonical one-line JSON form.
pub fn encode_message(m: &Message) -> (s: String)
    ensures
        s@ == enc_msg(m@),
{
    let mut out = String::new();
    match m {
        Message::Join { node_id } => {
            push_str(&mut out, "{\"Join\":{\"node_id\":\"");
            esc_into(&mut out, node_id.as_str());
            push_str(&mut out, "\"}}");
        },
        Message::Ping => {
            push_str(&mut out, "{\"Ping\":null}");
        },
        Message::Pong => {
            push_str(&mut out, "{\"Pong\":null}");
        },
        Message::Store { key, value } => {
            push_str(&mut out, "{\"Store\":{\"key\":\"");
            esc_into(&mut out, key.as_str());
            push_str(&mut out, "\",\"value\":\"");
            esc_into(&mut out, value.as_str());
            push_str(&mut out, "\"}}");
        },
        Message::Lookup { key } => {
            push_str(&mut out, "{\"Lookup\":{\"key\":\"");
            esc_into(&mut out, key.as_str());
            push_str(&mut out, "\"}}");
        },
        Message::FileRequest { file_id } => {
            push_str(&mut out, "{\"FileRequest\":{\"file_id\":\"");
            esc_into(&mut out, file_id.as_str());
            push_str(&mut out, "\"}}");
        },
        Message::FileData { file_id, data } => {
            push_str(&mut out, "{\"FileData\":{\"file_id\":\"");
            esc_into(&mut out, file_id.as_str());
            push_str(&mut out, "\",\"data\":[");
            enc_bytes_into(&mut out, data);
            push_str(&mut out, "]}}");
        },
        Message::Ack => {
            push_str(&mut out, "{\"Ack\":null}");
        },
    }
    proof {
        assert(out@ =~= enc_msg(m@));
    }
    out
}


impl PartialEq for Message {
    /// Structural equality: same variant, equal fields.
    fn eq(&self, other: &Message) -> (r: bool) {
        match (self, other) {
            (Message::Join { node_id: a }, Message::Join { node_id: b }) => {
                let e = *a == *b;
                proof {
                    assert(e ==> self@ == other@);
                    assert(!e ==> self@ != other@);
                }
                e
            },
            (Message::Ping, Message::Ping) => true,
            (Message::Pong, Message::Pong) => true,
            (
                Message::Store { key: k1, value: v1 },
                Message::Store { key: k2, value: v2 },
            ) => {
                let e = *k1 == *k2 && *v1 == *v2;
                proof {
                    assert(e ==> self@ == other@);
                    assert(!e ==> self@ != other@);
                }
                e
            },
            (Message::Lookup { key: a }, Message::Lookup { key: b }) => {
                let e = *a == *b;
                proof {
                    assert(e ==> self@ == other@);
                    assert(!e ==> self@ != other@);
                }
                e
            },
            (Message::FileRequest { file_id: a }, Message::FileRequest { file_id: b }) => {
                let e = *a == *b;
                proof {
                    assert(e ==> self@ == other@);
                    assert(!e ==> self@ != other@);
                }
                e
            },
            (
                Message::FileData { file_id: a, data: d1 },
                Message::FileData { file_id: b, data: d2 },
            ) => {
                let fe = *a == *b;
                let de = *d1 == *d2;
                proof {
                    if de {
                        assert(d1@ =~= d2@);
                    } else {
                        if d1@ == d2@ {
                            assert(d1.eq_spec(d2));
                        }
                    }
                }
                fe && de
            },
            (Message::Ack, Message::Ack) => true,
            _ => false,
        }
    }
}

impl vstd::std_specs::cmp::PartialEqSpecImpl for Message {
    open spec fn obeys_eq_spec() -> bool {
        true
    }

    open spec fn eq_spec(&self, other: &Message) -> bool {
        self@ == other@
    }
}

} // verus!
