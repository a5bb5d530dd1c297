//! The decoding side of the wire codec.
//!
//! A specification-level parser (`unesc_prefix`, `parse_u8_prefix`,
//! `parse_bytes_prefix`) pins down exactly which character sequences are
//! accepted; the executable parser is proved to implement it. Two lemmas tie
//! the parser to the encoder: parsing an escaped string (or byte list)
//! followed by its closing delimiter yields exactly the original value, and
//! whatever the parser accepts is the canonical encoding of what it returns.

use vstd::prelude::*;
use crate::protocol::dec_u8;
use crate::protocol::enc_bytes;
use crate::protocol::esc;
use crate::protocol::esc_char;
use crate::protocol::hex_char;
use crate::protocol::enc_msg;
use crate::protocol::Message;
use crate::protocol::MessageV;
use crate::protocol::DecodeError;
use crate::text::str_eq;
use crate::text::starts_with_at;

verus! {

broadcast use vstd::utf8::char_is_scalar, vstd::utf8::char_u32_cast;

/// Is `c` a decimal digit?
pub open spec fn is_digit(c: char) -> bool {
    48 <= (c as u32) <= 57
}

/// Is `c` a lowercase hexadecimal digit?
pub open spec fn is_hex_lower(c: char) -> bool {
    is_digit(c) || (97 <= (c as u32) <= 102)
}

/// The value of a lowercase hexadecimal digit.
pub open spec fn hex_val(c: char) -> int {
    if is_digit(c) {
        (c as u32) - 48
    } else {
        (c as u32) - 87
    }
}

/// The character denoted by a named escape (`\"`, `\\`, `\n`, `\r`, `\t`).
pub open spec fn unesc_named(c: char) -> char {
    if c == '"' {
        '"'
    } else if c == '\\' {
        '\\'
    } else if c == 'n' {
        '\n'
    } else if c == 'r' {
        '\r'
    } else {
        '\t'
    }
}

/// Parses an escaped string up to (and not including) the first unescaped
/// quote: returns the unescaped characters and the index of that quote.
/// `None` when the input up to a quote is not a canonical escape encoding.
pub open spec fn unesc_prefix(u: Seq<char>) -> Option<(Seq<char>, int)>
    decreases u.len(),
{
    if u.len() == 0 {
        None
    } else if u[0] == '"' {
        Some((Seq::empty(), 0))
    } else if u[0] != '\\' {
        if (u[0] as u32) < 32 {
            None
        } else {
            match unesc_prefix(u.drop_first()) {
                Some(p) => Some((seq![u[0]] + p.0, 1 + p.1)),
                None => None,
            }
        }
    } else if u.len() < 2 {
        None
    } else if u[1] == '"' || u[1] == '\\' || u[1] == 'n' || u[1] == 'r' || u[1] == 't' {
        match unesc_prefix(u.skip(2)) {
            Some(p) => Some((seq![unesc_named(u[1])] + p.0, 2 + p.1)),
            None => None,
        }
    } else if u[1] == 'u' {
        if u.len() >= 6 && u[2] == '0' && u[3] == '0' && is_hex_lower(u[4]) && is_hex_lower(u[5]) {
            let v = 16 * hex_val(u[4]) + hex_val(u[5]);
            if v < 32 && v != 9 && v != 10 && v != 13 {
                match unesc_prefix(u.skip(6)) {
                    Some(p) => Some((seq![((v as u8) as char)] + p.0, 6 + p.1)),
                    None => None,
                }
            } else {
                None
            }
        } else {
            None
        }
    } else {
        None
    }
}

proof fn lemma_hex_char_val(x: int)
    requires
        0 <= x < 16,
    ensures
        is_hex_lower(hex_char(x)),
        hex_val(hex_char(x)) == x,
    {
}

proof fn lemma_hex_val_char(c: char)
    requires
        is_hex_lower(c),
    ensures
        0 <= hex_val(c) < 16,
        hex_char(hex_val(c)) == c,
{
}

/// Unfolds `esc` on a sequence split into head and tail.
proof fn lemma_esc_cons(c: char, w: Seq<char>)
    ensures
        esc(seq![c] + w) == esc_char(c) + esc(w),
{
    assert((seq![c] + w)[0] == c);
    assert((seq![c] + w).drop_first() =~= w);
    assert(esc(seq![c] + w) =~= esc_char(c) + esc(w));
}

/// Parsing the escape of `t`, followed by a quote and anything at all,
/// succeeds and returns exactly `t`.
proof fn lemma_unesc_esc(t: Seq<char>, rest: Seq<char>)
    ensures
        unesc_prefix(esc(t) + seq!['"'] + rest) == Some((t, esc(t).len() as int)),
    decreases t.len(),
{
    let u = esc(t) + seq!['"'] + rest;
    if t.len() == 0 {
        assert(esc(t) == Seq::<char>::empty());
        assert(u[0] == '"');
        assert(t =~= Seq::<char>::empty());
    } else {
        let c = t[0];
        let t1 = t.drop_first();
        lemma_unesc_esc(t1, rest);
        let u1 = esc(t1) + seq!['"'] + rest;
        assert(esc(t) == esc_char(c) + esc(t1));
        assert(u =~= esc_char(c) + u1);
        assert(seq![c] + t1 =~= t);
        if c == '"' || c == '\\' || c == '\n' || c == '\r' || c == '\t' {
            assert(u[0] == '\\');
            assert(u.skip(2) =~= u1);
            assert(unesc_named(u[1]) == c);
            assert(u.len() >= 2);
        } else if (c as u32) < 32 {
            let v = c as u32 as int;
            assert(u[0] == '\\');
            assert(u[1] == 'u');
            assert(u[2] == '0');
            assert(u[3] == '0');
            assert(u[4] == hex_char(v / 16));
            assert(u[5] == hex_char(v % 16));
            lemma_hex_char_val(v / 16);
            lemma_hex_char_val(v % 16);
            assert(16 * (v / 16) + (v % 16) == v);
            assert(('\t' as u32) == 9 && ('\n' as u32) == 10 && ('\r' as u32) == 13);
            vstd::utf8::char_u32_cast(c, c as u32);
            vstd::utf8::char_u32_cast('\t', '\t' as u32);
            vstd::utf8::char_u32_cast('\n', '\n' as u32);
            vstd::utf8::char_u32_cast('\r', '\r' as u32);
            assert(v != 9 && v != 10 && v != 13);
            assert(((v as u8) as char) == c) by {
                assert(((v as u8) as u32) == c as u32);
            }
            assert(u.skip(6) =~= u1);
        } else {
            assert(esc_char(c) == seq![c]);
            assert(u[0] == c);
            assert(u.drop_first() =~= u1);
        }
    }
}

/// Whatever the string parser accepts is the canonical escape of its result:
/// the consumed region is `esc` of the returned characters, and the input
/// position it stops at holds the closing quote.
proof fn lemma_unesc_sound(u: Seq<char>)
    ensures
        unesc_prefix(u) matches Some(p) ==> {
            &&& 0 <= p.1 < u.len()
            &&& u[p.1] == '"'
            &&& u.subrange(0, p.1) == esc(p.0)
        },
    decreases u.len(),
{
    if u.len() == 0 {
    } else if u[0] == '"' {
        assert(u.subrange(0, 0) =~= Seq::<char>::empty());
        assert(esc(Seq::<char>::empty()) == Seq::<char>::empty());
    } else if u[0] != '\\' {
        if (u[0] as u32) >= 32 {
            lemma_unesc_sound(u.drop_first());
            match unesc_prefix(u.drop_first()) {
                Some(q) => {
                    lemma_esc_cons(u[0], q.0);
                    assert(esc_char(u[0]) == seq![u[0]]);
                    assert(u.drop_first()[q.1] == u[1 + q.1]);
                    assert(u.subrange(1, 1 + q.1) =~= u.drop_first().subrange(0, q.1));
                    assert(u.subrange(0, 1 + q.1) =~= seq![u[0]] + u.subrange(1, 1 + q.1));
                },
                None => {},
            }
        }
    } else if u.len() < 2 {
    } else if u[1] == '"' || u[1] == '\\' || u[1] == 'n' || u[1] == 'r' || u[1] == 't' {
        lemma_unesc_sound(u.skip(2));
        match unesc_prefix(u.skip(2)) {
            Some(q) => {
                let c = unesc_named(u[1]);
                lemma_esc_cons(c, q.0);
                assert(esc_char(c) =~= seq!['\\', u[1]]);
                assert(u.skip(2)[q.1] == u[2 + q.1]);
                assert(u.subrange(2, 2 + q.1) =~= u.skip(2).subrange(0, q.1));
                assert(u.subrange(0, 2 + q.1) =~= seq!['\\', u[1]] + u.subrange(2, 2 + q.1));
            },
            None => {},
        }
    } else if u[1] == 'u' {
        if u.len() >= 6 && u[2] == '0' && u[3] == '0' && is_hex_lower(u[4]) && is_hex_lower(u[5]) {
            let v = 16 * hex_val(u[4]) + hex_val(u[5]);
            if v < 32 && v != 9 && v != 10 && v != 13 {
                lemma_unesc_sound(u.skip(6));
                match unesc_prefix(u.skip(6)) {
                    Some(q) => {
                        let c = (v as u8) as char;
                        lemma_hex_val_char(u[4]);
                        lemma_hex_val_char(u[5]);
                        assert(0 <= v < 32);
                        assert((c as u32) == v);
                        lemma_esc_cons(c, q.0);
                        assert((v / 16) == hex_val(u[4]) && (v % 16) == hex_val(u[5]));
                        assert(esc_char(c) =~= seq!['\\', 'u', '0', '0', u[4], u[5]]);
                        assert(u.skip(6)[q.1] == u[6 + q.1]);
                        assert(u.subrange(6, 6 + q.1) =~= u.skip(6).subrange(0, q.1));
                        assert(u.subrange(0, 6 + q.1) =~= seq!['\\', 'u', '0', '0', u[4], u[5]]
                            + u.subrange(6, 6 + q.1));
                    },
                    None => {},
                }
            }
        }
    }
}

/// Parses one canonical decimal byte (1 to 3 digits, no leading zeros,
/// at most 255): returns the byte and how many characters it takes.
pub open spec fn parse_u8_prefix(u: Seq<char>) -> Option<(u8, int)> {
    if u.len() == 0 || !is_digit(u[0]) {
        None
    } else if u[0] == '0' {
        Some((0u8, 1))
    } else {
        let d0 = hex_val(u[0]);
        if u.len() < 2 || !is_digit(u[1]) {
            Some((d0 as u8, 1))
        } else {
            let d1 = hex_val(u[1]);
            if u.len() < 3 || !is_digit(u[2]) {
                Some(((10 * d0 + d1) as u8, 2))
            } else {
                let d2 = hex_val(u[2]);
                if u.len() >= 4 && is_digit(u[3]) {
                    None
                } else if 100 * d0 + 10 * d1 + d2 <= 255 {
                    Some(((100 * d0 + 10 * d1 + d2) as u8, 3))
                } else {
                    None
                }
            }
        }
    }
}

/// Parses a canonical comma-separated byte list up to (and not including)
/// the closing bracket: returns the bytes and the index of that bracket.
pub open spec fn parse_bytes_prefix(u: Seq<char>) -> Option<(Seq<u8>, int)>
    decreases u.len(),
{
    if u.len() == 0 {
        None
    } else if u[0] == ']' {
        Some((Seq::empty(), 0))
    } else {
        match parse_u8_prefix(u) {
            None => None,
            Some((b, k)) => {
                if 0 <= k < u.len() {
                    if u[k] == ']' {
                        Some((seq![b], k))
                    } else if u[k] == ',' {
                        match parse_bytes_prefix(u.skip(k + 1)) {
                            Some((bs, k2)) => {
                                if bs.len() > 0 {
                                    Some((seq![b] + bs, k + 1 + k2))
                                } else {
                                    None
                                }
                            },
                            None => None,
                        }
                    } else {
                        None
                    }
                } else {
                    None
                }
            },
        }
    }
}

/// Parsing the canonical digits of `b`, followed by anything that is not a
/// digit, yields exactly `b`.
proof fn lemma_parse_dec_u8(b: u8, rest: Seq<char>)
    requires
        rest.len() > 0,
        !is_digit(rest[0]),
    ensures
        parse_u8_prefix(dec_u8(b) + rest) == Some((b, dec_u8(b).len() as int)),
{
    let u = dec_u8(b) + rest;
    if b < 10 {
        lemma_hex_char_val(b as int);
        assert(u[0] == hex_char(b as int));
        assert(u[1] == rest[0]);
        if b == 0 {
            assert(u[0] == '0');
        } else {
            assert(u[0] != '0');
            assert(hex_val(u[0]) == b as int);
        }
    } else if b < 100 {
        lemma_hex_char_val(b as int / 10);
        lemma_hex_char_val(b as int % 10);
        assert(u[0] == hex_char(b as int / 10));
        assert(u[1] == hex_char(b as int % 10));
        assert(u[2] == rest[0]);
        assert(b as int / 10 >= 1);
        assert(u[0] != '0');
        assert(10 * (b as int / 10) + (b as int % 10) == b as int);
    } else {
        lemma_hex_char_val(b as int / 100);
        lemma_hex_char_val((b as int / 10) % 10);
        lemma_hex_char_val(b as int % 10);
        assert(u[0] == hex_char(b as int / 100));
        assert(u[1] == hex_char((b as int / 10) % 10));
        assert(u[2] == hex_char(b as int % 10));
        assert(u[3] == rest[0]);
        assert(b as int / 100 >= 1);
        assert(u[0] != '0');
        assert(100 * (b as int / 100) + 10 * ((b as int / 10) % 10) + (b as int % 10) == b as int);
    }
}

/// Parsing the canonical byte list of `bs`, followed by the closing bracket
/// and anything at all, succeeds and returns exactly `bs`.
#[verifier::rlimit(50)]
proof fn lemma_parse_enc_bytes(bs: Seq<u8>, rest: Seq<char>)
    ensures
        parse_bytes_prefix(enc_bytes(bs) + seq![']'] + rest)
            == Some((bs, enc_bytes(bs).len() as int)),
    decreases bs.len(),
{
    let u = enc_bytes(bs) + seq![']'] + rest;
    if bs.len() == 0 {
        assert(enc_bytes(bs) == Seq::<char>::empty());
        assert(u[0] == ']');
        assert(bs =~= Seq::<u8>::empty());
    } else if bs.len() == 1 {
        let k = dec_u8(bs[0]).len() as int;
        assert(u =~= dec_u8(bs[0]) + (seq![']'] + rest));
        lemma_parse_dec_u8(bs[0], seq![']'] + rest);
        assert((seq![']'] + rest)[0] == ']');
        assert(parse_u8_prefix(u) == Some((bs[0], k)));
        assert(u[k] == ']');
        assert(is_digit(u[0]) && u[0] != ']');
        assert(seq![bs[0]] =~= bs);
    } else {
        let b = bs[0];
        let bs1 = bs.drop_first();
        let k = dec_u8(b).len() as int;
        let tail = seq![','] + enc_bytes(bs1) + seq![']'] + rest;
        assert(u =~= dec_u8(b) + tail);
        lemma_parse_dec_u8(b, tail);
        assert(tail[0] == ',');
        assert(parse_u8_prefix(u) == Some((b, k)));
        assert(u[k] == ',');
        assert(is_digit(u[0]) && u[0] != ']');
        lemma_parse_enc_bytes(bs1, rest);
        assert(u.skip(k + 1) =~= enc_bytes(bs1) + seq![']'] + rest);
        assert(bs1.len() > 0);
        assert(seq![b] + bs1 =~= bs);
        assert(enc_bytes(bs).len() == k + 1 + enc_bytes(bs1).len());
    }
}

/// Whatever the byte parser accepts is the canonical digits of its result.
proof fn lemma_parse_u8_sound(u: Seq<char>)
    ensures
        parse_u8_prefix(u) matches Some(p) ==> {
            &&& 1 <= p.1 <= 3
            &&& p.1 <= u.len()
            &&& u.subrange(0, p.1) == dec_u8(p.0)
        },
{
    if u.len() > 0 && is_digit(u[0]) {
        lemma_hex_val_char(u[0]);
        if u[0] == '0' {
            assert(u.subrange(0, 1) =~= seq![u[0]]);
            assert(hex_char(0) == '0');
            assert(dec_u8(0) =~= seq!['0']);
        } else {
            let d0 = hex_val(u[0]);
            assert(1 <= d0 <= 9);
            if u.len() < 2 || !is_digit(u[1]) {
                assert(u.subrange(0, 1) =~= seq![u[0]]);
                assert(dec_u8(d0 as u8) =~= seq![hex_char(d0)]);
            } else {
                lemma_hex_val_char(u[1]);
                let d1 = hex_val(u[1]);
                if u.len() < 3 || !is_digit(u[2]) {
                    let b = (10 * d0 + d1) as u8;
                    assert(10 <= 10 * d0 + d1 <= 99);
                    assert(b as int / 10 == d0 && b as int % 10 == d1);
                    assert(u.subrange(0, 2) =~= seq![u[0], u[1]]);
                    assert(dec_u8(b) =~= seq![hex_char(d0), hex_char(d1)]);
                } else {
                    lemma_hex_val_char(u[2]);
                    let d2 = hex_val(u[2]);
                    if !(u.len() >= 4 && is_digit(u[3])) && 100 * d0 + 10 * d1 + d2 <= 255 {
                        let b = (100 * d0 + 10 * d1 + d2) as u8;
                        assert(100 <= 100 * d0 + 10 * d1 + d2 <= 255);
                        assert(b as int / 100 == d0);
                        assert((b as int / 10) % 10 == d1);
                        assert(b as int % 10 == d2);
                        assert(u.subrange(0, 3) =~= seq![u[0], u[1], u[2]]);
                        assert(dec_u8(b) =~= seq![hex_char(d0), hex_char(d1), hex_char(d2)]);
                    }
                }
            }
        }
    }
}

/// Whatever the byte-list parser accepts is the canonical byte list of its
/// result, and the input position it stops at holds the closing bracket.
#[verifier::rlimit(100)]
proof fn lemma_parse_bytes_sound(u: Seq<char>)
    ensures
        parse_bytes_prefix(u) matches Some(p) ==> {
            &&& 0 <= p.1 < u.len()
            &&& u[p.1] == ']'
            &&& u.subrange(0, p.1) == enc_bytes(p.0)
        },
    decreases u.len(),
{
    if u.len() == 0 {
    } else if u[0] == ']' {
        assert(u.subrange(0, 0) =~= Seq::<char>::empty());
        assert(enc_bytes(Seq::<u8>::empty()) == Seq::<char>::empty());
    } else {
        lemma_parse_u8_sound(u);
        match parse_u8_prefix(u) {
            None => {},
            Some((b, k)) => {
                if 0 <= k < u.len() {
                    if u[k] == ']' {
                        assert(enc_bytes(seq![b]) == dec_u8(b));
                        assert(u.subrange(0, k) == dec_u8(b));
                    } else if u[k] == ',' {
                        lemma_parse_bytes_sound(u.skip(k + 1));
                        match parse_bytes_prefix(u.skip(k + 1)) {
                            Some((bs, k2)) => {
                                if bs.len() > 0 {
                                    assert(u.skip(k + 1)[k2] == u[k + 1 + k2]);
                                    assert(u.subrange(k + 1, k + 1 + k2)
                                        =~= u.skip(k + 1).subrange(0, k2));
                                    assert((seq![b] + bs)[0] == b);
                                    assert((seq![b] + bs).drop_first() =~= bs);
                                    assert(enc_bytes(seq![b] + bs)
                                        == dec_u8(b) + seq![','] + enc_bytes(bs));
                                    assert(u.subrange(0, k + 1 + k2)
                                        =~= dec_u8(b) + seq![','] + u.subrange(k + 1, k + 1 + k2));
                                }
                            },
                            None => {},
                        }
                    }
                }
            },
        }
    }
}


/// The loop invariant tying the executable string parser to `unesc_prefix`:
/// what the spec parser says about the unread suffix determines what it says
/// about the whole input, given the characters already accumulated.
spec fn unesc_loop_inv(sv: Seq<char>, i0: int, i: int, acc: Seq<char>) -> bool {
    &&& 0 <= i0 <= i <= sv.len()
    &&& (unesc_prefix(sv.skip(i)) matches Some(q) ==> unesc_prefix(sv.skip(i0)) == Some(
        (acc + q.0, (i - i0) + q.1),
    ))
    &&& (unesc_prefix(sv.skip(i)) is None ==> unesc_prefix(sv.skip(i0)) is None)
}

proof fn lemma_unesc_loop_start(sv: Seq<char>, i0: int)
    requires
        0 <= i0 <= sv.len(),
    ensures
        unesc_loop_inv(sv, i0, i0, Seq::<char>::empty()),
{
    match unesc_prefix(sv.skip(i0)) {
        Some(q) => {
            assert(Seq::<char>::empty() + q.0 =~= q.0);
        },
        None => {},
    }
}

proof fn lemma_unesc_loop_step(sv: Seq<char>, i0: int, i: int, acc: Seq<char>, c: char, k: int)
    requires
        unesc_loop_inv(sv, i0, i, acc),
        1 <= k,
        i + k <= sv.len(),
        unesc_prefix(sv.skip(i)) == (match unesc_prefix(sv.skip(i + k)) {
            Some(p) => Some::<(Seq<char>, int)>((seq![c] + p.0, k + p.1)),
            None => None,
        }),
    ensures
        unesc_loop_inv(sv, i0, i + k, acc.push(c)),
{
    match unesc_prefix(sv.skip(i + k)) {
        Some(q) => {
            assert(acc + (seq![c] + q.0) =~= acc.push(c) + q.0);
        },
        None => {},
    }
}

/// The value of a lowercase hexadecimal digit, executable.
fn hex_val_digit(c: char) -> (r: u32)
    requires
        is_hex_lower(c),
    ensures
        r as int == hex_val(c),
        r < 16,
{
    let v = c as u32;
    if v <= 57 {
        v - 48
    } else {
        v - 87
    }
}

/// Parses an escaped string inside `s` starting at character index `i0`, up
/// to the first unescaped quote: returns the unescaped text and the index of
/// that quote. Implements `unesc_prefix` exactly.
pub fn parse_esc_string(s: &str, i0: usize) -> (r: Option<(String, usize)>)
    requires
        i0 <= s@.len(),
    ensures
        r matches Some(p) ==> {
            &&& i0 <= p.1 < s@.len()
            &&& unesc_prefix(s@.skip(i0 as int)) == Some((p.0@, p.1 - i0))
        },
        r is None ==> unesc_prefix(s@.skip(i0 as int)) is None,
{
    let n = s.unicode_len();
    let mut i: usize = i0;
    let mut acc = String::new();
    proof {
        lemma_unesc_loop_start(s@, i0 as int);
    }
    while i < n
        invariant
            n == s@.len(),
            i0 <= i <= n,
            unesc_loop_inv(s@, i0 as int, i as int, acc@),
        decreases n - i,
    {
        let ghost u = s@.skip(i as int);
        proof {
            assert(u.len() == n - i);
            assert(u[0] == s@[i as int]);
        }
        let c = s.get_char(i);
        if c == '"' {
            proof {
                assert(unesc_prefix(u) == Some((Seq::<char>::empty(), 0int)));
                assert(acc@ + Seq::<char>::empty() =~= acc@);
            }
            return Some((acc, i));
        } else if c == '\\' {
            if n - i < 2 {
                proof {
                    assert(unesc_prefix(u) is None);
                }
                return None;
            }
            let c2 = s.get_char(i + 1);
            proof {
                assert(u[1] == c2);
            }
            if c2 == '"' || c2 == '\\' || c2 == 'n' || c2 == 'r' || c2 == 't' {
                let ch = if c2 == '"' {
                    '"'
                } else if c2 == '\\' {
                    '\\'
                } else if c2 == 'n' {
                    '\n'
                } else if c2 == 'r' {
                    '\r'
                } else {
                    '\t'
                };
                proof {
                    assert(ch == unesc_named(c2));
                    assert(u.skip(2) =~= s@.skip(i + 2));
                    lemma_unesc_loop_step(s@, i0 as int, i as int, acc@, ch, 2);
                }
                crate::text::push_char(&mut acc, ch);
                i = i + 2;
            } else if c2 == 'u' {
                if n - i < 6 {
                    proof {
                        assert(unesc_prefix(u) is None);
                    }
                    return None;
                }
                let h2 = s.get_char(i + 2);
                let h3 = s.get_char(i + 3);
                let h4 = s.get_char(i + 4);
                let h5 = s.get_char(i + 5);
                proof {
                    assert(u[2] == h2 && u[3] == h3 && u[4] == h4 && u[5] == h5);
                }
                let v4 = h4 as u32;
                let v5 = h5 as u32;
                let hex4 = (48 <= v4 && v4 <= 57) || (97 <= v4 && v4 <= 102);
                let hex5 = (48 <= v5 && v5 <= 57) || (97 <= v5 && v5 <= 102);
                if !(h2 == '0' && h3 == '0' && hex4 && hex5) {
                    proof {
                        assert(unesc_prefix(u) is None);
                    }
                    return None;
                }
                let v = 16 * hex_val_digit(h4) + hex_val_digit(h5);
                if !(v < 32 && v != 9 && v != 10 && v != 13) {
                    proof {
                        assert(unesc_prefix(u) is None);
                    }
                    return None;
                }
                let ch = v as u8 as char;
                proof {
                    assert(u.skip(6) =~= s@.skip(i + 6));
                    lemma_unesc_loop_step(s@, i0 as int, i as int, acc@, ch, 6);
                }
                crate::text::push_char(&mut acc, ch);
                i = i + 6;
            } else {
                proof {
                    assert(unesc_prefix(u) is None);
                }
                return None;
            }
        } else {
            let v = c as u32;
            if v < 32 {
                proof {
                    assert(unesc_prefix(u) is None);
                }
                return None;
            }
            proof {
                assert(u.drop_first() =~= s@.skip(i + 1));
                lemma_unesc_loop_step(s@, i0 as int, i as int, acc@, c, 1);
            }
            crate::text::push_char(&mut acc, c);
            i = i + 1;
        }
    }
    proof {
        assert(s@.skip(i as int).len() == 0);
        assert(unesc_prefix(s@.skip(i as int)) is None);
    }
    None
}


/// The loop invariant tying the executable byte-list parser to
/// `parse_bytes_prefix`; a suffix parse that yields an empty list means the
/// list ended right after a comma, which the canonical form rules out.
spec fn bytes_loop_inv(sv: Seq<char>, i0: int, i: int, acc: Seq<u8>) -> bool {
    &&& 0 <= i0 <= i <= sv.len()
    &&& (match parse_bytes_prefix(sv.skip(i)) {
        Some(q) => {
            if q.0.len() > 0 {
                parse_bytes_prefix(sv.skip(i0)) == Some::<(Seq<u8>, int)>(
                    (acc + q.0, (i - i0) + q.1),
                )
            } else {
                parse_bytes_prefix(sv.skip(i0)) is None
            }
        },
        None => parse_bytes_prefix(sv.skip(i0)) is None,
    })
}

proof fn lemma_bytes_loop_start(sv: Seq<char>, i0: int)
    requires
        0 <= i0 <= sv.len(),
        i0 < sv.len() ==> sv.skip(i0)[0] != ']',
    ensures
        bytes_loop_inv(sv, i0, i0, Seq::<u8>::empty()),
{
    match parse_bytes_prefix(sv.skip(i0)) {
        Some(q) => {
            if q.0.len() > 0 {
                assert(Seq::<u8>::empty() + q.0 =~= q.0);
            } else {
                assert(sv.skip(i0)[0] == ']');
            }
        },
        None => {},
    }
}

proof fn lemma_bytes_loop_step(sv: Seq<char>, i0: int, i: int, acc: Seq<u8>, b: u8, k: int)
    requires
        bytes_loop_inv(sv, i0, i, acc),
        1 <= k,
        i + k + 1 <= sv.len(),
        parse_u8_prefix(sv.skip(i)) == Some((b, k)),
        sv.skip(i)[0] != ']',
        sv.skip(i)[k] == ',',
    ensures
        bytes_loop_inv(sv, i0, i + k + 1, acc.push(b)),
{
    let u = sv.skip(i);
    assert(u.skip(k + 1) =~= sv.skip(i + k + 1));
    match parse_bytes_prefix(sv.skip(i + k + 1)) {
        Some(q) => {
            if q.0.len() > 0 {
                assert(parse_bytes_prefix(u) == Some::<(Seq<u8>, int)>(
                    (seq![b] + q.0, k + 1 + q.1),
                ));
                assert((seq![b] + q.0).len() > 0);
                assert(acc + (seq![b] + q.0) =~= acc.push(b) + q.0);
            } else {
                assert(parse_bytes_prefix(u) is None);
            }
        },
        None => {
            assert(parse_bytes_prefix(u) is None);
        },
    }
}

/// Parses one canonical decimal byte of `s` starting at character index `i`.
/// Implements `parse_u8_prefix` exactly.
fn parse_u8_at(s: &str, i: usize) -> (r: Option<(u8, usize)>)
    requires
        i < s@.len(),
    ensures
        r matches Some(p) ==> {
            &&& 1 <= p.1 <= 3
            &&& i + p.1 <= s@.len()
            &&& parse_u8_prefix(s@.skip(i as int)) == Some((p.0, p.1 as int))
        },
        r is None ==> parse_u8_prefix(s@.skip(i as int)) is None,
{
    let n = s.unicode_len();
    let ghost u = s@.skip(i as int);
    proof {
        assert(u.len() == n - i);
        assert(u[0] == s@[i as int]);
    }
    let c0 = s.get_char(i);
    let v0 = c0 as u32;
    if !(48 <= v0 && v0 <= 57) {
        return None;
    }
    if c0 == '0' {
        return Some((0, 1));
    }
    let d0 = v0 - 48;
    if n - i < 2 {
        return Some((d0 as u8, 1));
    }
    let c1 = s.get_char(i + 1);
    proof {
        assert(u[1] == c1);
    }
    let v1 = c1 as u32;
    if !(48 <= v1 && v1 <= 57) {
        return Some((d0 as u8, 1));
    }
    let d1 = v1 - 48;
    if n - i < 3 {
        return Some(((10 * d0 + d1) as u8, 2));
    }
    let c2 = s.get_char(i + 2);
    proof {
        assert(u[2] == c2);
    }
    let v2 = c2 as u32;
    if !(48 <= v2 && v2 <= 57) {
        return Some(((10 * d0 + d1) as u8, 2));
    }
    let d2 = v2 - 48;
    if n - i >= 4 {
        let c3 = s.get_char(i + 3);
        proof {
            assert(u[3] == c3);
        }
        let v3 = c3 as u32;
        if 48 <= v3 && v3 <= 57 {
            return None;
        }
    }
    let val = 100 * d0 + 10 * d1 + d2;
    if val > 255 {
        return None;
    }
    Some((val as u8, 3))
}

/// Parses a canonical byte list inside `s` starting at character index `i0`,
/// up to the closing bracket: returns the bytes and the index of that
/// bracket. Implements `parse_bytes_prefix` exactly.
pub fn parse_byte_list(s: &str, i0: usize) -> (r: Option<(Vec<u8>, usize)>)
    requires
        i0 <= s@.len(),
    ensures
        r matches Some(p) ==> {
            &&& i0 <= p.1 < s@.len()
            &&& parse_bytes_prefix(s@.skip(i0 as int)) == Some((p.0@, p.1 - i0))
        },
        r is None ==> parse_bytes_prefix(s@.skip(i0 as int)) is None,
{
    let n = s.unicode_len();
    if i0 == n {
        return None;
    }
    proof {
        assert(s@.skip(i0 as int)[0] == s@[i0 as int]);
    }
    if s.get_char(i0) == ']' {
        let empty_list: Vec<u8> = Vec::new();
        proof {
            assert(empty_list@ + Seq::<u8>::empty() =~= empty_list@);
            assert(empty_list@ =~= Seq::<u8>::empty());
        }
        return Some((empty_list, i0));
    }
    let mut acc: Vec<u8> = Vec::new();
    let mut i: usize = i0;
    proof {
        lemma_bytes_loop_start(s@, i0 as int);
    }
    while i < n
        invariant
            n == s@.len(),
            i0 <= i <= n,
            bytes_loop_inv(s@, i0 as int, i as int, acc@),
        decreases n - i,
    {
        let ghost u = s@.skip(i as int);
        proof {
            assert(u.len() == n - i);
            assert(u[0] == s@[i as int]);
        }
        let c = s.get_char(i);
        if c == ']' {
            proof {
                assert(parse_bytes_prefix(u) == Some((Seq::<u8>::empty(), 0int)));
            }
            return None;
        }
        match parse_u8_at(s, i) {
            None => {
                proof {
                    assert(parse_bytes_prefix(u) is None);
                }
                return None;
            },
            Some((b, k)) => {
                if n - i <= k {
                    proof {
                        assert(parse_bytes_prefix(u) is None);
                    }
                    return None;
                }
                let sep = s.get_char(i + k);
                proof {
                    assert(u[k as int] == sep);
                }
                if sep == ']' {
                    proof {
                        assert(parse_bytes_prefix(u) == Some((seq![b], k as int)));
                        assert(acc@ + seq![b] =~= acc@.push(b));
                    }
                    acc.push(b);
                    return Some((acc, i + k));
                } else if sep == ',' {
                    proof {
                        lemma_bytes_loop_step(s@, i0 as int, i as int, acc@, b, k as int);
                    }
                    acc.push(b);
                    i = i + k + 1;
                } else {
                    proof {
                        assert(parse_bytes_prefix(u) is None);
                    }
                    return None;
                }
            },
        }
    }
    proof {
        assert(s@.skip(i as int).len() == 0);
    }
    None
}


/// Where the first characters of an encoded message sit: the characters at
/// indices 2, 3 and 6 identify the variant.
proof fn lemma_enc_head(m: MessageV)
    ensures
        enc_msg(m).len() > 6,
        match m {
            MessageV::Join { .. } => enc_msg(m)[2] == 'J' && enc_msg(m)[3] == 'o' && enc_msg(m)[6]
                == '"',
            MessageV::Ping => enc_msg(m)[2] == 'P' && enc_msg(m)[3] == 'i' && enc_msg(m)[6] == '"',
            MessageV::Pong => enc_msg(m)[2] == 'P' && enc_msg(m)[3] == 'o' && enc_msg(m)[6] == '"',
            MessageV::Store { .. } => enc_msg(m)[2] == 'S' && enc_msg(m)[3] == 't' && enc_msg(m)[6]
                == 'e',
            MessageV::Lookup { .. } => enc_msg(m)[2] == 'L' && enc_msg(m)[3] == 'o' && enc_msg(
                m,
            )[6] == 'u',
            MessageV::FileRequest { .. } => enc_msg(m)[2] == 'F' && enc_msg(m)[3] == 'i'
                && enc_msg(m)[6] == 'R',
            MessageV::FileData { .. } => enc_msg(m)[2] == 'F' && enc_msg(m)[3] == 'i' && enc_msg(
                m,
            )[6] == 'D',
            MessageV::Ack => enc_msg(m)[2] == 'A' && enc_msg(m)[3] == 'c' && enc_msg(m)[6] == ':',
        },
{
    match m {
        MessageV::Join { node_id } => {
            reveal_strlit("{\"Join\":{\"node_id\":\"");
            reveal_strlit("\"}}");
        },
        MessageV::Ping => {
            reveal_strlit("{\"Ping\":null}");
        },
        MessageV::Pong => {
            reveal_strlit("{\"Pong\":null}");
        },
        MessageV::Store { key, value } => {
            reveal_strlit("{\"Store\":{\"key\":\"");
            reveal_strlit("\",\"value\":\"");
            reveal_strlit("\"}}");
        },
        MessageV::Lookup { key } => {
            reveal_strlit("{\"Lookup\":{\"key\":\"");
            reveal_strlit("\"}}");
        },
        MessageV::FileRequest { file_id } => {
            reveal_strlit("{\"FileRequest\":{\"file_id\":\"");
            reveal_strlit("\"}}");
        },
        MessageV::FileData { file_id, data } => {
            reveal_strlit("{\"FileData\":{\"file_id\":\"");
            reveal_strlit("\",\"data\":[");
            reveal_strlit("]}}");
        },
        MessageV::Ack => {
            reveal_strlit("{\"Ack\":null}");
        },
    }
}

/// What an encoded `Join` line looks like, region by region.
proof fn lemma_join_shape(sv: Seq<char>, t: Seq<char>)
    requires
        sv == enc_msg(MessageV::Join { node_id: t }),
    ensures
        sv.len() == 20 + esc(t).len() + 3,
        sv.subrange(0, 20) == "{\"Join\":{\"node_id\":\""@,
        unesc_prefix(sv.skip(20)) == Some((t, esc(t).len() as int)),
        sv.subrange(sv.len() - 3, sv.len() as int) == "\"}}"@,
{
    reveal_strlit("{\"Join\":{\"node_id\":\"");
    reveal_strlit("\"}}");
    let p = "{\"Join\":{\"node_id\":\""@;
    let q = "\"}}"@;
    assert(p.len() == 20 && q.len() == 3);
    assert(sv.skip(20) =~= esc(t) + seq!['"'] + seq!['}', '}']);
    lemma_unesc_esc(t, seq!['}', '}']);
    assert(sv.subrange(0, 20) =~= p);
    assert(sv.subrange(sv.len() - 3, sv.len() as int) =~= q);
}

/// What an encoded `Lookup` line looks like, region by region.
proof fn lemma_lookup_shape(sv: Seq<char>, t: Seq<char>)
    requires
        sv == enc_msg(MessageV::Lookup { key: t }),
    ensures
        sv.len() == 18 + esc(t).len() + 3,
        sv.subrange(0, 18) == "{\"Lookup\":{\"key\":\""@,
        unesc_prefix(sv.skip(18)) == Some((t, esc(t).len() as int)),
        sv.subrange(sv.len() - 3, sv.len() as int) == "\"}}"@,
{
    reveal_strlit("{\"Lookup\":{\"key\":\"");
    reveal_strlit("\"}}");
    let p = "{\"Lookup\":{\"key\":\""@;
    let q = "\"}}"@;
    assert(p.len() == 18 && q.len() == 3);
    assert(sv.skip(18) =~= esc(t) + seq!['"'] + seq!['}', '}']);
    lemma_unesc_esc(t, seq!['}', '}']);
    assert(sv.subrange(0, 18) =~= p);
    assert(sv.subrange(sv.len() - 3, sv.len() as int) =~= q);
}

/// What an encoded `FileRequest` line looks like, region by region.
proof fn lemma_filerequest_shape(sv: Seq<char>, t: Seq<char>)
    requires
        sv == enc_msg(MessageV::FileRequest { file_id: t }),
    ensures
        sv.len() == 27 + esc(t).len() + 3,
        sv.subrange(0, 27) == "{\"FileRequest\":{\"file_id\":\""@,
        unesc_prefix(sv.skip(27)) == Some((t, esc(t).len() as int)),
        sv.subrange(sv.len() - 3, sv.len() as int) == "\"}}"@,
{
    reveal_strlit("{\"FileRequest\":{\"file_id\":\"");
    reveal_strlit("\"}}");
    let p = "{\"FileRequest\":{\"file_id\":\""@;
    let q = "\"}}"@;
    assert(p.len() == 27 && q.len() == 3);
    assert(sv.skip(27) =~= esc(t) + seq!['"'] + seq!['}', '}']);
    lemma_unesc_esc(t, seq!['}', '}']);
    assert(sv.subrange(0, 27) =~= p);
    assert(sv.subrange(sv.len() - 3, sv.len() as int) =~= q);
}

/// What an encoded `Store` line looks like, region by region.
proof fn lemma_store_shape(sv: Seq<char>, k: Seq<char>, v: Seq<char>)
    requires
        sv == enc_msg(MessageV::Store { key: k, value: v }),
    ensures
        sv.len() == 17 + esc(k).len() as int + 11 + esc(v).len() + 3,
        sv.subrange(0, 17) == "{\"Store\":{\"key\":\""@,
        unesc_prefix(sv.skip(17)) == Some((k, esc(k).len() as int)),
        sv.subrange(17 + esc(k).len() as int, 17 + esc(k).len() as int + 11) == "\",\"value\":\""@,
        unesc_prefix(sv.skip(17 + esc(k).len() as int + 11)) == Some((v, esc(v).len() as int)),
        sv.subrange(sv.len() - 3, sv.len() as int) == "\"}}"@,
{
    reveal_strlit("{\"Store\":{\"key\":\"");
    reveal_strlit("\",\"value\":\"");
    reveal_strlit("\"}}");
    let p = "{\"Store\":{\"key\":\""@;
    let m = "\",\"value\":\""@;
    let q = "\"}}"@;
    assert(p.len() == 17 && m.len() == 11 && q.len() == 3);
    let ka = esc(k).len() as int;
    assert(sv.skip(17) =~= esc(k) + seq!['"'] + (m.skip(1) + esc(v) + q));
    lemma_unesc_esc(k, m.skip(1) + esc(v) + q);
    assert(sv.skip(17 + ka + 11) =~= esc(v) + seq!['"'] + seq!['}', '}']);
    lemma_unesc_esc(v, seq!['}', '}']);
    assert(sv.subrange(0, 17) =~= p);
    assert(sv.subrange(17 + ka, 17 + ka + 11) =~= m);
    assert(sv.subrange(sv.len() - 3, sv.len() as int) =~= q);
}

/// What an encoded `FileData` line looks like, region by region.
proof fn lemma_filedata_shape(sv: Seq<char>, t: Seq<char>, d: Seq<u8>)
    requires
        sv == enc_msg(MessageV::FileData { file_id: t, data: d }),
    ensures
        sv.len() == 24 + esc(t).len() as int + 10 + enc_bytes(d).len() + 3,
        sv.subrange(0, 24) == "{\"FileData\":{\"file_id\":\""@,
        unesc_prefix(sv.skip(24)) == Some((t, esc(t).len() as int)),
        sv.subrange(24 + esc(t).len() as int, 24 + esc(t).len() as int + 10) == "\",\"data\":["@,
        parse_bytes_prefix(sv.skip(24 + esc(t).len() as int + 10)) == Some(
            (d, enc_bytes(d).len() as int),
        ),
        sv.subrange(sv.len() - 3, sv.len() as int) == "]}}"@,
{
    reveal_strlit("{\"FileData\":{\"file_id\":\"");
    reveal_strlit("\",\"data\":[");
    reveal_strlit("]}}");
    let p = "{\"FileData\":{\"file_id\":\""@;
    let m = "\",\"data\":["@;
    let q = "]}}"@;
    assert(p.len() == 24 && m.len() == 10 && q.len() == 3);
    let ta = esc(t).len() as int;
    assert(sv.skip(24) =~= esc(t) + seq!['"'] + (m.skip(1) + enc_bytes(d) + q));
    lemma_unesc_esc(t, m.skip(1) + enc_bytes(d) + q);
    assert(sv.skip(24 + ta + 10) =~= enc_bytes(d) + seq![']'] + seq!['}', '}']);
    lemma_parse_enc_bytes(d, seq!['}', '}']);
    assert(sv.subrange(0, 24) =~= p);
    assert(sv.subrange(24 + ta, 24 + ta + 10) =~= m);
    assert(sv.subrange(sv.len() - 3, sv.len() as int) =~= q);
}

/// The canonical encoding is injective: equal encodings come from equal
/// messages. Together with the decoder's contract this is the round trip:
/// decoding the encoding of any message yields that message and nothing else.
pub proof fn lemma_enc_msg_injective(a: MessageV, b: MessageV)
    requires
        enc_msg(a) == enc_msg(b),
    ensures
        a == b,
{
    lemma_enc_head(a);
    lemma_enc_head(b);
    let sv = enc_msg(a);
    match (a, b) {
        (MessageV::Join { node_id: t1 }, MessageV::Join { node_id: t2 }) => {
            lemma_join_shape(sv, t1);
            lemma_join_shape(sv, t2);
            assert(a =~= b);
        },
        (MessageV::Ping, MessageV::Ping) => {},
        (MessageV::Pong, MessageV::Pong) => {},
        (MessageV::Store { key: k1, value: v1 }, MessageV::Store { key: k2, value: v2 }) => {
            lemma_store_shape(sv, k1, v1);
            lemma_store_shape(sv, k2, v2);
            assert(k1 == k2);
            assert(esc(k1).len() == esc(k2).len());
            assert(v1 == v2);
            assert(a =~= b);
        },
        (MessageV::Lookup { key: t1 }, MessageV::Lookup { key: t2 }) => {
            lemma_lookup_shape(sv, t1);
            lemma_lookup_shape(sv, t2);
            assert(a =~= b);
        },
        (MessageV::FileRequest { file_id: t1 }, MessageV::FileRequest { file_id: t2 }) => {
            lemma_filerequest_shape(sv, t1);
            lemma_filerequest_shape(sv, t2);
            assert(a =~= b);
        },
        (
            MessageV::FileData { file_id: t1, data: d1 },
            MessageV::FileData { file_id: t2, data: d2 },
        ) => {
            lemma_filedata_shape(sv, t1, d1);
            lemma_filedata_shape(sv, t2, d2);
            assert(t1 == t2);
            assert(esc(t1).len() == esc(t2).len());
            assert(d1 == d2);
            assert(a =~= b);
        },
        (MessageV::Ack, MessageV::Ack) => {},
        _ => {
            assert(false);
        },
    }
}


/// Decodes one line into a message. Strict: returns `Ok` exactly on the
/// canonical encoding of some message (and then returns that message), and
/// `DecodeError` on every other input. The second `ensures` clause is the
/// round trip: for any message value, a line equal to its encoding decodes
/// to it and to nothing else.
#[verifier::rlimit(100)]
pub fn decode_message(line: &str) -> (r: Result<Message, DecodeError>)
    ensures
        r matches Ok(m) ==> line@ == enc_msg(m@),
        forall|mv: MessageV| line@ == enc_msg(mv) ==> (r matches Ok(m) && m@ == mv),
{
    let n = line.unicode_len();
    if str_eq(line, "{\"Ping\":null}") {
        proof {
            assert forall|mv: MessageV| line@ == enc_msg(mv) implies mv == MessageV::Ping by {
                lemma_enc_msg_injective(mv, MessageV::Ping);
            }
        }
        return Ok(Message::Ping);
    }
    if str_eq(line, "{\"Pong\":null}") {
        proof {
            assert forall|mv: MessageV| line@ == enc_msg(mv) implies mv == MessageV::Pong by {
                lemma_enc_msg_injective(mv, MessageV::Pong);
            }
        }
        return Ok(Message::Pong);
    }
    if str_eq(line, "{\"Ack\":null}") {
        proof {
            assert forall|mv: MessageV| line@ == enc_msg(mv) implies mv == MessageV::Ack by {
                lemma_enc_msg_injective(mv, MessageV::Ack);
            }
        }
        return Ok(Message::Ack);
    }
    let pj = "{\"Join\":{\"node_id\":\"";
    let ps = "{\"Store\":{\"key\":\"";
    let pl = "{\"Lookup\":{\"key\":\"";
    let pr = "{\"FileRequest\":{\"file_id\":\"";
    let pd = "{\"FileData\":{\"file_id\":\"";
    let qs = "\"}}";
    if starts_with_at(line, 0, pj) {
        let plen = pj.unicode_len();
        proof {
            reveal_strlit("{\"Join\":{\"node_id\":\"");
            assert(line@.subrange(0, 20) == pj@);
            assert(line@.subrange(0, 20)[2] == line@[2]);
            assert(line@[2] == 'J');
            assert forall|mv: MessageV| line@ == enc_msg(mv) implies mv is Join by {
                lemma_enc_head(mv);
            }
        }
        match parse_esc_string(line, plen) {
            Some((t, j)) => {
                if starts_with_at(line, j, qs) && n - j == 3 {
                    let msg = Message::Join { node_id: t };
                    proof {
                        reveal_strlit("\"}}");
                        lemma_unesc_sound(line@.skip(plen as int));
                        assert(line@.subrange(plen as int, j as int) =~= line@.skip(
                            plen as int,
                        ).subrange(0, j - plen));
                        assert(line@.subrange(20, j as int) == esc(t@));
                        assert(line@.subrange(j as int, j + 3) == qs@);
                        assert(line@ =~= pj@ + esc(t@) + qs@);
                        assert(line@ == enc_msg(msg@));
                        assert forall|mv: MessageV| line@ == enc_msg(mv) implies mv == msg@ by {
                            lemma_enc_msg_injective(mv, msg@);
                        }
                    }
                    return Ok(msg);
                } else {
                    proof {
                        reveal_strlit("\"}}");
                        assert forall|mv: MessageV| line@ != enc_msg(mv) by {
                            if line@ == enc_msg(mv) {
                                match mv {
                                    MessageV::Join { node_id: t2 } => {
                                        lemma_join_shape(line@, t2);
                                    },
                                    _ => {},
                                }
                            }
                        }
                    }
                    return Err(DecodeError);
                }
            },
            None => {
                proof {
                    assert forall|mv: MessageV| line@ != enc_msg(mv) by {
                        if line@ == enc_msg(mv) {
                            match mv {
                                MessageV::Join { node_id: t2 } => {
                                    lemma_join_shape(line@, t2);
                                },
                                _ => {},
                            }
                        }
                    }
                }
                return Err(DecodeError);
            },
        }
    }
    if starts_with_at(line, 0, pl) {
        let plen = pl.unicode_len();
        proof {
            reveal_strlit("{\"Lookup\":{\"key\":\"");
            assert(line@.subrange(0, 18) == pl@);
            assert(line@.subrange(0, 18)[2] == line@[2]);
            assert(line@[2] == 'L');
            assert forall|mv: MessageV| line@ == enc_msg(mv) implies mv is Lookup by {
                lemma_enc_head(mv);
            }
        }
        match parse_esc_string(line, plen) {
            Some((t, j)) => {
                if starts_with_at(line, j, qs) && n - j == 3 {
                    let msg = Message::Lookup { key: t };
                    proof {
                        reveal_strlit("\"}}");
                        lemma_unesc_sound(line@.skip(plen as int));
                        assert(line@.subrange(plen as int, j as int) =~= line@.skip(
                            plen as int,
                        ).subrange(0, j - plen));
                        assert(line@.subrange(18, j as int) == esc(t@));
                        assert(line@.subrange(j as int, j + 3) == qs@);
                        assert(line@ =~= pl@ + esc(t@) + qs@);
                        assert(line@ == enc_msg(msg@));
                        assert forall|mv: MessageV| line@ == enc_msg(mv) implies mv == msg@ by {
                            lemma_enc_msg_injective(mv, msg@);
                        }
                    }
                    return Ok(msg);
                } else {
                    proof {
                        reveal_strlit("\"}}");
                        assert forall|mv: MessageV| line@ != enc_msg(mv) by {
                            if line@ == enc_msg(mv) {
                                match mv {
                                    MessageV::Lookup { key: t2 } => {
                                        lemma_lookup_shape(line@, t2);
                                    },
                                    _ => {},
                                }
                            }
                        }
                    }
                    return Err(DecodeError);
                }
            },
            None => {
                proof {
                    assert forall|mv: MessageV| line@ != enc_msg(mv) by {
                        if line@ == enc_msg(mv) {
                            match mv {
                                MessageV::Lookup { key: t2 } => {
                                    lemma_lookup_shape(line@, t2);
                                },
                                _ => {},
                            }
                        }
                    }
                }
                return Err(DecodeError);
            },
        }
    }
    if starts_with_at(line, 0, pr) {
        let plen = pr.unicode_len();
        proof {
            reveal_strlit("{\"FileRequest\":{\"file_id\":\"");
            assert(line@.subrange(0, 27) == pr@);
            assert(line@.subrange(0, 27)[2] == line@[2]);
            assert(line@.subrange(0, 27)[6] == line@[6]);
            assert(line@[2] == 'F' && line@[6] == 'R');
            assert forall|mv: MessageV| line@ == enc_msg(mv) implies mv is FileRequest by {
                lemma_enc_head(mv);
            }
        }
        match parse_esc_string(line, plen) {
            Some((t, j)) => {
                if starts_with_at(line, j, qs) && n - j == 3 {
                    let msg = Message::FileRequest { file_id: t };
                    proof {
                        reveal_strlit("\"}}");
                        lemma_unesc_sound(line@.skip(plen as int));
                        assert(line@.subrange(plen as int, j as int) =~= line@.skip(
                            plen as int,
                        ).subrange(0, j - plen));
                        assert(line@.subrange(27, j as int) == esc(t@));
                        assert(line@.subrange(j as int, j + 3) == qs@);
                        assert(line@ =~= pr@ + esc(t@) + qs@);
                        assert(line@ == enc_msg(msg@));
                        assert forall|mv: MessageV| line@ == enc_msg(mv) implies mv == msg@ by {
                            lemma_enc_msg_injective(mv, msg@);
                        }
                    }
                    return Ok(msg);
                } else {
                    proof {
                        reveal_strlit("\"}}");
                        assert forall|mv: MessageV| line@ != enc_msg(mv) by {
                            if line@ == enc_msg(mv) {
                                match mv {
                                    MessageV::FileRequest { file_id: t2 } => {
                                        lemma_filerequest_shape(line@, t2);
                                    },
                                    _ => {},
                                }
                            }
                        }
                    }
                    return Err(DecodeError);
                }
            },
            None => {
                proof {
                    assert forall|mv: MessageV| line@ != enc_msg(mv) by {
                        if line@ == enc_msg(mv) {
                            match mv {
                                MessageV::FileRequest { file_id: t2 } => {
                                    lemma_filerequest_shape(line@, t2);
                                },
                                _ => {},
                            }
                        }
                    }
                }
                return Err(DecodeError);
            },
        }
    }
    if starts_with_at(line, 0, ps) {
        let plen = ps.unicode_len();
        let msep = "\",\"value\":\"";
        proof {
            reveal_strlit("{\"Store\":{\"key\":\"");
            reveal_strlit("\",\"value\":\"");
            assert(line@.subrange(0, 17) == ps@);
            assert(line@.subrange(0, 17)[2] == line@[2]);
            assert(line@[2] == 'S');
            assert forall|mv: MessageV| line@ == enc_msg(mv) implies mv is Store by {
                lemma_enc_head(mv);
            }
        }
        match parse_esc_string(line, plen) {
            Some((k, j1)) => {
                proof {
                    lemma_unesc_sound(line@.skip(plen as int));
                    assert(line@.subrange(plen as int, j1 as int) =~= line@.skip(
                        plen as int,
                    ).subrange(0, j1 - plen));
                    assert(line@.subrange(17, j1 as int) == esc(k@));
                }
                if starts_with_at(line, j1, msep) {
                    let mlen = msep.unicode_len();
                    match parse_esc_string(line, j1 + mlen) {
                        Some((v, j2)) => {
                            if starts_with_at(line, j2, qs) && n - j2 == 3 {
                                let msg = Message::Store { key: k, value: v };
                                proof {
                                    reveal_strlit("\"}}");
                                    lemma_unesc_sound(line@.skip(j1 + mlen as int));
                                    assert(line@.subrange(j1 + 11, j2 as int) =~= line@.skip(
                                        j1 + 11,
                                    ).subrange(0, j2 - (j1 + 11)));
                                    assert(line@.subrange(j1 + 11, j2 as int) == esc(v@));
                                    assert(line@.subrange(j1 as int, j1 + 11) == msep@);
                                    assert(line@.subrange(j2 as int, j2 + 3) == qs@);
                                    assert(line@ =~= ps@ + esc(k@) + msep@ + esc(v@) + qs@);
                                    assert(line@ == enc_msg(msg@));
                                    assert forall|mv: MessageV| line@ == enc_msg(mv)
                                        implies mv == msg@ by {
                                        lemma_enc_msg_injective(mv, msg@);
                                    }
                                }
                                return Ok(msg);
                            } else {
                                proof {
                                    reveal_strlit("\"}}");
                                    assert forall|mv: MessageV| line@ != enc_msg(mv) by {
                                        if line@ == enc_msg(mv) {
                                            match mv {
                                                MessageV::Store { key: k2, value: v2 } => {
                                                    lemma_store_shape(line@, k2, v2);
                                                },
                                                _ => {},
                                            }
                                        }
                                    }
                                }
                                return Err(DecodeError);
                            }
                        },
                        None => {
                            proof {
                                assert forall|mv: MessageV| line@ != enc_msg(mv) by {
                                    if line@ == enc_msg(mv) {
                                        match mv {
                                            MessageV::Store { key: k2, value: v2 } => {
                                                lemma_store_shape(line@, k2, v2);
                                            },
                                            _ => {},
                                        }
                                    }
                                }
                            }
                            return Err(DecodeError);
                        },
                    }
                } else {
                    proof {
                        assert forall|mv: MessageV| line@ != enc_msg(mv) by {
                            if line@ == enc_msg(mv) {
                                match mv {
                                    MessageV::Store { key: k2, value: v2 } => {
                                        lemma_store_shape(line@, k2, v2);
                                    },
                                    _ => {},
                                }
                            }
                        }
                    }
                    return Err(DecodeError);
                }
            },
            None => {
                proof {
                    assert forall|mv: MessageV| line@ != enc_msg(mv) by {
                        if line@ == enc_msg(mv) {
                            match mv {
                                MessageV::Store { key: k2, value: v2 } => {
                                    lemma_store_shape(line@, k2, v2);
                                },
                                _ => {},
                            }
                        }
                    }
                }
                return Err(DecodeError);
            },
        }
    }
    if starts_with_at(line, 0, pd) {
        let plen = pd.unicode_len();
        let msep = "\",\"data\":[";
        let qd = "]}}";
        proof {
            reveal_strlit("{\"FileData\":{\"file_id\":\"");
            reveal_strlit("\",\"data\":[");
            assert(line@.subrange(0, 24) == pd@);
            assert(line@.subrange(0, 24)[2] == line@[2]);
            assert(line@.subrange(0, 24)[6] == line@[6]);
            assert(line@[2] == 'F' && line@[6] == 'D');
            assert forall|mv: MessageV| line@ == enc_msg(mv) implies mv is FileData by {
                lemma_enc_head(mv);
            }
        }
        match parse_esc_string(line, plen) {
            Some((t, j1)) => {
                proof {
                    lemma_unesc_sound(line@.skip(plen as int));
                    assert(line@.subrange(plen as int, j1 as int) =~= line@.skip(
                        plen as int,
                    ).subrange(0, j1 - plen));
                    assert(line@.subrange(24, j1 as int) == esc(t@));
                }
                if starts_with_at(line, j1, msep) {
                    let mlen = msep.unicode_len();
                    match parse_byte_list(line, j1 + mlen) {
                        Some((d, j2)) => {
                            if starts_with_at(line, j2, qd) && n - j2 == 3 {
                                let msg = Message::FileData { file_id: t, data: d };
                                proof {
                                    reveal_strlit("]}}");
                                    lemma_parse_bytes_sound(line@.skip(j1 + mlen as int));
                                    assert(line@.subrange(j1 + 10, j2 as int) =~= line@.skip(
                                        j1 + 10,
                                    ).subrange(0, j2 - (j1 + 10)));
                                    assert(line@.subrange(j1 + 10, j2 as int) == enc_bytes(d@));
                                    assert(line@.subrange(j1 as int, j1 + 10) == msep@);
                                    assert(line@.subrange(j2 as int, j2 + 3) == qd@);
                                    assert(line@ =~= pd@ + esc(t@) + msep@ + enc_bytes(d@) + qd@);
                                    assert(line@ == enc_msg(msg@));
                                    assert forall|mv: MessageV| line@ == enc_msg(mv)
                                        implies mv == msg@ by {
                                        lemma_enc_msg_injective(mv, msg@);
                                    }
                                }
                                return Ok(msg);
                            } else {
                                proof {
                                    reveal_strlit("]}}");
                                    assert forall|mv: MessageV| line@ != enc_msg(mv) by {
                                        if line@ == enc_msg(mv) {
                                            match mv {
                                                MessageV::FileData { file_id: t2, data: d2 } => {
                                                    lemma_filedata_shape(line@, t2, d2);
                                                },
                                                _ => {},
                                            }
                                        }
                                    }
                                }
                                return Err(DecodeError);
                            }
                        },
                        None => {
                            proof {
                                assert forall|mv: MessageV| line@ != enc_msg(mv) by {
                                    if line@ == enc_msg(mv) {
                                        match mv {
                                            MessageV::FileData { file_id: t2, data: d2 } => {
                                                lemma_filedata_shape(line@, t2, d2);
                                            },
                                            _ => {},
                                        }
                                    }
                                }
                            }
                            return Err(DecodeError);
                        },
                    }
                } else {
                    proof {
                        assert forall|mv: MessageV| line@ != enc_msg(mv) by {
                            if line@ == enc_msg(mv) {
                                match mv {
                                    MessageV::FileData { file_id: t2, data: d2 } => {
                                        lemma_filedata_shape(line@, t2, d2);
                                    },
                                    _ => {},
                                }
                            }
                        }
                    }
                    return Err(DecodeError);
                }
            },
            None => {
                proof {
                    assert forall|mv: MessageV| line@ != enc_msg(mv) by {
                        if line@ == enc_msg(mv) {
                            match mv {
                                MessageV::FileData { file_id: t2, data: d2 } => {
                                    lemma_filedata_shape(line@, t2, d2);
                                },
                                _ => {},
                            }
                        }
                    }
                }
                return Err(DecodeError);
            },
        }
    }
    proof {
        assert forall|mv: MessageV| line@ != enc_msg(mv) by {
            if line@ == enc_msg(mv) {
                match mv {
                    MessageV::Join { node_id: t2 } => {
                        reveal_strlit("{\"Join\":{\"node_id\":\"");
                        lemma_join_shape(line@, t2);
                    },
                    MessageV::Ping => {},
                    MessageV::Pong => {},
                    MessageV::Store { key: k2, value: v2 } => {
                        reveal_strlit("{\"Store\":{\"key\":\"");
                        lemma_store_shape(line@, k2, v2);
                    },
                    MessageV::Lookup { key: t2 } => {
                        reveal_strlit("{\"Lookup\":{\"key\":\"");
                        lemma_lookup_shape(line@, t2);
                    },
                    MessageV::FileRequest { file_id: t2 } => {
                        reveal_strlit("{\"FileRequest\":{\"file_id\":\"");
                        lemma_filerequest_shape(line@, t2);
                    },
                    MessageV::FileData { file_id: t2, data: d2 } => {
                        reveal_strlit("{\"FileData\":{\"file_id\":\"");
                        lemma_filedata_shape(line@, t2, d2);
                    },
                    MessageV::Ack => {},
                }
            }
        }
    }
    Err(DecodeError)
}

} // verus!
