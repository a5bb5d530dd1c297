//! File utilities: splitting raw bytes into fixed-size chunks and hashing
//! byte slices. These are pure functions on bytes with no relation to the
//! store or the protocol; reading the file itself is the caller's business.

use vstd::prelude::*;
use vstd::slice::slice_subrange;
use vstd::slice::slice_to_vec;
use crate::protocol::hex_char;

verus! {

/// The SHA-256 digest of a byte sequence, named but not written out here:
/// the digest is computed by the `sha2` crate and depends on the input bytes
/// alone.
pub uninterp spec fn sha256_of(data: Seq<u8>) -> Seq<u8>;

/// Lowercase hexadecimal text for a byte sequence: two digits per byte,
/// high nibble first.
pub open spec fn hex_of(data: Seq<u8>) -> Seq<char>
    decreases data.len(),
{
    if data.len() == 0 {
        Seq::empty()
    } else {
        seq![hex_char(data[0] as int / 16), hex_char(data[0] as int % 16)] + hex_of(
            data.drop_first(),
        )
    }
}

proof fn lemma_hex_of_len(data: Seq<u8>)
    ensures
        hex_of(data).len() == 2 * data.len(),
    decreases data.len(),
{
    if data.len() > 0 {
        lemma_hex_of_len(data.drop_first());
    }
}

/// Relies on `sha2::Sha256` (through the `Digest` trait): the 32-byte SHA-256
/// digest of the input, a function of the input bytes alone.
#[verifier::external_body]
fn sha256_digest(data: &[u8]) -> (r: Vec<u8>)
    ensures
        r@ == sha256_of(data@),
        r@.len() == 32,
{
    let digest = <sha2::Sha256 as sha2::Digest>::digest(data);
    digest.as_slice().to_vec()
}

/// Relies on `hex::encode`: lowercase hexadecimal, two digits per byte, in
/// input order.
#[verifier::external_body]
fn hex_encode(data: &[u8]) -> (r: String)
    ensures
        r@ == hex_of(data@),
{
    hex::encode(data)
}

/// Computes the SHA-256 hash of the provided data slice and returns it as a
/// lowercase hexadecimal string.
pub fn compute_hash(data: &[u8]) -> (r: String)
    ensures
        r@ == hex_of(sha256_of(data@)),
        r@.len() == 64,
{
    let digest = sha256_digest(data);
    let r = hex_encode(digest.as_slice());
    proof {
        lemma_hex_of_len(sha256_of(data@));
    }
    r
}

/// The `i`-th chunk of `d` under chunk size `cs`: `cs` bytes from `i * cs`,
/// or whatever remains for the last chunk.
pub open spec fn chunk_at(d: Seq<u8>, cs: int, i: int) -> Seq<u8> {
    d.subrange(
        i * cs,
        if (i + 1) * cs <= d.len() {
            (i + 1) * cs
        } else {
            d.len() as int
        },
    )
}

/// Splits a byte slice into chunks of the specified size: every chunk holds
/// exactly `chunk_size` bytes except a shorter final one, and together, in
/// order, they are the input.
pub fn split_into_chunks(data: &[u8], chunk_size: usize) -> (chunks: Vec<Vec<u8>>)
    requires
        chunk_size >= 1,
    ensures
        chunks@.len() == (data@.len() + chunk_size - 1) / (chunk_size as int),
        forall|i: int|
            0 <= i < chunks@.len() ==> chunks@[i]@ == chunk_at(data@, chunk_size as int, i),
{
    let len = data.len();
    let mut chunks: Vec<Vec<u8>> = Vec::new();
    if len == 0 {
        proof {
            assert((data@.len() + chunk_size - 1) / (chunk_size as int) == 0) by (nonlinear_arith)
                requires
                    data@.len() == 0,
                    chunk_size >= 1,
            ;
        }
        return chunks;
    }
    let mut off: usize = 0;
    proof {
        assert(chunks@.len() * (chunk_size as int) == 0) by (nonlinear_arith)
            requires
                chunks@.len() == 0,
        ;
    }
    while len - off > chunk_size
        invariant
            len == data@.len(),
            chunk_size >= 1,
            0 < len,
            off < len,
            off == chunks@.len() * (chunk_size as int),
            forall|i: int|
                0 <= i < chunks@.len() ==> chunks@[i]@ == chunk_at(data@, chunk_size as int, i),
        decreases len - off,
    {
        let end = off + chunk_size;
        let piece = slice_to_vec(slice_subrange(data, off, end));
        proof {
            let i = chunks@.len() as int;
            let cs = chunk_size as int;
            assert((i + 1) * cs == i * cs + cs) by (nonlinear_arith);
            assert(piece@ == chunk_at(data@, cs, i));
        }
        chunks.push(piece);
        off = end;
    }
    let piece = slice_to_vec(slice_subrange(data, off, len));
    proof {
        let i = chunks@.len() as int;
        let cs = chunk_size as int;
        assert((i + 1) * cs == i * cs + cs) by (nonlinear_arith);
        assert(piece@ == chunk_at(data@, cs, i));
    }
    chunks.push(piece);
    proof {
        let cnt = chunks@.len() as int;
        let cs = chunk_size as int;
        assert((cnt - 1) * cs == cnt * cs - cs) by (nonlinear_arith);
        assert(cnt == (data@.len() + cs - 1) / cs) by (nonlinear_arith)
            requires
                cs >= 1,
                (cnt - 1) * cs < data@.len(),
                data@.len() <= cnt * cs,
        ;
    }
    chunks
}

} // verus!
