//! Deterministic identifiers built from a SHA-1 digest of semantic parts.

use sha1::{Digest, Sha1};
use vstd::prelude::*;
use vstd::utf8::encode_utf8;

use crate::text::{chars_of, push_str, string_of};

verus! {

/// The SHA-1 digest of a byte string.
pub uninterp spec fn sha1_spec(data: Seq<u8>) -> Seq<u8>;

/// `<Sha1 as Digest>::digest`: the 20-byte SHA-1 digest of `data`.
/// Trusted: the digest is named by `sha1_spec` (a function of the input bytes
/// alone) and its length is the fixed SHA-1 output size; nothing else about
/// the hash is claimed.
#[verifier::external_body]
pub(crate) fn sha1_digest(data: &[u8]) -> (r: Vec<u8>)
    ensures
        r@ == sha1_spec(data@),
        r@.len() == 20,
{
    Sha1::digest(data).to_vec()
}

/// The lower-case hexadecimal digits.
pub open spec fn hex_table() -> Seq<char> {
    seq!['0', '1', '2', '3', '4', '5', '6', '7', '8', '9', 'a', 'b', 'c', 'd', 'e', 'f']
}

/// The lower-case hex digit for `n < 16`.
fn hex_digit(n: u8) -> (c: char)
    requires
        n < 16,
    ensures
        c == hex_table()[n as int],
{
    let table: [char; 16] = [
        '0', '1', '2', '3', '4', '5', '6', '7', '8', '9', 'a', 'b', 'c', 'd', 'e', 'f',
    ];
    assert(table@ =~= hex_table());
    table[n as usize]
}

/// Lower-case hex encoding of `bytes`, two digits per byte, high nibble first.
pub open spec fn hex_encode(bytes: Seq<u8>) -> Seq<char> {
    Seq::new(
        (2 * bytes.len()) as nat,
        |i: int|
            if i % 2 == 0 {
                hex_table()[(bytes[i / 2] >> 4u8) as int]
            } else {
                hex_table()[(bytes[i / 2] & 15u8) as int]
            },
    )
}

/// The first `chars` hex digits of `bytes`.
pub fn hex_prefix(bytes: &Vec<u8>, chars: usize) -> (r: String)
    ensures
        r@ == hex_encode(bytes@).take(
            if chars <= 2 * bytes.len() {
                chars as int
            } else {
                2 * bytes.len()
            },
        ),
{
    let ghost full = hex_encode(bytes@);
    let mut out: Vec<char> = Vec::new();
    let mut i: usize = 0;
    while i < bytes.len() && out.len() < chars
        invariant
            i <= bytes.len(),
            out.len() <= chars,
            out.len() == 2 * i || (out.len() == chars && out.len() <= 2 * i),
            out@ == full.take(out.len() as int),
            full == hex_encode(bytes@),
        decreases bytes.len() - i,
    {
        let b = bytes[i];
        let hi = b >> 4;
        let lo = b & 15;
        assert(hi < 16) by (bit_vector)
            requires
                hi == b >> 4u8,
        ;
        assert(lo < 16) by (bit_vector)
            requires
                lo == b & 15u8,
        ;
        assert(full[2 * i as int] == hex_table()[hi as int]);
        assert(full[2 * i + 1] == hex_table()[lo as int]);
        out.push(hex_digit(hi));
        assert(out@ =~= full.take(out.len() as int));
        if out.len() < chars {
            out.push(hex_digit(lo));
            assert(out@ =~= full.take(out.len() as int));
        }
        i = i + 1;
    }
    string_of(&out)
}

/// The bytes hashed for an identifier: the UTF-8 of the prefix and of each
/// part, each followed by a zero byte.
pub open spec fn id_message(prefix: Seq<char>, parts: Seq<Seq<char>>) -> Seq<u8>
    decreases parts.len(),
{
    if parts.len() == 0 {
        encode_utf8(prefix).push(0u8)
    } else {
        id_message(prefix, parts.drop_last()) + encode_utf8(parts.last()).push(0u8)
    }
}

/// The identifier text for `prefix` and `parts`: the prefix, a colon and the
/// first sixteen hex digits of the SHA-1 of the message.
pub open spec fn stable_id_spec(prefix: Seq<char>, parts: Seq<Seq<char>>) -> Seq<char> {
    prefix.push(':') + hex_encode(sha1_spec(id_message(prefix, parts))).take(16)
}

/// Appends the UTF-8 bytes of `s` and a zero byte to `out`.
pub(crate) fn push_part(out: &mut Vec<u8>, s: &str)
    ensures
        final(out)@ == old(out)@ + encode_utf8(s@).push(0u8),
{
    let bytes = s.as_bytes();
    let ghost before = out@;
    let mut i: usize = 0;
    while i < bytes.len()
        invariant
            i <= bytes@.len(),
            bytes@ == encode_utf8(s@),
            out@ == before + bytes@.take(i as int),
        decreases bytes@.len() - i,
    {
        out.push(bytes[i]);
        i = i + 1;
        assert(out@ =~= before + bytes@.take(i as int));
    }
    assert(bytes@.take(bytes@.len() as int) =~= bytes@);
    out.push(0u8);
    assert(out@ =~= before + encode_utf8(s@).push(0u8));
}

/// The views of a list of string slices.
pub open spec fn str_views(parts: Seq<&str>) -> Seq<Seq<char>> {
    parts.map_values(|p: &str| p@)
}

/// Builds a deterministic, compact id from semantic parts: the prefix, a
/// colon, and the first sixteen hex digits of the SHA-1 of the parts.
/// Equal inputs give equal ids. Not a security primitive.
pub fn stable_id(prefix: &str, parts: &[&str]) -> (r: String)
    ensures
        r@ == stable_id_spec(prefix@, str_views(parts@)),
{
    let mut msg: Vec<u8> = Vec::new();
    push_part(&mut msg, prefix);
    assert(msg@ =~= encode_utf8(prefix@).push(0u8));
    let mut i: usize = 0;
    while i < parts.len()
        invariant
            i <= parts@.len(),
            msg@ == id_message(prefix@, str_views(parts@).take(i as int)),
        decreases parts@.len() - i,
    {
        push_part(&mut msg, parts[i]);
        let ghost ps = str_views(parts@).take(i + 1);
        assert(ps.drop_last() =~= str_views(parts@).take(i as int));
        i = i + 1;
    }
    assert(str_views(parts@).take(parts@.len() as int) =~= str_views(parts@));
    let digest = sha1_digest(msg.as_slice());
    let hex = hex_prefix(&digest, 16);
    let mut out = String::new();
    push_str(&mut out, prefix);
    out.push(':');
    let hs = chars_of(hex.as_str());
    let mut j: usize = 0;
    let ghost before = out@;
    while j < hs.len()
        invariant
            j <= hs.len(),
            out@ == before + hs@.take(j as int),
        decreases hs.len() - j,
    {
        out.push(hs[j]);
        j = j + 1;
        assert(out@ =~= before + hs@.take(j as int));
    }
    assert(hs@.take(hs.len() as int) =~= hs@);
    out
}

} // verus!
