//! Primitive binary codecs: fixed little-endian encodings for the integer
//! primitives, a big-endian 16-byte encoding for 128-bit type/instance
//! identifiers, a one-byte encoding for booleans, and a length-prefixed
//! UTF-8 encoding for strings.
//!
//! Every codec comes in three parts: a spec-level encoder (`senc_*`), a
//! spec-level decoder over a byte stream (`sdec_*`, returning the decoded
//! value and the number of bytes consumed), and executable functions proved
//! against them.  The `lemma_*_round_trip` lemmas show that decoding an
//! encoding consumes exactly the encoding and yields the encoded value,
//! which is the backbone of the tree round-trip proof.

use vstd::prelude::*;

verus! {

use vstd::utf8::{encode_utf8, decode_utf8, valid_utf8};

// ---------------------------------------------------------------------------
// spec encoders
// ---------------------------------------------------------------------------

pub open spec fn senc_u8(v: u8) -> Seq<u8> {
    seq![v]
}

pub open spec fn senc_u16(v: u16) -> Seq<u8> {
    seq![(v & 0xff) as u8, ((v >> 8) & 0xff) as u8]
}

pub open spec fn senc_u32(v: u32) -> Seq<u8> {
    seq![
        (v & 0xff) as u8,
        ((v >> 8) & 0xff) as u8,
        ((v >> 16) & 0xff) as u8,
        ((v >> 24) & 0xff) as u8,
    ]
}

pub open spec fn senc_u64(v: u64) -> Seq<u8> {
    seq![
        (v & 0xff) as u8,
        ((v >> 8) & 0xff) as u8,
        ((v >> 16) & 0xff) as u8,
        ((v >> 24) & 0xff) as u8,
        ((v >> 32) & 0xff) as u8,
        ((v >> 40) & 0xff) as u8,
        ((v >> 48) & 0xff) as u8,
        ((v >> 56) & 0xff) as u8,
    ]
}

/// A signed 64-bit value is stored as its two's-complement bit pattern.
pub open spec fn senc_i64(v: i64) -> Seq<u8> {
    senc_u64(v as u64)
}

/// 128-bit identifiers are stored big-endian, matching the canonical byte
/// order of a textual identifier's fields.
pub open spec fn senc_u128(v: u128) -> Seq<u8> {
    seq![
        ((v >> 120) & 0xff) as u8,
        ((v >> 112) & 0xff) as u8,
        ((v >> 104) & 0xff) as u8,
        ((v >> 96) & 0xff) as u8,
        ((v >> 88) & 0xff) as u8,
        ((v >> 80) & 0xff) as u8,
        ((v >> 72) & 0xff) as u8,
        ((v >> 64) & 0xff) as u8,
        ((v >> 56) & 0xff) as u8,
        ((v >> 48) & 0xff) as u8,
        ((v >> 40) & 0xff) as u8,
        ((v >> 32) & 0xff) as u8,
        ((v >> 24) & 0xff) as u8,
        ((v >> 16) & 0xff) as u8,
        ((v >> 8) & 0xff) as u8,
        (v & 0xff) as u8,
    ]
}

pub open spec fn senc_bool(v: bool) -> Seq<u8> {
    seq![if v { 1u8 } else { 0u8 }]
}

/// Strings: an 8-byte little-endian byte count followed by the UTF-8 bytes.
pub open spec fn senc_str(s: Seq<char>) -> Seq<u8> {
    senc_u64(encode_utf8(s).len() as u64) + encode_utf8(s)
}

// ---------------------------------------------------------------------------
// spec decoders: value and number of bytes consumed
// ---------------------------------------------------------------------------

pub open spec fn sdec_u8(s: Seq<u8>) -> Option<(u8, int)> {
    if s.len() >= 1 {
        Some((s[0], 1int))
    } else {
        None
    }
}

pub open spec fn sdec_u16(s: Seq<u8>) -> Option<(u16, int)> {
    if s.len() >= 2 {
        Some(((s[0] as u16 | (s[1] as u16) << 8) as u16, 2int))
    } else {
        None
    }
}

pub open spec fn sdec_u32(s: Seq<u8>) -> Option<(u32, int)> {
    if s.len() >= 4 {
        Some((
            (s[0] as u32 | (s[1] as u32) << 8 | (s[2] as u32) << 16 | (s[3] as u32) << 24) as u32,
            4int,
        ))
    } else {
        None
    }
}

pub open spec fn sdec_u64(s: Seq<u8>) -> Option<(u64, int)> {
    if s.len() >= 8 {
        Some((
            (s[0] as u64 | (s[1] as u64) << 8 | (s[2] as u64) << 16 | (s[3] as u64) << 24
                | (s[4] as u64) << 32 | (s[5] as u64) << 40 | (s[6] as u64) << 48
                | (s[7] as u64) << 56) as u64,
            8int,
        ))
    } else {
        None
    }
}

pub open spec fn sdec_i64(s: Seq<u8>) -> Option<(i64, int)> {
    match sdec_u64(s) {
        Some((v, n)) => Some((v as i64, n)),
        None => None,
    }
}

pub open spec fn sdec_u128(s: Seq<u8>) -> Option<(u128, int)> {
    if s.len() >= 16 {
        Some((
            ((s[0] as u128) << 120 | (s[1] as u128) << 112 | (s[2] as u128) << 104
                | (s[3] as u128) << 96 | (s[4] as u128) << 88 | (s[5] as u128) << 80
                | (s[6] as u128) << 72 | (s[7] as u128) << 64 | (s[8] as u128) << 56
                | (s[9] as u128) << 48 | (s[10] as u128) << 40 | (s[11] as u128) << 32
                | (s[12] as u128) << 24 | (s[13] as u128) << 16 | (s[14] as u128) << 8
                | s[15] as u128) as u128,
            16int,
        ))
    } else {
        None
    }
}

/// Any byte other than 0 or 1 is malformed boolean data.
pub open spec fn sdec_bool(s: Seq<u8>) -> Option<(bool, int)> {
    if s.len() >= 1 {
        if s[0] == 1u8 {
            Some((true, 1int))
        } else if s[0] == 0u8 {
            Some((false, 1int))
        } else {
            None
        }
    } else {
        None
    }
}

pub open spec fn sdec_str(s: Seq<u8>) -> Option<(Seq<char>, int)> {
    match sdec_u64(s) {
        Some((n, _)) => {
            if n + 8 <= s.len() {
                let body = s.subrange(8, 8 + n as int);
                if valid_utf8(body) {
                    Some((decode_utf8(body), 8 + n as int))
                } else {
                    None
                }
            } else {
                None
            }
        },
        None => None,
    }
}

// ---------------------------------------------------------------------------
// round-trip lemmas
// ---------------------------------------------------------------------------

proof fn lemma_u16_bits(v: u16)
    ensures
        ((v & 0xff) as u8 as u16 | (((v >> 8) & 0xff) as u8 as u16) << 8) as u16 == v,
{
    assert(((v & 0xff) as u8 as u16 | (((v >> 8) & 0xff) as u8 as u16) << 8) as u16 == v)
        by (bit_vector);
}

proof fn lemma_u32_bits(v: u32)
    ensures
        ((v & 0xff) as u8 as u32 | (((v >> 8) & 0xff) as u8 as u32) << 8 | (((v >> 16)
            & 0xff) as u8 as u32) << 16 | (((v >> 24) & 0xff) as u8 as u32) << 24) as u32 == v,
{
    assert(((v & 0xff) as u8 as u32 | (((v >> 8) & 0xff) as u8 as u32) << 8 | (((v >> 16)
        & 0xff) as u8 as u32) << 16 | (((v >> 24) & 0xff) as u8 as u32) << 24) as u32 == v)
        by (bit_vector);
}

proof fn lemma_u64_bits(v: u64)
    ensures
        ((v & 0xff) as u8 as u64 | (((v >> 8) & 0xff) as u8 as u64) << 8 | (((v >> 16)
            & 0xff) as u8 as u64) << 16 | (((v >> 24) & 0xff) as u8 as u64) << 24 | (((v >> 32)
            & 0xff) as u8 as u64) << 32 | (((v >> 40) & 0xff) as u8 as u64) << 40 | (((v >> 48)
            & 0xff) as u8 as u64) << 48 | (((v >> 56) & 0xff) as u8 as u64) << 56) as u64 == v,
{
    assert(((v & 0xff) as u8 as u64 | (((v >> 8) & 0xff) as u8 as u64) << 8 | (((v >> 16)
        & 0xff) as u8 as u64) << 16 | (((v >> 24) & 0xff) as u8 as u64) << 24 | (((v >> 32)
        & 0xff) as u8 as u64) << 32 | (((v >> 40) & 0xff) as u8 as u64) << 40 | (((v >> 48)
        & 0xff) as u8 as u64) << 48 | (((v >> 56) & 0xff) as u8 as u64) << 56) as u64 == v)
        by (bit_vector);
}

proof fn lemma_u128_bits(v: u128)
    ensures
        ((((v >> 120) & 0xff) as u8 as u128) << 120 | (((v >> 112) & 0xff) as u8 as u128) << 112
            | (((v >> 104) & 0xff) as u8 as u128) << 104 | (((v >> 96) & 0xff) as u8 as u128)
            << 96 | (((v >> 88) & 0xff) as u8 as u128) << 88 | (((v >> 80) & 0xff) as u8 as u128)
            << 80 | (((v >> 72) & 0xff) as u8 as u128) << 72 | (((v >> 64) & 0xff) as u8 as u128)
            << 64 | (((v >> 56) & 0xff) as u8 as u128) << 56 | (((v >> 48) & 0xff) as u8 as u128)
            << 48 | (((v >> 40) & 0xff) as u8 as u128) << 40 | (((v >> 32) & 0xff) as u8 as u128)
            << 32 | (((v >> 24) & 0xff) as u8 as u128) << 24 | (((v >> 16) & 0xff) as u8 as u128)
            << 16 | (((v >> 8) & 0xff) as u8 as u128) << 8 | (v & 0xff) as u8 as u128) as u128
            == v,
{
    assert(((((v >> 120) & 0xff) as u8 as u128) << 120 | (((v >> 112) & 0xff) as u8 as u128)
        << 112 | (((v >> 104) & 0xff) as u8 as u128) << 104 | (((v >> 96) & 0xff) as u8 as u128)
        << 96 | (((v >> 88) & 0xff) as u8 as u128) << 88 | (((v >> 80) & 0xff) as u8 as u128)
        << 80 | (((v >> 72) & 0xff) as u8 as u128) << 72 | (((v >> 64) & 0xff) as u8 as u128)
        << 64 | (((v >> 56) & 0xff) as u8 as u128) << 56 | (((v >> 48) & 0xff) as u8 as u128)
        << 48 | (((v >> 40) & 0xff) as u8 as u128) << 40 | (((v >> 32) & 0xff) as u8 as u128)
        << 32 | (((v >> 24) & 0xff) as u8 as u128) << 24 | (((v >> 16) & 0xff) as u8 as u128)
        << 16 | (((v >> 8) & 0xff) as u8 as u128) << 8 | (v & 0xff) as u8 as u128) as u128 == v)
        by (bit_vector);
}

pub proof fn lemma_u8_round_trip(v: u8, rest: Seq<u8>)
    ensures
        sdec_u8(senc_u8(v) + rest) == Some((v, 1int)),
{
    assert((senc_u8(v) + rest)[0] == v);
}

pub proof fn lemma_u16_round_trip(v: u16, rest: Seq<u8>)
    ensures
        sdec_u16(senc_u16(v) + rest) == Some((v, 2int)),
{
    let s = senc_u16(v) + rest;
    assert(forall|i: int| 0 <= i < 2 ==> s[i] == senc_u16(v)[i]);
    lemma_u16_bits(v);
}

pub proof fn lemma_u32_round_trip(v: u32, rest: Seq<u8>)
    ensures
        sdec_u32(senc_u32(v) + rest) == Some((v, 4int)),
{
    let s = senc_u32(v) + rest;
    assert(forall|i: int| 0 <= i < 4 ==> s[i] == senc_u32(v)[i]);
    lemma_u32_bits(v);
}

pub proof fn lemma_u64_round_trip(v: u64, rest: Seq<u8>)
    ensures
        sdec_u64(senc_u64(v) + rest) == Some((v, 8int)),
{
    let s = senc_u64(v) + rest;
    assert(forall|i: int| 0 <= i < 8 ==> s[i] == senc_u64(v)[i]);
    lemma_u64_bits(v);
}

pub proof fn lemma_i64_round_trip(v: i64, rest: Seq<u8>)
    ensures
        sdec_i64(senc_i64(v) + rest) == Some((v, 8int)),
{
    lemma_u64_round_trip(v as u64, rest);
    assert(v as u64 as i64 == v) by (bit_vector);
}

pub proof fn lemma_u128_round_trip(v: u128, rest: Seq<u8>)
    ensures
        sdec_u128(senc_u128(v) + rest) == Some((v, 16int)),
{
    let s = senc_u128(v) + rest;
    assert(forall|i: int| 0 <= i < 16 ==> s[i] == senc_u128(v)[i]);
    lemma_u128_bits(v);
}

pub proof fn lemma_bool_round_trip(v: bool, rest: Seq<u8>)
    ensures
        sdec_bool(senc_bool(v) + rest) == Some((v, 1int)),
{
    assert((senc_bool(v) + rest)[0] == if v { 1u8 } else { 0u8 });
}

pub proof fn lemma_str_round_trip(s: Seq<char>, rest: Seq<u8>)
    requires
        encode_utf8(s).len() < 0x8000_0000_0000_0000,
    ensures
        sdec_str(senc_str(s) + rest) == Some((s, 8 + encode_utf8(s).len() as int)),
{
    let body = encode_utf8(s);
    let n = body.len() as u64;
    let whole = senc_str(s) + rest;
    assert(whole =~= senc_u64(n) + (body + rest));
    lemma_u64_round_trip(n, body + rest);
    assert(whole.subrange(8, 8 + n as int) =~= body);
    vstd::utf8::encode_utf8_valid_utf8(s);
    vstd::utf8::encode_utf8_decode_utf8(s);
}

// ---------------------------------------------------------------------------
// executable encoders
// ---------------------------------------------------------------------------

pub fn encode_u8(out: &mut Vec<u8>, v: u8)
    ensures
        final(out)@ == old(out)@ + senc_u8(v),
{
    out.push(v);
    assert(out@ =~= old(out)@ + senc_u8(v));
}

pub fn encode_u16(out: &mut Vec<u8>, v: u16)
    ensures
        final(out)@ == old(out)@ + senc_u16(v),
{
    out.push((v & 0xff) as u8);
    out.push(((v >> 8) & 0xff) as u8);
    assert(out@ =~= old(out)@ + senc_u16(v));
}

pub fn encode_u32(out: &mut Vec<u8>, v: u32)
    ensures
        final(out)@ == old(out)@ + senc_u32(v),
{
    out.push((v & 0xff) as u8);
    out.push(((v >> 8) & 0xff) as u8);
    out.push(((v >> 16) & 0xff) as u8);
    out.push(((v >> 24) & 0xff) as u8);
    assert(out@ =~= old(out)@ + senc_u32(v));
}

pub fn encode_u64(out: &mut Vec<u8>, v: u64)
    ensures
        final(out)@ == old(out)@ + senc_u64(v),
{
    out.push((v & 0xff) as u8);
    out.push(((v >> 8) & 0xff) as u8);
    out.push(((v >> 16) & 0xff) as u8);
    out.push(((v >> 24) & 0xff) as u8);
    out.push(((v >> 32) & 0xff) as u8);
    out.push(((v >> 40) & 0xff) as u8);
    out.push(((v >> 48) & 0xff) as u8);
    out.push(((v >> 56) & 0xff) as u8);
    assert(out@ =~= old(out)@ + senc_u64(v));
}

pub fn encode_i64(out: &mut Vec<u8>, v: i64)
    ensures
        final(out)@ == old(out)@ + senc_i64(v),
{
    encode_u64(out, v as u64);
}

pub fn encode_u128(out: &mut Vec<u8>, v: u128)
    ensures
        final(out)@ == old(out)@ + senc_u128(v),
{
    out.push(((v >> 120) & 0xff) as u8);
    out.push(((v >> 112) & 0xff) as u8);
    out.push(((v >> 104) & 0xff) as u8);
    out.push(((v >> 96) & 0xff) as u8);
    out.push(((v >> 88) & 0xff) as u8);
    out.push(((v >> 80) & 0xff) as u8);
    out.push(((v >> 72) & 0xff) as u8);
    out.push(((v >> 64) & 0xff) as u8);
    out.push(((v >> 56) & 0xff) as u8);
    out.push(((v >> 48) & 0xff) as u8);
    out.push(((v >> 40) & 0xff) as u8);
    out.push(((v >> 32) & 0xff) as u8);
    out.push(((v >> 24) & 0xff) as u8);
    out.push(((v >> 16) & 0xff) as u8);
    out.push(((v >> 8) & 0xff) as u8);
    out.push((v & 0xff) as u8);
    assert(out@ =~= old(out)@ + senc_u128(v));
}

pub fn encode_bool(out: &mut Vec<u8>, v: bool)
    ensures
        final(out)@ == old(out)@ + senc_bool(v),
{
    out.push(if v { 1u8 } else { 0u8 });
    assert(out@ =~= old(out)@ + senc_bool(v));
}

pub fn encode_string(out: &mut Vec<u8>, s: &String)
    ensures
        final(out)@ == old(out)@ + senc_str(s@),
{
    let bytes = s.as_str().as_bytes_vec();
    encode_u64(out, bytes.len() as u64);
    let mut i: usize = 0;
    while i < bytes.len()
        invariant
            i <= bytes.len(),
            bytes@ == encode_utf8(s@),
            out@ == old(out)@ + senc_u64(bytes@.len() as u64) + bytes@.subrange(0, i as int),
        decreases bytes.len() - i,
    {
        let b = bytes[i];
        out.push(b);
        assert(out@ =~= old(out)@ + senc_u64(bytes@.len() as u64) + bytes@.subrange(
            0,
            i + 1 as int,
        ));
        i = i + 1;
    }
    assert(bytes@.subrange(0, bytes@.len() as int) =~= bytes@);
    assert(out@ =~= old(out)@ + senc_str(s@));
}

// ---------------------------------------------------------------------------
// executable decoders
// ---------------------------------------------------------------------------

/// The unread remainder of the stream, from the cursor to the end.
pub open spec fn stream_from(data: Seq<u8>, pos: int) -> Seq<u8> {
    data.subrange(pos, data.len() as int)
}

pub fn decode_u8(data: &Vec<u8>, pos: &mut usize) -> (r: Option<u8>)
    requires
        *old(pos) <= data@.len(),
    ensures
        *final(pos) <= data@.len(),
        match r {
            Some(v) => sdec_u8(stream_from(data@, *old(pos) as int)) == Some((
                v,
                *final(pos) - *old(pos),
            )),
            None => sdec_u8(stream_from(data@, *old(pos) as int)) is None && *final(pos) == *old(
                pos,
            ),
        },
{
    if *pos < data.len() {
        let v = data[*pos];
        *pos = *pos + 1;
        Some(v)
    } else {
        None
    }
}

pub fn decode_u16(data: &Vec<u8>, pos: &mut usize) -> (r: Option<u16>)
    requires
        *old(pos) <= data@.len(),
    ensures
        *final(pos) <= data@.len(),
        match r {
            Some(v) => sdec_u16(stream_from(data@, *old(pos) as int)) == Some((
                v,
                *final(pos) - *old(pos),
            )),
            None => sdec_u16(stream_from(data@, *old(pos) as int)) is None && *final(pos) == *old(
                pos,
            ),
        },
{
    if data.len() - *pos >= 2 {
        let b0 = data[*pos];
        let b1 = data[*pos + 1];
        *pos = *pos + 2;
        Some(b0 as u16 | (b1 as u16) << 8u16)
    } else {
        None
    }
}

pub fn decode_u32(data: &Vec<u8>, pos: &mut usize) -> (r: Option<u32>)
    requires
        *old(pos) <= data@.len(),
    ensures
        *final(pos) <= data@.len(),
        match r {
            Some(v) => sdec_u32(stream_from(data@, *old(pos) as int)) == Some((
                v,
                *final(pos) - *old(pos),
            )),
            None => sdec_u32(stream_from(data@, *old(pos) as int)) is None && *final(pos) == *old(
                pos,
            ),
        },
{
    if data.len() - *pos >= 4 {
        let b0 = data[*pos];
        let b1 = data[*pos + 1];
        let b2 = data[*pos + 2];
        let b3 = data[*pos + 3];
        *pos = *pos + 4;
        Some(b0 as u32 | (b1 as u32) << 8u32 | (b2 as u32) << 16u32 | (b3 as u32) << 24u32)
    } else {
        None
    }
}

pub fn decode_u64(data: &Vec<u8>, pos: &mut usize) -> (r: Option<u64>)
    requires
        *old(pos) <= data@.len(),
    ensures
        *final(pos) <= data@.len(),
        match r {
            Some(v) => sdec_u64(stream_from(data@, *old(pos) as int)) == Some((
                v,
                *final(pos) - *old(pos),
            )),
            None => sdec_u64(stream_from(data@, *old(pos) as int)) is None && *final(pos) == *old(
                pos,
            ),
        },
{
    if data.len() - *pos >= 8 {
        let b0 = data[*pos];
        let b1 = data[*pos + 1];
        let b2 = data[*pos + 2];
        let b3 = data[*pos + 3];
        let b4 = data[*pos + 4];
        let b5 = data[*pos + 5];
        let b6 = data[*pos + 6];
        let b7 = data[*pos + 7];
        *pos = *pos + 8;
        Some(
            b0 as u64 | (b1 as u64) << 8u64 | (b2 as u64) << 16u64 | (b3 as u64) << 24u64 | (
            b4 as u64) << 32u64 | (b5 as u64) << 40u64 | (b6 as u64) << 48u64 | (b7 as u64)
                << 56u64,
        )
    } else {
        None
    }
}

pub fn decode_i64(data: &Vec<u8>, pos: &mut usize) -> (r: Option<i64>)
    requires
        *old(pos) <= data@.len(),
    ensures
        *final(pos) <= data@.len(),
        match r {
            Some(v) => sdec_i64(stream_from(data@, *old(pos) as int)) == Some((
                v,
                *final(pos) - *old(pos),
            )),
            None => sdec_i64(stream_from(data@, *old(pos) as int)) is None && *final(pos) == *old(
                pos,
            ),
        },
{
    match decode_u64(data, pos) {
        Some(v) => Some(v as i64),
        None => None,
    }
}

pub fn decode_u128(data: &Vec<u8>, pos: &mut usize) -> (r: Option<u128>)
    requires
        *old(pos) <= data@.len(),
    ensures
        *final(pos) <= data@.len(),
        match r {
            Some(v) => sdec_u128(stream_from(data@, *old(pos) as int)) == Some((
                v,
                *final(pos) - *old(pos),
            )),
            None => sdec_u128(stream_from(data@, *old(pos) as int)) is None && *final(pos)
                == *old(pos),
        },
{
    if data.len() - *pos >= 16 {
        let mut v: u128 = 0;
        let b0 = data[*pos];
        let b1 = data[*pos + 1];
        let b2 = data[*pos + 2];
        let b3 = data[*pos + 3];
        let b4 = data[*pos + 4];
        let b5 = data[*pos + 5];
        let b6 = data[*pos + 6];
        let b7 = data[*pos + 7];
        let b8 = data[*pos + 8];
        let b9 = data[*pos + 9];
        let b10 = data[*pos + 10];
        let b11 = data[*pos + 11];
        let b12 = data[*pos + 12];
        let b13 = data[*pos + 13];
        let b14 = data[*pos + 14];
        let b15 = data[*pos + 15];
        *pos = *pos + 16;
        v = (b0 as u128) << 120u128 | (b1 as u128) << 112u128 | (b2 as u128) << 104u128 | (
        b3 as u128) << 96u128 | (b4 as u128) << 88u128 | (b5 as u128) << 80u128 | (b6 as u128)
            << 72u128 | (b7 as u128) << 64u128 | (b8 as u128) << 56u128 | (b9 as u128) << 48u128
            | (b10 as u128) << 40u128 | (b11 as u128) << 32u128 | (b12 as u128) << 24u128 | (
        b13 as u128) << 16u128 | (b14 as u128) << 8u128 | b15 as u128;
        Some(v)
    } else {
        None
    }
}

pub fn decode_bool(data: &Vec<u8>, pos: &mut usize) -> (r: Option<bool>)
    requires
        *old(pos) <= data@.len(),
    ensures
        *final(pos) <= data@.len(),
        match r {
            Some(v) => sdec_bool(stream_from(data@, *old(pos) as int)) == Some((
                v,
                *final(pos) - *old(pos),
            )),
            None => sdec_bool(stream_from(data@, *old(pos) as int)) is None && *final(pos)
                == *old(pos),
        },
{
    if *pos < data.len() {
        let b = data[*pos];
        if b == 1 {
            *pos = *pos + 1;
            Some(true)
        } else if b == 0 {
            *pos = *pos + 1;
            Some(false)
        } else {
            None
        }
    } else {
        None
    }
}

/// Relies on `String::from_utf8`: it succeeds exactly on valid UTF-8 input
/// and returns the string whose characters decode those bytes.
#[verifier::external_body]
fn bytes_to_string(v: Vec<u8>) -> (r: Option<String>)
    ensures
        match r {
            Some(s) => valid_utf8(v@) && s@ == decode_utf8(v@),
            None => !valid_utf8(v@),
        },
{
    match String::from_utf8(v) {
        Ok(s) => Some(s),
        Err(_) => None,
    }
}

pub fn decode_string(data: &Vec<u8>, pos: &mut usize) -> (r: Option<String>)
    requires
        *old(pos) <= data@.len(),
    ensures
        *final(pos) <= data@.len(),
        match r {
            Some(v) => sdec_str(stream_from(data@, *old(pos) as int)) == Some((
                v@,
                *final(pos) - *old(pos),
            )),
            None => sdec_str(stream_from(data@, *old(pos) as int)) is None && *final(pos) == *old(
                pos,
            ),
        },
{
    let start: usize = *pos;
    let ghost stream = stream_from(data@, *old(pos) as int);
    match decode_u64(data, pos) {
        Some(n) => {
            if n <= (data.len() - *pos) as u64 {
                let nn = n as usize;
                let end: usize = *pos + nn;
                let mut body: Vec<u8> = Vec::new();
                let mut j: usize = *pos;
                while j < end
                    invariant
                        *pos <= j <= end,
                        end == *pos + nn,
                        end <= data@.len(),
                        body@ =~= data@.subrange(*pos as int, j as int),
                    decreases end - j,
                {
                    let b = data[j];
                    body.push(b);
                    assert(body@ =~= data@.subrange(*pos as int, j + 1 as int));
                    j = j + 1;
                }
                assert(body@ =~= stream.subrange(8, 8 + n as int));
                match bytes_to_string(body) {
                    Some(s) => {
                        *pos = *pos + nn;
                        Some(s)
                    },
                    None => {
                        *pos = start;
                        None
                    },
                }
            } else {
                *pos = start;
                None
            }
        },
        None => {
            *pos = start;
            None
        },
    }
}

} // verus!
