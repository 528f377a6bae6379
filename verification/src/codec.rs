//! The binary codec for values: little-endian, fixed layout per data type.
//!
//! Int is 8 bytes signed; Float is the 8 bytes of the IEEE 754 bit pattern;
//! Char is a single byte (a code point above 255 is truncated, a known
//! narrowing of the format); Serial is 4 bytes unsigned; String and Email are
//! an 8-byte unsigned length prefix followed by that many UTF-8 bytes.

use vstd::prelude::*;
use vstd::bytes::*;
use vstd::slice::{slice_subrange, slice_to_vec};
use vstd::string::StrSliceExecFns;
use vstd::utf8::*;

use crate::types::{DataType, TypedValue, Val};

verus! {

/// The one byte a char is stored as: its code point truncated to 8 bits.
pub open spec fn char_byte(c: char) -> u8 {
    (c as u32 % 256) as u8
}

/// The encoded bytes of a value.
pub open spec fn encode_value(v: Val) -> Seq<u8> {
    match v {
        Val::Int(i) => spec_u64_to_le_bytes(i as u64),
        Val::Float(b) => spec_u64_to_le_bytes(b),
        Val::Char(c) => seq![char_byte(c)],
        Val::Str(s) => spec_u64_to_le_bytes(encode_utf8(s).len() as u64) + encode_utf8(s),
        Val::Serial(u) => spec_u32_to_le_bytes(u),
        Val::Email(s) => spec_u64_to_le_bytes(encode_utf8(s).len() as u64) + encode_utf8(s),
    }
}

/// Whether a value survives the codec unchanged: a char must fit in one
/// byte, and an encoded string must fit behind its 64-bit length prefix.
/// Every value that exists in a running engine satisfies the length bound;
/// the char bound is the format's known narrowing.
pub open spec fn val_wf(v: Val) -> bool {
    match v {
        Val::Char(c) => (c as u32) < 256,
        Val::Str(s) => encode_utf8(s).len() <= u64::MAX,
        Val::Email(s) => encode_utf8(s).len() <= u64::MAX,
        _ => true,
    }
}

/// The decoded value of type `dt` at `pos`, with the position after it;
/// `None` on truncated input, an oversized length, or invalid UTF-8.
pub open spec fn decode_value(dt: DataType, bytes: Seq<u8>, pos: int) -> Option<(Val, int)> {
    match dt {
        DataType::Int => if pos + 8 <= bytes.len() {
            Some((Val::Int(spec_u64_from_le_bytes(bytes.subrange(pos, pos + 8)) as i64), pos + 8))
        } else {
            None
        },
        DataType::Float => if pos + 8 <= bytes.len() {
            Some((Val::Float(spec_u64_from_le_bytes(bytes.subrange(pos, pos + 8))), pos + 8))
        } else {
            None
        },
        DataType::Char => if pos + 1 <= bytes.len() {
            Some((Val::Char(bytes[pos] as char), pos + 1))
        } else {
            None
        },
        DataType::Serial => if pos + 4 <= bytes.len() {
            Some((Val::Serial(spec_u32_from_le_bytes(bytes.subrange(pos, pos + 4))), pos + 4))
        } else {
            None
        },
        DataType::String => match decode_str_payload(bytes, pos) {
            Some((s, end)) => Some((Val::Str(s), end)),
            None => None,
        },
        DataType::Email => match decode_str_payload(bytes, pos) {
            Some((s, end)) => Some((Val::Email(s), end)),
            None => None,
        },
    }
}

/// A length-prefixed UTF-8 payload at `pos`.
pub open spec fn decode_str_payload(bytes: Seq<u8>, pos: int) -> Option<(Seq<char>, int)> {
    if pos + 8 <= bytes.len() {
        let n = spec_u64_from_le_bytes(bytes.subrange(pos, pos + 8)) as int;
        if pos + 8 + n <= bytes.len() {
            let payload = bytes.subrange(pos + 8, pos + 8 + n);
            if valid_utf8(payload) {
                Some((decode_utf8(payload), pos + 8 + n))
            } else {
                None
            }
        } else {
            None
        }
    } else {
        None
    }
}

/// Encodes a value, as it is laid out inside a row.
pub fn value_to_bytes(v: &TypedValue) -> (r: Vec<u8>)
    ensures
        r@ == encode_value(v@),
        v@ is Str || v@ is Email ==> val_wf(v@),
{
    proof {
        lemma_auto_spec_u64_to_from_le_bytes();
        lemma_auto_spec_u32_to_from_le_bytes();
    }
    match v {
        TypedValue::Int(i) => u64_to_le_bytes(*i as u64),
        TypedValue::Float(b) => u64_to_le_bytes(*b),
        TypedValue::Char(c) => {
            let u: u32 = *c as u32;
            let b: u8 = (u % 256) as u8;
            let mut out = Vec::new();
            out.push(b);
            proof {
                assert(out@ =~= seq![char_byte(*c)]);
            }
            out
        },
        TypedValue::String(s) => str_payload_to_bytes(s),
        TypedValue::Serial(u) => u32_to_le_bytes(*u),
        TypedValue::Email(s) => str_payload_to_bytes(s),
    }
}

/// The length prefix and UTF-8 bytes shared by String and Email.
fn str_payload_to_bytes(s: &String) -> (r: Vec<u8>)
    ensures
        r@ == spec_u64_to_le_bytes(encode_utf8(s@).len() as u64) + encode_utf8(s@),
        encode_utf8(s@).len() <= u64::MAX,
{
    let bytes = s.as_str().as_bytes_vec();
    let mut out = u64_to_le_bytes(bytes.len() as u64);
    let ghost prefix = out@;
    let mut bytes = bytes;
    out.append(&mut bytes);
    proof {
        assert(out@ =~= prefix + encode_utf8(s@));
    }
    out
}

/// Relies on `String::from_utf8`: it succeeds exactly on valid UTF-8 input
/// and decodes it to the characters the bytes encode.
#[verifier::external_body]
fn bytes_to_string(v: Vec<u8>) -> (r: Option<String>)
    ensures
        r is Some <==> valid_utf8(v@),
        r matches Some(s) ==> s@ == decode_utf8(v@),
{
    String::from_utf8(v).ok()
}

/// Decodes the value of type `dt` at `pos`, returning it with the position
/// just past it.
pub fn value_from_bytes(dt: DataType, data: &Vec<u8>, pos: usize) -> (r: Option<(TypedValue, usize)>)
    ensures
        match r {
            Some((v, end)) => decode_value(dt, data@, pos as int) == Some((v@, end as int))
                && pos <= end <= data@.len(),
            None => decode_value(dt, data@, pos as int) is None,
        },
{
    proof {
        lemma_auto_spec_u64_to_from_le_bytes();
        lemma_auto_spec_u32_to_from_le_bytes();
    }
    let n = data.len();
    match dt {
        DataType::Int => {
            if pos < n && n - pos >= 8 {
                let chunk = slice_subrange(data.as_slice(), pos, pos + 8);
                let x = u64_from_le_bytes(chunk);
                Some((TypedValue::Int(x as i64), pos + 8))
            } else {
                None
            }
        },
        DataType::Float => {
            if pos < n && n - pos >= 8 {
                let chunk = slice_subrange(data.as_slice(), pos, pos + 8);
                let x = u64_from_le_bytes(chunk);
                Some((TypedValue::Float(x), pos + 8))
            } else {
                None
            }
        },
        DataType::Char => {
            if pos < n {
                let b = data[pos];
                Some((TypedValue::Char(b as char), pos + 1))
            } else {
                None
            }
        },
        DataType::Serial => {
            if pos < n && n - pos >= 4 {
                let chunk = slice_subrange(data.as_slice(), pos, pos + 4);
                let x = u32_from_le_bytes(chunk);
                Some((TypedValue::Serial(x), pos + 4))
            } else {
                None
            }
        },
        DataType::String => {
            match str_payload_from_bytes(data, pos) {
                Some((s, end)) => Some((TypedValue::String(s), end)),
                None => None,
            }
        },
        DataType::Email => {
            match str_payload_from_bytes(data, pos) {
                Some((s, end)) => Some((TypedValue::Email(s), end)),
                None => None,
            }
        },
    }
}

/// Reads a length-prefixed UTF-8 payload.
fn str_payload_from_bytes(data: &Vec<u8>, pos: usize) -> (r: Option<(String, usize)>)
    ensures
        match r {
            Some((s, end)) => decode_str_payload(data@, pos as int) == Some((s@, end as int))
                && pos <= end <= data@.len(),
            None => decode_str_payload(data@, pos as int) is None,
        },
{
    proof {
        lemma_auto_spec_u64_to_from_le_bytes();
    }
    let n = data.len();
    if pos < n && n - pos >= 8 {
        let chunk = slice_subrange(data.as_slice(), pos, pos + 8);
        let len64 = u64_from_le_bytes(chunk);
        if len64 <= (n - pos - 8) as u64 {
            let len = len64 as usize;
            let payload = slice_to_vec(slice_subrange(data.as_slice(), pos + 8, pos + 8 + len));
            match bytes_to_string(payload) {
                Some(s) => Some((s, pos + 8 + len)),
                None => None,
            }
        } else {
            None
        }
    } else {
        None
    }
}

impl TypedValue {
    /// The value's encoded bytes, as stored inside a row.
    pub fn into_bytes(self) -> (r: Vec<u8>)
        ensures
            r@ == encode_value(self@),
    {
        value_to_bytes(&self)
    }

    /// Reads one value of the given type from the bytes at `pos`.
    pub fn read(data_type: DataType, data: &Vec<u8>, pos: usize) -> (r: Option<
        (TypedValue, usize),
    >)
        ensures
            match r {
                Some((v, end)) => decode_value(data_type, data@, pos as int) == Some((
                    v@,
                    end as int,
                )) && pos <= end <= data@.len(),
                None => decode_value(data_type, data@, pos as int) is None,
            },
    {
        value_from_bytes(data_type, data, pos)
    }
}

} // verus!

verus! {

/// Round trip: decoding what `encode_value` wrote, at any position in a
/// larger stream, yields the value back and lands just past it.
pub proof fn lemma_codec_round_trip(v: Val, bytes: Seq<u8>, pos: int)
    requires
        val_wf(v),
        0 <= pos,
        pos + encode_value(v).len() <= bytes.len(),
        bytes.subrange(pos, pos + encode_value(v).len() as int) =~= encode_value(v),
    ensures
        decode_value(v.data_type(), bytes, pos) == Some((v, pos + encode_value(v).len())),
{
    lemma_auto_spec_u64_to_from_le_bytes();
    lemma_auto_spec_u32_to_from_le_bytes();
    match v {
        Val::Int(i) => {
            assert(bytes.subrange(pos, pos + 8) =~= encode_value(v));
            assert(((i as u64) as i64) == i) by (bit_vector);
        },
        Val::Float(b) => {
            assert(bytes.subrange(pos, pos + 8) =~= encode_value(v));
        },
        Val::Char(c) => {
            assert(bytes.subrange(pos, pos + 1) =~= encode_value(v));
            assert(bytes.subrange(pos, pos + 1)[0] == char_byte(c));
            assert(bytes.subrange(pos, pos + 1)[0] == bytes[pos]);
            assert(bytes[pos] == char_byte(c));
            assert((c as u32) % 256 == c as u32);
            let b = char_byte(c);
            assert(b as u32 == c as u32);
            broadcast use char_u32_cast;
            assert((b as char) as u32 == b as u32);
            assert((b as char) == c);
        },
        Val::Serial(u) => {
            assert(bytes.subrange(pos, pos + 4) =~= encode_value(v));
        },
        Val::Str(s) => {
            lemma_str_payload_round_trip(s, bytes, pos);
        },
        Val::Email(s) => {
            lemma_str_payload_round_trip(s, bytes, pos);
        },
    }
}

/// Round trip for the length-prefixed UTF-8 payload layout.
proof fn lemma_str_payload_round_trip(s: Seq<char>, bytes: Seq<u8>, pos: int)
    requires
        encode_utf8(s).len() <= u64::MAX,
        0 <= pos,
        pos + 8 + encode_utf8(s).len() <= bytes.len(),
        bytes.subrange(pos, pos + 8 + encode_utf8(s).len()) =~= spec_u64_to_le_bytes(
            encode_utf8(s).len() as u64,
        ) + encode_utf8(s),
    ensures
        decode_str_payload(bytes, pos) == Some((s, pos + 8 + encode_utf8(s).len())),
{
    lemma_auto_spec_u64_to_from_le_bytes();
    let enc = encode_utf8(s);
    let n = enc.len() as int;
    assert(bytes.subrange(pos, pos + 8) =~= spec_u64_to_le_bytes(enc.len() as u64));
    assert(spec_u64_from_le_bytes(bytes.subrange(pos, pos + 8)) == enc.len() as u64);
    let whole = bytes.subrange(pos, pos + 8 + n);
    assert forall|i: int| 0 <= i < n implies bytes.subrange(pos + 8, pos + 8 + n)[i] == enc[i] by {
        assert(whole[8 + i] == enc[i]);
        assert(whole[8 + i] == bytes[pos + 8 + i]);
        assert(bytes.subrange(pos + 8, pos + 8 + n)[i] == bytes[pos + 8 + i]);
    }
    assert(bytes.subrange(pos + 8, pos + 8 + n) =~= enc);
    broadcast use encode_utf8_valid_utf8;
    broadcast use encode_utf8_decode_utf8;
    assert(valid_utf8(enc));
    assert(decode_utf8(enc) == s);
}

} // verus!
