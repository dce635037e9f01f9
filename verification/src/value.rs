//! What a field can hold for a message: text, a signed integer, or another
//! message.
//!
//! Text is a byte string in UTF-8. A signed integer is the varint of the 64
//! bits of its two's complement. A message inside another is the byte string
//! of its encoding.

use vstd::prelude::*;
use vstd::utf8::{decode_utf8, encode_utf8, valid_utf8};
use crate::error::DecodeError;
use crate::message::{decoding, encoding, viewed, Layout, Message};
use crate::wire::{
    field_bytes, field_ok, put_bytes_field, put_varint_field, Field, RawValue, WireValue, MAX_TAG,
};

verus! {

/// A field that holds text.
pub open spec fn text_field(tag: u64, s: Seq<char>) -> Field {
    Field { tag, value: WireValue::Bytes(encode_utf8(s)) }
}

/// A field that holds a signed integer, as the 64 bits of its two's
/// complement.
pub open spec fn int_field(tag: u64, v: i64) -> Field {
    Field { tag, value: WireValue::Varint(int_bits(v)) }
}

/// A field that holds the encoding of a value.
pub open spec fn nested_field<M: Layout>(tag: u64, v: M) -> Field {
    Field { tag, value: WireValue::Bytes(encoding(v)) }
}

/// The fields of a list of values, one field for each, all under one field
/// number and in the order of the list.
pub open spec fn repeated<M: Layout>(tag: u64, items: Seq<M>) -> Seq<Field> {
    items.map_values(|m: M| nested_field(tag, m))
}

/// The field of a text that may be missing: one field, or none.
pub open spec fn optional_text(tag: u64, text: Option<Seq<char>>) -> Seq<Field> {
    match text {
        Some(s) => seq![text_field(tag, s)],
        None => Seq::empty(),
    }
}

/// The 64 bits of the two's complement of `v`, as a number.
pub open spec fn int_bits(v: i64) -> u64 {
    if v >= 0 {
        v as u64
    } else {
        (v + 0x1_0000_0000_0000_0000) as u64
    }
}

/// The signed integer whose two's complement is `bits`.
pub open spec fn bits_int(bits: u64) -> i64 {
    if bits <= i64::MAX {
        bits as i64
    } else {
        (bits - 0x1_0000_0000_0000_0000) as i64
    }
}

/// The text that a value holds: a byte string that is valid UTF-8.
pub open spec fn as_text(v: WireValue) -> Result<Seq<char>, DecodeError> {
    match v {
        WireValue::Bytes(b) => if valid_utf8(b) {
            Ok(decode_utf8(b))
        } else {
            Err(DecodeError::Malformed)
        },
        _ => Err(DecodeError::Malformed),
    }
}

/// The signed integer that a value holds.
pub open spec fn as_int(v: WireValue) -> Result<i64, DecodeError> {
    match v {
        WireValue::Varint(bits) => Ok(bits_int(bits)),
        _ => Err(DecodeError::Malformed),
    }
}

/// The message that a value holds: a byte string that decodes as one.
pub open spec fn as_nested<M: Layout>(v: WireValue) -> Result<M, DecodeError> {
    match v {
        WireValue::Bytes(b) => decoding::<M>(b),
        _ => Err(DecodeError::Malformed),
    }
}

/// Checks that `bytes` are UTF-8 and hands them back as text.
///
/// Calls `core::str::from_utf8`, which is taken to accept exactly the byte
/// strings that are valid UTF-8 and to return text with those bytes.
#[verifier::external_body]
pub(crate) fn checked_utf8<'a>(bytes: &'a [u8]) -> (r: Option<&'a str>)
    ensures
        match r {
            Some(s) => valid_utf8(bytes@) && encode_utf8(s@) == bytes@,
            None => !valid_utf8(bytes@),
        },
{
    match core::str::from_utf8(bytes) {
        Ok(s) => Some(s),
        Err(_) => None,
    }
}

/// The text that a field holds.
pub fn text_of(v: &RawValue) -> (r: Result<String, DecodeError>)
    ensures
        viewed(r) == as_text(v@),
{
    match v {
        RawValue::Bytes(b) => match checked_utf8(b) {
            Some(s) => {
                proof {
                    vstd::utf8::encode_utf8_decode_utf8(s@);
                }
                Ok(s.to_owned())
            },
            None => Err(DecodeError::Malformed),
        },
        _ => Err(DecodeError::Malformed),
    }
}

/// The signed integer that a field holds.
pub fn int_of(v: &RawValue) -> (r: Result<i64, DecodeError>)
    ensures
        r == as_int(v@),
{
    match v {
        RawValue::Varint(bits) => {
            let bits: u64 = *bits;
            if bits <= 0x7fff_ffff_ffff_ffff {
                Ok(bits as i64)
            } else {
                let below: u64 = u64::MAX - bits;
                Ok(-(below as i64) - 1)
            }
        },
        _ => Err(DecodeError::Malformed),
    }
}

/// The byte string that a field holds.
pub fn payload_of<'a>(v: &RawValue<'a>) -> (r: Result<&'a [u8], DecodeError>)
    ensures
        match r {
            Ok(b) => v@ == WireValue::Bytes(b@),
            Err(e) => e == DecodeError::Malformed && !(v@ is Bytes),
        },
{
    match v {
        RawValue::Bytes(b) => Ok(*b),
        _ => Err(DecodeError::Malformed),
    }
}

/// Appends a field that holds the text `s`.
pub fn put_text_field(tag: u64, s: &str, buf: &mut Vec<u8>)
    requires
        tag <= MAX_TAG,
    ensures
        final(buf)@ == old(buf)@ + field_bytes(text_field(tag, s@)),
        field_ok(text_field(tag, s@)),
{
    put_bytes_field(tag, s.as_bytes(), buf);
}

/// Appends a field that holds the signed integer `v`.
pub fn put_int_field(tag: u64, v: i64, buf: &mut Vec<u8>)
    requires
        tag <= MAX_TAG,
    ensures
        final(buf)@ == old(buf)@ + field_bytes(int_field(tag, v)),
        field_ok(int_field(tag, v)),
{
    let bits: u64 = if v >= 0 {
        v as u64
    } else {
        let below: i64 = -(v + 1);
        u64::MAX - (below as u64)
    };
    put_varint_field(tag, bits, buf);
}

/// Text that was written is read back.
pub proof fn lemma_text_round_trip(tag: u64, s: Seq<char>)
    ensures
        as_text(text_field(tag, s).value) == Ok::<Seq<char>, DecodeError>(s),
{
    vstd::utf8::encode_utf8_valid_utf8(s);
    vstd::utf8::encode_utf8_decode_utf8(s);
}

/// An integer that was written is read back.
pub proof fn lemma_int_round_trip(tag: u64, v: i64)
    ensures
        as_int(int_field(tag, v).value) == Ok::<i64, DecodeError>(v),
{
}

/// A value that was written inside another is read back.
pub proof fn lemma_nested_round_trip<M: Message>(tag: u64, v: M)
    requires
        v.encodable(),
    ensures
        as_nested::<M>(nested_field(tag, v).value) == Ok::<M, DecodeError>(v),
{
    v.lemma_round_trip();
}

/// The fields of a list with one more value are the fields of the list,
/// then the field of that value.
pub proof fn lemma_repeated_push<M: Layout>(tag: u64, items: Seq<M>, m: M)
    ensures
        repeated(tag, items.push(m)) == repeated(tag, items).push(nested_field(tag, m)),
{
    assert(repeated(tag, items.push(m)) =~= repeated(tag, items).push(nested_field(tag, m)));
}

} // verus!
