//! The fields that packet bodies are made of: single bytes, two-byte
//! numbers in network order, and byte strings and UTF-8 strings behind a
//! two-byte length.

use super::Error;
use crate::buffer::{
    be16, bytes_as_slice, bytes_contents, bytes_get_u16, bytes_get_u8, bytes_len,
    bytes_mut_contents, bytes_split_to, put_slice, put_u16, string_from_utf8,
};
use bytes::{Bytes, BytesMut};
use vstd::prelude::*;
use vstd::slice::slice_to_vec;
use vstd::utf8::{decode_utf8, encode_utf8, valid_utf8};

verus! {

/// The longest byte string that a two-byte length can announce.
pub const MAX_FIELD_LEN: usize = 65_535;

/// The first byte of a body and what follows it.
pub open spec fn take_u8(s: Seq<u8>) -> Result<(u8, Seq<u8>), Error> {
    if s.len() < 1 {
        Err(Error::MalformedPacket)
    } else {
        Ok((s[0], s.skip(1)))
    }
}

/// The number in the first two bytes of a body and what follows it.
pub open spec fn take_u16(s: Seq<u8>) -> Result<(u16, Seq<u8>), Error> {
    if s.len() < 2 {
        Err(Error::MalformedPacket)
    } else {
        Ok((be16(s[0], s[1]) as u16, s.skip(2)))
    }
}

/// The length-prefixed byte string at the front of a body and what follows
/// it.
pub open spec fn take_bytes(s: Seq<u8>) -> Result<(Seq<u8>, Seq<u8>), Error> {
    match take_u16(s) {
        Err(e) => Err(e),
        Ok((len, rest)) => if len > rest.len() {
            Err(Error::BoundaryCrossed(len as usize))
        } else {
            Ok((rest.take(len as int), rest.skip(len as int)))
        },
    }
}

/// The length-prefixed UTF-8 string at the front of a body and what follows
/// it.
pub open spec fn take_string(s: Seq<u8>) -> Result<(Seq<char>, Seq<u8>), Error> {
    match take_bytes(s) {
        Err(e) => Err(e),
        Ok((b, rest)) => if valid_utf8(b) {
            Ok((decode_utf8(b), rest))
        } else {
            Err(Error::TopicNotUtf8)
        },
    }
}

/// The two bytes of a number, high byte first.
pub open spec fn wire_u16(v: u16) -> Seq<u8> {
    seq![(v / 256) as u8, (v % 256) as u8]
}

/// A byte string behind its two-byte length.
pub open spec fn wire_bytes(b: Seq<u8>) -> Seq<u8> {
    wire_u16(b.len() as u16) + b
}

/// A string's UTF-8 bytes behind their two-byte length.
pub open spec fn wire_string(text: Seq<char>) -> Seq<u8> {
    wire_bytes(encode_utf8(text))
}

/// Reading back a written number gives the number, whatever follows it.
pub proof fn lemma_u16_round_trip(v: u16, tail: Seq<u8>)
    ensures
        take_u16(wire_u16(v) + tail) == Ok::<(u16, Seq<u8>), Error>((v, tail)),
{
    let s = wire_u16(v) + tail;
    assert(s[0] == (v / 256) as u8);
    assert(s[1] == (v % 256) as u8);
    assert(s.skip(2) =~= tail);
}

/// Reading back a written byte string gives the string, whatever follows
/// it.
pub proof fn lemma_bytes_round_trip(b: Seq<u8>, tail: Seq<u8>)
    requires
        b.len() <= MAX_FIELD_LEN,
    ensures
        take_bytes(wire_bytes(b) + tail) == Ok::<(Seq<u8>, Seq<u8>), Error>((b, tail)),
{
    let s = wire_bytes(b) + tail;
    assert(s =~= wire_u16(b.len() as u16) + (b + tail));
    lemma_u16_round_trip(b.len() as u16, b + tail);
    assert((b + tail).take(b.len() as int) =~= b);
    assert((b + tail).skip(b.len() as int) =~= tail);
}

/// Reading back a written string gives the string, whatever follows it.
pub proof fn lemma_string_round_trip(text: Seq<char>, tail: Seq<u8>)
    requires
        encode_utf8(text).len() <= MAX_FIELD_LEN,
    ensures
        take_string(wire_string(text) + tail) == Ok::<(Seq<char>, Seq<u8>), Error>((text, tail)),
{
    lemma_bytes_round_trip(encode_utf8(text), tail);
    vstd::utf8::encode_utf8_valid_utf8(text);
    vstd::utf8::encode_utf8_decode_utf8(text);
}

/// Takes one byte off the front of a body.
pub fn read_u8(stream: &mut Bytes) -> (r: Result<u8, Error>)
    ensures
        match take_u8(bytes_contents(*old(stream))) {
            Ok((v, rest)) => r == Ok::<u8, Error>(v) && bytes_contents(*final(stream)) == rest,
            Err(e) => r == Err::<u8, Error>(e),
        },
{
    if bytes_len(stream) < 1 {
        return Err(Error::MalformedPacket);
    }
    Ok(bytes_get_u8(stream))
}

/// Takes a two-byte number off the front of a body.
pub fn read_u16(stream: &mut Bytes) -> (r: Result<u16, Error>)
    ensures
        match take_u16(bytes_contents(*old(stream))) {
            Ok((v, rest)) => r == Ok::<u16, Error>(v) && bytes_contents(*final(stream)) == rest,
            Err(e) => r == Err::<u16, Error>(e),
        },
{
    if bytes_len(stream) < 2 {
        return Err(Error::MalformedPacket);
    }
    Ok(bytes_get_u16(stream))
}

/// Takes a length-prefixed byte string off the front of a body.
pub fn read_mqtt_bytes(stream: &mut Bytes) -> (r: Result<Bytes, Error>)
    ensures
        match take_bytes(bytes_contents(*old(stream))) {
            Ok((b, rest)) => r is Ok && bytes_contents(r->Ok_0) == b && bytes_contents(
                *final(stream),
            ) == rest,
            Err(e) => r is Err && r->Err_0 == e,
        },
{
    let len = match read_u16(stream) {
        Ok(len) => len as usize,
        Err(e) => {
            return Err(e);
        },
    };
    if len > bytes_len(stream) {
        return Err(Error::BoundaryCrossed(len));
    }
    Ok(bytes_split_to(stream, len))
}

/// Takes a length-prefixed UTF-8 string off the front of a body.
pub fn read_mqtt_string(stream: &mut Bytes) -> (r: Result<String, Error>)
    ensures
        match take_string(bytes_contents(*old(stream))) {
            Ok((text, rest)) => r is Ok && r->Ok_0@ == text && bytes_contents(*final(stream))
                == rest,
            Err(e) => r is Err && r->Err_0 == e,
        },
{
    let raw = match read_mqtt_bytes(stream) {
        Ok(raw) => raw,
        Err(e) => {
            return Err(e);
        },
    };
    match string_from_utf8(slice_to_vec(bytes_as_slice(&raw))) {
        Some(text) => Ok(text),
        None => Err(Error::TopicNotUtf8),
    }
}

/// Appends a byte string behind its two-byte length.
pub(crate) fn write_mqtt_bytes(stream: &mut BytesMut, bytes: &[u8])
    requires
        bytes@.len() <= MAX_FIELD_LEN,
        bytes_mut_contents(*old(stream)).len() + 2 + bytes@.len() <= isize::MAX,
    ensures
        bytes_mut_contents(*final(stream)) == bytes_mut_contents(*old(stream)) + wire_bytes(
            bytes@,
        ),
{
    put_u16(stream, bytes.len() as u16);
    put_slice(stream, bytes);
    assert(bytes_mut_contents(*stream) =~= bytes_mut_contents(*old(stream)) + wire_bytes(
        bytes@,
    ));
}

/// Appends a string's UTF-8 bytes behind their two-byte length.
pub(crate) fn write_mqtt_string(stream: &mut BytesMut, text: &str)
    requires
        encode_utf8(text@).len() <= MAX_FIELD_LEN,
        bytes_mut_contents(*old(stream)).len() + 2 + encode_utf8(text@).len() <= isize::MAX,
    ensures
        bytes_mut_contents(*final(stream)) == bytes_mut_contents(*old(stream)) + wire_string(
            text@,
        ),
{
    write_mqtt_bytes(stream, text.as_bytes());
}

} // verus!
