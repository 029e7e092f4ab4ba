//! One TLV field: 4-byte tag, packed-BCD payload length, payload bytes.

use vstd::prelude::*;

use crate::bcd::{bcd_x4_bytes, bcd_x4_valid, bcd_x4_value, decode_bcd_x4, encode_bcd_x4,
    lemma_bcd_x4_round_trip};
use crate::bytebuf::{bytes_slice, bytes_split_to, bytes_view};
use crate::error::Error;
use crate::tag::{Tag, TagWireError};

verus! {

/// The wire bytes of one field: tag, BCD length, payload verbatim.
pub open spec fn field_bytes(t: Tag, payload: Seq<u8>) -> Seq<u8>
    recommends
        t.wf(),
        payload.len() <= 9999,
{
    t.wire_bytes() + seq![
        bcd_x4_bytes(payload.len() as u16).0,
        bcd_x4_bytes(payload.len() as u16).1,
    ] + payload
}

/// How decoding one field can fail.
pub enum FieldDecodeError {
    /// A split ran past the end of the buffer, or a BCD byte was invalid.
    Bounds,
    /// The tag's kind byte is unknown.
    Tag,
}

/// What decoding one field from the front of `s` yields: the tag, the
/// payload, and the remaining bytes.
pub open spec fn spec_decode_field(s: Seq<u8>) -> Result<(Tag, Seq<u8>, Seq<u8>), FieldDecodeError> {
    if s.len() < 4 {
        Err(FieldDecodeError::Bounds)
    } else {
        match Tag::spec_decode(s.take(4)) {
            Err(TagWireError::Digits) => Err(FieldDecodeError::Bounds),
            Err(_) => Err(FieldDecodeError::Tag),
            Ok(t) => {
                let rest = s.skip(4);
                if rest.len() < 2 {
                    Err(FieldDecodeError::Bounds)
                } else if !bcd_x4_valid(rest[0], rest[1]) {
                    Err(FieldDecodeError::Bounds)
                } else {
                    let len = bcd_x4_value(rest[0], rest[1]);
                    let body = rest.skip(2);
                    if body.len() < len {
                        Err(FieldDecodeError::Bounds)
                    } else {
                        Ok((t, body.take(len as int), body.skip(len as int)))
                    }
                }
            },
        }
    }
}

/// Append one encoded field to `buf`. Fails with `Bounds`, leaving `buf`
/// unchanged, when the tag is out of range or the payload longer than 9999
/// bytes.
pub fn encode_field_to_buf(tag: Tag, data: &[u8], buf: &mut Vec<u8>) -> (r: Result<(), Error>)
    ensures
        r is Ok <==> (tag.wf() && data@.len() <= 9999),
        r is Ok ==> final(buf)@ == old(buf)@ + field_bytes(tag, data@),
        r matches Err(e) ==> e is Bounds && final(buf)@ == old(buf)@,
{
    if data.len() > 9999 {
        return Err(Error::Bounds("field data contains more than 9999 bytes".to_owned()));
    }
    tag.encode_to_buf(buf)?;
    let len_bytes = match encode_bcd_x4(data.len() as u16) {
        Ok(b) => b,
        Err(_) => {
            return Err(Error::Bounds("field data contains more than 9999 bytes".to_owned()));
        },
    };
    buf.push(len_bytes[0]);
    buf.push(len_bytes[1]);
    buf.extend_from_slice(data);
    proof {
        assert(buf@ =~= old(buf)@ + field_bytes(tag, data@));
    }
    Ok(())
}

/// Decode one field from the front of `buf`, consuming exactly its bytes on
/// success. On failure the buffer may be partially consumed; the message
/// decoders treat any failure as fatal for the whole message.
pub fn decode_field_from_cursor(buf: &mut bytes::Bytes) -> (r: Result<(Tag, bytes::Bytes), Error>)
    ensures
        match spec_decode_field(bytes_view(*old(buf))) {
            Ok((t, payload, rest)) => r matches Ok(p) && p.0 == t && bytes_view(p.1) == payload
                && bytes_view(*final(buf)) == rest,
            Err(FieldDecodeError::Bounds) => r matches Err(e) && e is Bounds,
            Err(FieldDecodeError::Tag) => r matches Err(e) && e is IncorrectTag,
        },
{
    let ghost s = bytes_view(*buf);
    let tag_src = bytes_split_to(buf, 4)?;
    let tag = Tag::decode(tag_src)?;

    let len_src = bytes_split_to(buf, 2)?;
    let len_slice = bytes_slice(&len_src);
    proof {
        assert(bytes_view(len_src)[0] == s.skip(4)[0]);
        assert(bytes_view(len_src)[1] == s.skip(4)[1]);
    }
    let len = decode_bcd_x4(&[len_slice[0], len_slice[1]])?;

    let data = bytes_split_to(buf, len as usize)?;
    proof {
        assert(bytes_view(*buf) =~= s.skip(4).skip(2).skip(len as int));
        assert(bytes_view(data) =~= s.skip(4).skip(2).take(len as int));
    }
    Ok((tag, data))
}

/// Decoding the encoding of one field recovers the tag, the payload, and
/// whatever follows.
pub proof fn lemma_field_round_trip(t: Tag, payload: Seq<u8>, rest: Seq<u8>)
    requires
        t.wf(),
        payload.len() <= 9999,
    ensures
        field_bytes(t, payload).len() == 6 + payload.len(),
        spec_decode_field(field_bytes(t, payload) + rest) == Ok::<_, FieldDecodeError>(
            (t, payload, rest),
        ),
{
    let s = field_bytes(t, payload) + rest;
    crate::tag::lemma_tag_wire_round_trip(t);
    lemma_bcd_x4_round_trip(payload.len() as u16);
    assert(s.take(4) =~= t.wire_bytes());
    let r1 = s.skip(4);
    assert(r1[0] == bcd_x4_bytes(payload.len() as u16).0);
    assert(r1[1] == bcd_x4_bytes(payload.len() as u16).1);
    let body = r1.skip(2);
    assert(body =~= payload + rest);
    assert(body.take(payload.len() as int) =~= payload);
    assert(body.skip(payload.len() as int) =~= rest);
}

} // verus!
