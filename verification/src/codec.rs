//! Stream framing codec: an incremental decoder over a growing byte
//! buffer that extracts one whole response frame at a time, and an encoder
//! that appends encoded requests to an output buffer.

use vstd::prelude::*;

use crate::bytebuf::{bytes_from_vec, bytes_slice};
use crate::digits::{all_dec_digits, dec_value, lemma_dec_value_bound, parse_dec_u64, pow10};
use crate::error::Error;
use crate::frame::WireError;
use crate::request::{request_encodable, spec_encode_request, SigmaRequest};
use crate::response::{spec_decode_response, SigmaResponse};
use vstd::std_specs::cmp::PartialEqSpec;

verus! {

/// Errors of the framed stream: a codec error, an unreadable or
/// non-numeric length prefix, or a transport failure reported by the host
/// environment.
#[derive(Debug, Clone)]
pub enum ClientProtocolError {
    ExtfgSigma(Error),
    WrongLenUtf8,
    WrongLenInt,
    StdIoError(String),
}

impl vstd::std_specs::cmp::PartialEqSpecImpl for ClientProtocolError {
    open spec fn obeys_eq_spec() -> bool {
        true
    }

    open spec fn eq_spec(&self, other: &ClientProtocolError) -> bool {
        match (self, other) {
            (ClientProtocolError::ExtfgSigma(a), ClientProtocolError::ExtfgSigma(b)) => {
                vstd::std_specs::cmp::PartialEqSpec::eq_spec(a, b)
            },
            (ClientProtocolError::WrongLenUtf8, ClientProtocolError::WrongLenUtf8) => true,
            (ClientProtocolError::WrongLenInt, ClientProtocolError::WrongLenInt) => true,
            (ClientProtocolError::StdIoError(a), ClientProtocolError::StdIoError(b)) => a@ == b@,
            _ => false,
        }
    }
}

impl PartialEq for ClientProtocolError {
    fn eq(&self, other: &ClientProtocolError) -> (r: bool) {
        match (self, other) {
            (ClientProtocolError::ExtfgSigma(a), ClientProtocolError::ExtfgSigma(b)) => a == b,
            (ClientProtocolError::WrongLenUtf8, ClientProtocolError::WrongLenUtf8) => true,
            (ClientProtocolError::WrongLenInt, ClientProtocolError::WrongLenInt) => true,
            (ClientProtocolError::StdIoError(a), ClientProtocolError::StdIoError(b)) => a.eq(b),
            _ => false,
        }
    }
}

/// Width of the ASCII length prefix.
pub const LENGTH_BYTES_COUNT: usize = 5;

/// Codec for semi-automated encoding and decoding of requests and
/// responses over a byte stream.
pub struct SigmaClientProtocol;

/// The length prefix is present and readable: five ASCII digits.
pub open spec fn prefix_ok(s: Seq<u8>) -> bool {
    s.len() >= 5 && all_dec_digits(s.take(5))
}

/// The whole frame the prefix announces is present.
pub open spec fn frame_complete(s: Seq<u8>) -> bool {
    prefix_ok(s) && s.len() >= 5 + dec_value(s.take(5))
}

impl SigmaClientProtocol {
    /// One decode step. With fewer than five bytes, or fewer than the
    /// announced frame, the buffer is left untouched and more input is
    /// requested (`Ok(None)`). An unreadable prefix is an error and
    /// consumes nothing. Once the whole frame is present, exactly its
    /// bytes are consumed and the decoded response (or its decode error)
    /// is returned.
    pub fn decode(&mut self, src: &mut Vec<u8>) -> (r: Result<
        Option<SigmaResponse>,
        ClientProtocolError,
    >)
        ensures
            old(src)@.len() < 5 ==> (r matches Ok(None) && final(src)@ == old(src)@),
            (old(src)@.len() >= 5 && !all_dec_digits(old(src)@.take(5))) ==> (final(src)@
                == old(src)@ && (r matches Err(e) && (e is WrongLenUtf8 || e is WrongLenInt))),
            (prefix_ok(old(src)@) && !frame_complete(old(src)@)) ==> (r matches Ok(None)
                && final(src)@ == old(src)@),
            frame_complete(old(src)@) ==> {
                let flen = 5 + dec_value(old(src)@.take(5));
                final(src)@ == old(src)@.skip(flen as int) && (match spec_decode_response(
                    old(src)@.take(flen as int),
                ) {
                    Ok(shape) => r matches Ok(Some(resp)) && resp@ == shape,
                    Err(e) => r matches Err(ClientProtocolError::ExtfgSigma(err)) && (match e {
                        WireError::Bounds => err is Bounds,
                        WireError::FieldData => err is IncorrectFieldData,
                        WireError::Tag => err is IncorrectTag,
                        WireError::Data => err is IncorrectData,
                    }),
                })
            },
    {
        let current_length: usize = src.len();
        if current_length < LENGTH_BYTES_COUNT {
            return Ok(None);
        }

        let mut i: usize = 0;
        while i < LENGTH_BYTES_COUNT
            invariant
                0 <= i <= 5,
                src@.len() >= 5,
                src@ == old(src)@,
                forall|j: int| 0 <= j < i ==> #[trigger] src@.take(5)[j] < 0x80,
            decreases 5 - i,
        {
            if src[i] >= 0x80 {
                proof {
                    assert(src@.take(5)[i as int] == src@[i as int]);
                    assert(!crate::digits::is_dec_digit(src@.take(5)[i as int]));
                }
                return Err(ClientProtocolError::WrongLenUtf8);
            }
            proof {
                assert(src@.take(5)[i as int] == src@[i as int]);
            }
            i = i + 1;
        }

        let msg_len: u64 = match parse_dec_u64(
            vstd::slice::slice_subrange(src.as_slice(), 0, LENGTH_BYTES_COUNT),
        ) {
            Some(v) => v,
            None => {
                proof {
                    if all_dec_digits(src@.take(5)) {
                        lemma_dec_value_bound(src@.take(5));
                        assert(pow10(5) == 100000) by {
                            reveal_with_fuel(pow10, 6);
                        }
                    }
                }
                return Err(ClientProtocolError::WrongLenInt);
            },
        };
        proof {
            lemma_dec_value_bound(src@.take(5));
            assert(pow10(5) == 100000) by {
                reveal_with_fuel(pow10, 6);
            }
        }

        let overall_length: usize = msg_len as usize + LENGTH_BYTES_COUNT;
        if current_length < overall_length {
            return Ok(None);
        }

        let mut tail = src.split_off(overall_length);
        core::mem::swap(src, &mut tail);
        proof {
            assert(tail@ == old(src)@.take(overall_length as int));
            assert(src@ == old(src)@.skip(overall_length as int));
        }
        match SigmaResponse::decode(bytes_from_vec(tail)) {
            Ok(resp) => Ok(Some(resp)),
            Err(e) => Err(ClientProtocolError::ExtfgSigma(e)),
        }
    }

    /// One encode step: append the encoded request to the output buffer.
    /// On failure the buffer is left untouched.
    pub fn encode(&mut self, item: SigmaRequest, dst: &mut Vec<u8>) -> (r: Result<
        (),
        ClientProtocolError,
    >)
        requires
            item.wf(),
        ensures
            r is Ok <==> request_encodable(item@),
            r is Ok ==> final(dst)@ == old(dst)@ + spec_encode_request(item@),
            r is Err ==> final(dst)@ == old(dst)@,
            r matches Err(ClientProtocolError::ExtfgSigma(e)) ==> e is Bounds,
            r is Err ==> r matches Err(ClientProtocolError::ExtfgSigma(_)),
    {
        match item.encode() {
            Ok(b) => {
                dst.extend_from_slice(bytes_slice(&b));
                Ok(())
            },
            Err(e) => Err(ClientProtocolError::ExtfgSigma(e)),
        }
    }
}

} // verus!
