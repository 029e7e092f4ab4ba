//! Frame-level pieces shared by requests and responses: the 5-byte ASCII
//! length prefix and the 10-byte ASCII auth-serno field.

use vstd::prelude::*;

use crate::digits::{
    all_dec_digits, dec_digits, dec_padded, dec_value, lemma_dec_digits_len_ge,
    lemma_dec_digits_len_le, lemma_dec_digits_value, lemma_dec_value_bound,
    lemma_trim_right_ws_digits, lemma_zero_pad, parse_dec_u64, pow10, push_dec_u64,
    push_dec_u64_padded, trim_right_ws, trim_right_ws_end,
};

verus! {

/// How decoding a message can fail, by error kind.
pub enum WireError {
    /// A buffer was too short or a numeric value out of range.
    Bounds,
    /// A header or field had content of the wrong shape.
    FieldData,
    /// A tag could not be parsed.
    Tag,
    /// Any other structural violation.
    Data,
}

/// The 10-byte auth-serno field: zero-padded decimal, or the first ten
/// digits when the value is wider than ten digits.
pub open spec fn serno_bytes(v: u64) -> Seq<u8> {
    if v > 9999999999 {
        dec_digits(v as nat).take(10)
    } else {
        dec_padded(v as nat, 10)
    }
}

/// The serno field is always exactly ten digit bytes.
pub proof fn lemma_serno_bytes(v: u64)
    ensures
        serno_bytes(v).len() == 10,
        all_dec_digits(serno_bytes(v)),
        v <= 9999999999 ==> dec_value(serno_bytes(v)) == v,
{
    lemma_dec_digits_value(v as nat);
    if v > 9999999999 {
        assert(pow10(10) == 10000000000) by {
            reveal_with_fuel(pow10, 11);
        }
        lemma_dec_digits_len_ge(v as nat, 10);
        assert forall|i: int| 0 <= i < 10 implies crate::digits::is_dec_digit(
            #[trigger] serno_bytes(v)[i],
        ) by {
            assert(serno_bytes(v)[i] == dec_digits(v as nat)[i]);
        }
    } else {
        assert(pow10(10) == 10000000000) by {
            reveal_with_fuel(pow10, 11);
        }
        lemma_dec_digits_len_le(v as nat, 10);
        lemma_zero_pad(dec_digits(v as nat), 10);
    }
}

/// Append the 10-byte serno field for `v` to `out`.
pub fn push_serno(v: u64, out: &mut Vec<u8>)
    ensures
        final(out)@ == old(out)@ + serno_bytes(v),
{
    if v > 9999999999 {
        proof {
            assert(pow10(10) == 10000000000) by {
                reveal_with_fuel(pow10, 11);
            }
            lemma_dec_digits_len_ge(v as nat, 10);
        }
        let mut tmp: Vec<u8> = Vec::new();
        push_dec_u64(v, &mut tmp);
        out.extend_from_slice(vstd::slice::slice_subrange(tmp.as_slice(), 0, 10));
        assert(out@ =~= old(out)@ + serno_bytes(v));
    } else {
        proof {
            assert(pow10(10) == 10000000000) by {
                reveal_with_fuel(pow10, 11);
            }
            lemma_dec_digits_len_le(v as nat, 10);
        }
        push_dec_u64_padded(v, 10, out);
    }
}

/// What parsing the 10-byte serno field yields: trailing whitespace is
/// trimmed, the rest must be decimal digits.
pub open spec fn spec_parse_serno(s: Seq<u8>) -> Option<u64> {
    let t = trim_right_ws(s);
    if t.len() > 0 && all_dec_digits(t) && dec_value(t) <= u64::MAX {
        Some(dec_value(t) as u64)
    } else {
        None
    }
}

/// Parse the 10-byte serno field.
pub fn parse_serno(s: &[u8]) -> (r: Option<u64>)
    ensures
        r == spec_parse_serno(s@),
{
    let end = trim_right_ws_end(s);
    parse_dec_u64(vstd::slice::slice_subrange(s, 0, end))
}

/// The serno field of a value of at most ten digits parses back to it.
pub proof fn lemma_serno_round_trip(v: u64)
    requires
        v <= 9999999999,
    ensures
        spec_parse_serno(serno_bytes(v)) == Some(v),
{
    lemma_serno_bytes(v);
    lemma_trim_right_ws_digits(serno_bytes(v));
}

/// A whole frame: the body length as a 5-byte zero-padded ASCII decimal,
/// then the body.
pub open spec fn frame_bytes(body: Seq<u8>) -> Seq<u8>
    recommends
        body.len() <= 99999,
{
    dec_padded(body.len(), 5) + body
}

/// What splitting one frame off the front of `s` yields: the body named by
/// the prefix. Bytes beyond the frame are ignored.
pub open spec fn spec_split_frame(s: Seq<u8>) -> Result<Seq<u8>, WireError> {
    if s.len() < 5 {
        Err(WireError::Bounds)
    } else if !all_dec_digits(s.take(5)) {
        Err(WireError::FieldData)
    } else if s.len() - 5 < dec_value(s.take(5)) {
        Err(WireError::Bounds)
    } else {
        Ok(s.skip(5).take(dec_value(s.take(5)) as int))
    }
}

/// Split the length prefix off `data` and then the body it names; the body
/// is returned and `data` is left holding whatever follows the frame.
pub fn split_frame(data: &mut bytes::Bytes) -> (r: Result<bytes::Bytes, crate::error::Error>)
    ensures
        match spec_split_frame(crate::bytebuf::bytes_view(*old(data))) {
            Ok(body) => r matches Ok(b) && crate::bytebuf::bytes_view(b) == body,
            Err(WireError::Bounds) => r matches Err(e) && e is Bounds,
            Err(_) => r matches Err(e) && e is IncorrectFieldData,
        },
{
    let ghost s = crate::bytebuf::bytes_view(*data);
    let prefix = crate::bytebuf::bytes_split_to(data, 5)?;
    let msg_len: u64 = match parse_dec_u64(crate::bytebuf::bytes_slice(&prefix)) {
        Some(v) => v,
        None => {
            proof {
                if all_dec_digits(s.take(5)) {
                    lemma_dec_value_bound(s.take(5));
                    assert(pow10(5) == 100000) by {
                        reveal_with_fuel(pow10, 6);
                    }
                }
            }
            return Err(
                crate::error::Error::incorrect_field_data("message length", "valid integer"),
            );
        },
    };
    proof {
        lemma_dec_value_bound(s.take(5));
        assert(pow10(5) == 100000) by {
            reveal_with_fuel(pow10, 6);
        }
    }
    let body = crate::bytebuf::bytes_split_to(data, msg_len as usize)?;
    proof {
        assert(crate::bytebuf::bytes_view(body) =~= s.skip(5).take(dec_value(s.take(5)) as int));
    }
    Ok(body)
}

/// The prefix of a framed body of at most 99999 bytes reads back as the
/// body.
pub proof fn lemma_frame_round_trip(body: Seq<u8>, rest: Seq<u8>)
    requires
        body.len() <= 99999,
    ensures
        frame_bytes(body).len() == 5 + body.len(),
        spec_split_frame(frame_bytes(body) + rest) == Ok::<_, WireError>(body),
{
    let n = body.len();
    assert(pow10(5) == 100000) by {
        reveal_with_fuel(pow10, 6);
    }
    lemma_dec_digits_value(n);
    lemma_dec_digits_len_le(n, 5);
    lemma_zero_pad(dec_digits(n), 5);
    let s = frame_bytes(body) + rest;
    assert(s.take(5) =~= dec_padded(n, 5));
    assert(s.skip(5) =~= body + rest);
    assert(s.skip(5).take(n as int) =~= body);
}

/// Any strict truncation of a whole frame fails to split with `Bounds`:
/// either the prefix itself is cut short, or the body it names is.
pub proof fn lemma_frame_truncation(s: Seq<u8>, n: int)
    requires
        s.len() >= 5,
        all_dec_digits(s.take(5)),
        s.len() == 5 + dec_value(s.take(5)),
        0 <= n < s.len(),
    ensures
        spec_split_frame(s.take(n)) == Err::<Seq<u8>, WireError>(WireError::Bounds),
{
    if n >= 5 {
        assert(s.take(n).take(5) =~= s.take(5));
    }
}

} // verus!
