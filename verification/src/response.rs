//! The response message: MTI, auth-serno, reason, fees and optional
//! additional data, with its wire encoder and decoder.

use vstd::prelude::*;

use crate::bytebuf::{bytes_from_vec, bytes_slice, bytes_view};
use crate::digits::{
    all_dec_digits, dec_digits, dec_padded, dec_value,
    lemma_dec_digits_len_le, lemma_dec_digits_value, lemma_dec_value_bound, lemma_zero_pad,
    parse_dec_u64, pow10, push_dec_u64,
};
use crate::error::Error;
use crate::field::{
    decode_field_from_cursor, encode_field_to_buf, field_bytes, lemma_field_round_trip,
    spec_decode_field, FieldDecodeError,
};
use crate::frame::{
    frame_bytes, lemma_frame_round_trip, lemma_serno_bytes, lemma_serno_round_trip, parse_serno,
    push_serno, serno_bytes, spec_parse_serno, spec_split_frame, split_frame, WireError,
};
use crate::tag::Tag;
use crate::text::{bytes_to_string_lossy, utf8_lossy, vec_to_string_utf8};
use crate::json::{dec_chars, json_escape, push_json_escaped, u64_to_dec_string};
use crate::validate::{lemma_mti_bytes, mti_valid, validate_mti};
use vstd::string::StringExecFns;
use vstd::string::StringSliceAdditionalSpecFns;

verus! {

/// One fee record carried in a `Regular(32)` field.
#[derive(Debug, Clone, PartialEq, Eq, Structural)]
pub struct FeeData {
    pub reason: u16,
    pub currency: u16,
    pub amount: u64,
}

/// The ASCII payload of one encoded fee: 4-digit reason, 3-digit currency,
/// then the amount in full.
pub open spec fn fee_wire_bytes(f: FeeData) -> Seq<u8>
    recommends
        f.reason <= 9999,
        f.currency <= 999,
{
    dec_padded(f.reason as nat, 4) + dec_padded(f.currency as nat, 3) + dec_digits(f.amount as nat)
}

/// What parsing a fee payload yields: the first four bytes are the reason,
/// the next three the currency, everything after the amount.
pub open spec fn spec_fee_from_slice(s: Seq<u8>) -> Result<FeeData, WireError> {
    if s.len() < 8 {
        Err(WireError::Data)
    } else if !all_dec_digits(s.subrange(0, 4)) {
        Err(WireError::FieldData)
    } else if !all_dec_digits(s.subrange(4, 7)) {
        Err(WireError::FieldData)
    } else if !(all_dec_digits(s.skip(7)) && dec_value(s.skip(7)) <= u64::MAX) {
        Err(WireError::FieldData)
    } else {
        Ok(
            FeeData {
                reason: dec_value(s.subrange(0, 4)) as u16,
                currency: dec_value(s.subrange(4, 7)) as u16,
                amount: dec_value(s.skip(7)) as u64,
            },
        )
    }
}

impl FeeData {
    /// Both bounded fields fit their fixed widths.
    pub open spec fn wf(self) -> bool {
        self.reason <= 9999 && self.currency <= 999
    }

    /// Parse a fee from the payload of a `Regular(32)` field.
    pub fn from_slice(data: &[u8]) -> (r: Result<Self, Error>)
        ensures
            match spec_fee_from_slice(data@) {
                Ok(f) => r matches Ok(rf) && rf == f && f.wf(),
                Err(WireError::Data) => r matches Err(e) && e is IncorrectData,
                Err(_) => r matches Err(e) && e is IncorrectFieldData,
            },
    {
        if data.len() < 8 {
            return Err(Error::IncorrectData("FeeData slice should be longer than 8 bytes".to_owned()));
        }
        proof {
            assert(pow10(4) == 10000 && pow10(3) == 1000) by {
                reveal_with_fuel(pow10, 5);
            }
            lemma_dec_value_bound_if_digits(data@.subrange(0, 4));
            lemma_dec_value_bound_if_digits(data@.subrange(4, 7));
        }
        let reason = match parse_dec_u64(vstd::slice::slice_subrange(data, 0, 4)) {
            Some(v) => v,
            None => {
                return Err(Error::incorrect_field_data("FeeData.reason", "valid integer"));
            },
        };
        let currency = match parse_dec_u64(vstd::slice::slice_subrange(data, 4, 7)) {
            Some(v) => v,
            None => {
                return Err(Error::incorrect_field_data("FeeData.currency", "valid integer"));
            },
        };
        let amount = match parse_dec_u64(vstd::slice::slice_subrange(data, 7, data.len())) {
            Some(v) => v,
            None => {
                proof {
                    assert(data@.subrange(7, data@.len() as int) =~= data@.skip(7));
                }
                return Err(Error::incorrect_field_data("FeeData.amount", "valid integer"));
            },
        };
        proof {
            assert(data@.subrange(7, data@.len() as int) =~= data@.skip(7));
        }
        Ok(FeeData { reason: reason as u16, currency: currency as u16, amount })
    }

    /// Encode this fee's payload into a fresh vector. Fails with `Bounds`
    /// exactly when `reason > 9999` or `currency > 999`.
    pub fn encode_vec(&self) -> (r: Result<Vec<u8>, Error>)
        ensures
            r is Ok <==> self.wf(),
            r matches Ok(v) ==> v@ == fee_wire_bytes(*self),
            r matches Err(e) ==> e is Bounds,
    {
        let mut buf: Vec<u8> = Vec::new();
        if self.reason > 9999 {
            return Err(Error::Bounds("FeeData.reason should be less or equal 9999".to_owned()));
        }
        proof {
            assert(pow10(4) == 10000 && pow10(3) == 1000) by {
                reveal_with_fuel(pow10, 5);
            }
            lemma_dec_digits_len_le(self.reason as nat, 4);
        }
        crate::digits::push_dec_u64_padded(self.reason as u64, 4, &mut buf);
        if self.currency > 999 {
            return Err(Error::Bounds("FeeData.currency should be less or equal 999".to_owned()));
        }
        proof {
            assert(pow10(3) == 1000) by {
                reveal_with_fuel(pow10, 4);
            }
            lemma_dec_digits_len_le(self.currency as nat, 3);
        }
        crate::digits::push_dec_u64_padded(self.currency as u64, 3, &mut buf);
        push_dec_u64(self.amount, &mut buf);
        proof {
            assert(buf@ =~= fee_wire_bytes(*self));
        }
        Ok(buf)
    }

    /// Encode this fee's payload as a `Bytes` value.
    pub fn encode(&self) -> (r: Result<bytes::Bytes, Error>)
        ensures
            r is Ok <==> self.wf(),
            r matches Ok(b) ==> bytes_view(b) == fee_wire_bytes(*self),
            r matches Err(e) ==> e is Bounds,
    {
        let v = self.encode_vec()?;
        Ok(bytes_from_vec(v))
    }
}

/// If a run is all digits, its value is bounded by `10^len` (stated
/// conditionally, for use before the digits are known).
proof fn lemma_dec_value_bound_if_digits(s: Seq<u8>)
    ensures
        all_dec_digits(s) ==> dec_value(s) < pow10(s.len()),
{
    if all_dec_digits(s) {
        lemma_dec_value_bound(s);
    }
}

/// The encoded payload of a well-formed fee parses back to the fee.
pub proof fn lemma_fee_round_trip(f: FeeData)
    requires
        f.wf(),
    ensures
        fee_wire_bytes(f).len() >= 8,
        spec_fee_from_slice(fee_wire_bytes(f)) == Ok::<FeeData, WireError>(f),
{
    assert(pow10(4) == 10000 && pow10(3) == 1000) by {
        reveal_with_fuel(pow10, 5);
    }
    lemma_dec_digits_value(f.reason as nat);
    lemma_dec_digits_value(f.currency as nat);
    lemma_dec_digits_value(f.amount as nat);
    lemma_dec_digits_len_le(f.reason as nat, 4);
    lemma_dec_digits_len_le(f.currency as nat, 3);
    lemma_zero_pad(dec_digits(f.reason as nat), 4);
    lemma_zero_pad(dec_digits(f.currency as nat), 3);
    let s = fee_wire_bytes(f);
    assert(s.subrange(0, 4) =~= dec_padded(f.reason as nat, 4));
    assert(s.subrange(4, 7) =~= dec_padded(f.currency as nat, 3));
    assert(s.skip(7) =~= dec_digits(f.amount as nat));
}

/// Ghost shape of a response.
pub struct ResponseShape {
    pub mti: Seq<char>,
    pub auth_serno: u64,
    pub reason: u32,
    pub fees: Seq<FeeData>,
    pub adata: Option<Seq<char>>,
}

/// A response message.
#[derive(Debug, Clone)]
pub struct SigmaResponse {
    mti: String,
    pub auth_serno: u64,
    pub reason: u32,
    pub fees: Vec<FeeData>,
    pub adata: Option<String>,
}

impl View for SigmaResponse {
    type V = ResponseShape;

    closed spec fn view(&self) -> ResponseShape {
        ResponseShape {
            mti: self.mti@,
            auth_serno: self.auth_serno,
            reason: self.reason,
            fees: self.fees@,
            adata: match self.adata {
                Some(ref s) => Some(s@),
                None => None,
            },
        }
    }
}

/// The concatenated `Regular(32)` fields of a fee list.
pub open spec fn fee_fields_bytes(fees: Seq<FeeData>) -> Seq<u8>
    decreases fees.len(),
{
    if fees.len() == 0 {
        Seq::empty()
    } else {
        field_bytes(Tag::Regular(32), fee_wire_bytes(fees[0])) + fee_fields_bytes(fees.skip(1))
    }
}

/// The fee fields of a single fee are its one encoded field.
pub proof fn lemma_fee_fields_single(f: FeeData)
    ensures
        fee_fields_bytes(seq![f]) == field_bytes(Tag::Regular(32), fee_wire_bytes(f)),
{
    let s1 = seq![f];
    assert(s1.skip(1) =~= Seq::<FeeData>::empty());
    assert(fee_fields_bytes(s1.skip(1)) == Seq::<u8>::empty());
    assert(fee_fields_bytes(s1) == field_bytes(Tag::Regular(32), fee_wire_bytes(s1[0]))
        + fee_fields_bytes(s1.skip(1)));
    assert(field_bytes(Tag::Regular(32), fee_wire_bytes(f)) + Seq::<u8>::empty() =~= field_bytes(
        Tag::Regular(32),
        fee_wire_bytes(f),
    ));
}

/// Fee fields of a concatenation are the concatenation of fee fields.
pub proof fn lemma_fee_fields_concat(a: Seq<FeeData>, b: Seq<FeeData>)
    ensures
        fee_fields_bytes(a + b) == fee_fields_bytes(a) + fee_fields_bytes(b),
    decreases a.len(),
{
    if a.len() == 0 {
        assert(a + b =~= b);
        assert(fee_fields_bytes(a) + fee_fields_bytes(b) =~= fee_fields_bytes(b));
    } else {
        assert((a + b).skip(1) =~= a.skip(1) + b);
        lemma_fee_fields_concat(a.skip(1), b);
        assert(fee_fields_bytes(a + b) =~= fee_fields_bytes(a) + fee_fields_bytes(b));
    }
}

/// The body of an encoded response: MTI, serno, the reason field, the fee
/// fields, and the optional additional-data field.
pub open spec fn response_body_bytes(r: ResponseShape) -> Seq<u8> {
    vstd::utf8::encode_utf8(r.mti) + serno_bytes(r.auth_serno) + field_bytes(
        Tag::Regular(31),
        dec_digits(r.reason as nat),
    ) + fee_fields_bytes(r.fees) + match r.adata {
        Some(s) => field_bytes(Tag::Regular(48), vstd::utf8::encode_utf8(s)),
        None => Seq::empty(),
    }
}

/// The whole encoded response frame.
pub open spec fn spec_encode_response(r: ResponseShape) -> Seq<u8> {
    frame_bytes(response_body_bytes(r))
}

/// Whether a response can be encoded: fee bounds hold, the additional data
/// fits one field, and the body fits the length prefix.
pub open spec fn response_encodable(r: ResponseShape) -> bool {
    (forall|i: int| 0 <= i < r.fees.len() ==> (#[trigger] r.fees[i]).wf()) && (match r.adata {
        Some(s) => vstd::utf8::encode_utf8(s).len() <= 9999,
        None => true,
    }) && response_body_bytes(r).len() <= 99999
}

/// What decoding the fields of a response body yields, starting from the
/// given reason, fees and additional data: `Regular(31)` replaces the
/// reason, `Regular(32)` appends a fee, `Regular(48)` replaces the
/// additional data, and every other field is ignored.
pub open spec fn spec_decode_resp_fields(
    s: Seq<u8>,
    reason: u32,
    fees: Seq<FeeData>,
    adata: Option<Seq<char>>,
) -> Result<(u32, Seq<FeeData>, Option<Seq<char>>), WireError>
    decreases s.len(),
{
    if s.len() == 0 {
        Ok((reason, fees, adata))
    } else {
        match spec_decode_field(s) {
            Err(FieldDecodeError::Bounds) => Err(WireError::Bounds),
            Err(FieldDecodeError::Tag) => Err(WireError::Tag),
            Ok((t, payload, rest)) => if rest.len() < s.len() {
                if t == Tag::Regular(31u16) {
                    if payload.len() > 0 && all_dec_digits(payload) && dec_value(payload)
                        <= u32::MAX {
                        spec_decode_resp_fields(rest, dec_value(payload) as u32, fees, adata)
                    } else {
                        Err(WireError::FieldData)
                    }
                } else if t == Tag::Regular(32u16) {
                    match spec_fee_from_slice(payload) {
                        Ok(f) => spec_decode_resp_fields(rest, reason, fees.push(f), adata),
                        Err(e) => Err(e),
                    }
                } else if t == Tag::Regular(48u16) {
                    spec_decode_resp_fields(rest, reason, fees, Some(utf8_lossy(payload)))
                } else {
                    spec_decode_resp_fields(rest, reason, fees, adata)
                }
            } else {
                Err(WireError::Data)
            },
        }
    }
}

/// What decoding a whole response frame yields.
pub open spec fn spec_decode_response(s: Seq<u8>) -> Result<ResponseShape, WireError> {
    match spec_split_frame(s) {
        Err(e) => Err(e),
        Ok(body) => if body.len() < 4 {
            Err(WireError::Bounds)
        } else if !all_dec_digits(body.take(4)) {
            Err(WireError::FieldData)
        } else if body.len() < 14 {
            Err(WireError::Bounds)
        } else {
            match spec_parse_serno(body.subrange(4, 14)) {
                None => Err(WireError::FieldData),
                Some(serno) => match spec_decode_resp_fields(body.skip(14), 0, Seq::empty(), None) {
                    Err(e) => Err(e),
                    Ok((reason, fees, adata)) => Ok(
                        ResponseShape {
                            mti: Seq::new(4, |i: int| body[i] as char),
                            auth_serno: serno,
                            reason,
                            fees,
                            adata,
                        },
                    ),
                },
            }
        },
    }
}

impl SigmaResponse {
    /// The MTI held inside is always valid; the constructor and setter
    /// keep it so.
    pub closed spec fn wf(&self) -> bool {
        mti_valid(self.mti@)
    }

    /// Build a response with the given header values and no fields.
    pub fn new(mti: &str, auth_serno: u64, reason: u32) -> (r: Result<Self, Error>)
        ensures
            r is Ok <==> mti_valid(mti@),
            r matches Ok(resp) ==> resp.wf() && resp@ == (ResponseShape {
                mti: mti@,
                auth_serno,
                reason,
                fees: Seq::<FeeData>::empty(),
                adata: None,
            }),
            r matches Err(e) ==> e is IncorrectFieldData,
    {
        validate_mti(mti)?;
        let r = SigmaResponse {
            mti: mti.to_owned(),
            auth_serno,
            reason,
            fees: Vec::new(),
            adata: None,
        };
        proof {
            assert(r@.fees =~= Seq::<FeeData>::empty());
        }
        Ok(r)
    }

    /// The MTI.
    pub fn mti(&self) -> (r: &str)
        ensures
            r@ == self@.mti,
    {
        self.mti.as_str()
    }

    /// Replace the MTI; on failure the response is unchanged.
    pub fn set_mti(&mut self, v: String) -> (r: Result<(), Error>)
        ensures
            r is Ok <==> mti_valid(v@),
            r is Ok ==> final(self)@ == (ResponseShape { mti: v@, ..old(self)@ })
                && final(self).wf(),
            r is Err ==> *final(self) == *old(self),
            r matches Err(e) ==> e is IncorrectFieldData,
    {
        validate_mti(v.as_str())?;
        self.mti = v;
        Ok(())
    }

    /// Decode a response frame.
    #[verifier::loop_isolation(false)]
    pub fn decode(data: bytes::Bytes) -> (r: Result<Self, Error>)
        ensures
            match spec_decode_response(bytes_view(data)) {
                Ok(shape) => r matches Ok(resp) && resp@ == shape && resp.wf(),
                Err(WireError::Bounds) => r matches Err(e) && e is Bounds,
                Err(WireError::FieldData) => r matches Err(e) && e is IncorrectFieldData,
                Err(WireError::Tag) => r matches Err(e) && e is IncorrectTag,
                Err(WireError::Data) => r matches Err(e) && e is IncorrectData,
            },
    {
        let mut data = data;
        let mut body = split_frame(&mut data)?;
        let ghost body0 = bytes_view(body);

        let mti_src = crate::bytebuf::bytes_split_to(&mut body, 4)?;
        let mti_slice = bytes_slice(&mti_src);
        let mut mti_bytes: Vec<u8> = Vec::new();
        mti_bytes.extend_from_slice(mti_slice);
        proof {
            assert(mti_bytes@ =~= body0.take(4));
        }
        let mut i: usize = 0;
        while i < 4
            invariant
                0 <= i <= 4,
                mti_bytes@ == body0.take(4),
                body0.len() >= 4,
                forall|j: int| 0 <= j < i ==> crate::digits::is_dec_digit(#[trigger] body0[j]),
            decreases 4 - i,
        {
            let b = mti_bytes[i];
            if b < 0x30 || b > 0x39 {
                proof {
                    assert(!crate::digits::is_dec_digit(body0.take(4)[i as int]));
                    assert(!all_dec_digits(body0.take(4)));
                }
                return Err(Error::incorrect_field_data("MTI", "4 digit number (string)"));
            }
            proof {
                assert(body0.take(4)[i as int] == body0[i as int]);
            }
            i = i + 1;
        }
        proof {
            assert forall|j: int| 0 <= j < 4 implies crate::digits::is_dec_digit(
                #[trigger] body0.take(4)[j],
            ) by {
                assert(body0.take(4)[j] == body0[j]);
            }
            crate::text::lemma_ascii_bytes_utf8(mti_bytes@);
        }
        let mti = match vec_to_string_utf8(mti_bytes) {
            Ok(s) => s,
            Err(_) => {
                return Err(Error::incorrect_field_data("MTI", "4 digit number (string)"));
            },
        };

        let serno_src = crate::bytebuf::bytes_split_to(&mut body, 10)?;
        let auth_serno = match parse_serno(bytes_slice(&serno_src)) {
            Some(v) => v,
            None => {
                proof {
                    assert(body0.skip(4).take(10) =~= body0.subrange(4, 14));
                }
                return Err(Error::incorrect_field_data("Serno", "u64"));
            },
        };
        proof {
            assert(body0.skip(4).take(10) =~= body0.subrange(4, 14));
            assert(body0.skip(4).skip(10) =~= body0.skip(14));
        }

        let mut reason: u32 = 0;
        let mut fees: Vec<FeeData> = Vec::new();
        let mut adata: Option<String> = None;
        let ghost fields0 = body0.skip(14);
        proof {
            assert(fees@ =~= Seq::<FeeData>::empty());
        }
        while crate::bytebuf::bytes_len(&body) > 0
            invariant
                spec_decode_resp_fields(fields0, 0, Seq::empty(), None) == spec_decode_resp_fields(
                    bytes_view(body),
                    reason,
                    fees@,
                    match adata {
                        Some(ref s) => Some(s@),
                        None => None,
                    },
                ),
            decreases bytes_view(body).len(),
        {
            let ghost s_iter = bytes_view(body);
            let (tag, data_src) = decode_field_from_cursor(&mut body)?;
            let payload = bytes_slice(&data_src);
            match tag {
                Tag::Regular(31) => {
                    let v = match parse_dec_u64(payload) {
                        Some(v) => v,
                        None => {
                            return Err(Error::incorrect_field_data("reason", "should be u32"));
                        },
                    };
                    if v > 0xffff_ffff {
                        return Err(Error::incorrect_field_data("reason", "should be u32"));
                    }
                    reason = v as u32;
                },
                Tag::Regular(32) => {
                    let f = FeeData::from_slice(payload)?;
                    fees.push(f);
                },
                Tag::Regular(48) => {
                    adata = Some(bytes_to_string_lossy(payload));
                },
                _ => {},
            }
        }

        let resp = SigmaResponse { mti, auth_serno, reason, fees, adata };
        proof {
            assert(resp@.mti =~= Seq::new(4, |i: int| body0[i] as char));
        }
        Ok(resp)
    }

    /// Encode this response as one frame. Fails with `Bounds` exactly when
    /// a fee is out of range, the additional data is longer than 9999
    /// bytes, or the body outgrows the length prefix.
    pub fn encode(&self) -> (r: Result<bytes::Bytes, Error>)
        requires
            self.wf(),
        ensures
            r is Ok <==> response_encodable(self@),
            r matches Ok(b) ==> bytes_view(b) == spec_encode_response(self@),
            r matches Err(e) ==> e is Bounds,
    {
        let mut body: Vec<u8> = Vec::new();
        body.extend_from_slice(self.mti.as_str().as_bytes());
        push_serno(self.auth_serno, &mut body);

        let mut reason_payload: Vec<u8> = Vec::new();
        push_dec_u64(self.reason as u64, &mut reason_payload);
        proof {
            assert(pow10(20) > u64::MAX) by {
                reveal_with_fuel(pow10, 21);
            }
            lemma_dec_digits_len_le(self.reason as nat, 20);
        }
        match encode_field_to_buf(Tag::Regular(31), reason_payload.as_slice(), &mut body) {
            Ok(()) => (),
            Err(_) => {
                return Err(Error::Bounds("reason field".to_owned()));
            },
        }

        let n_fees: usize = self.fees.len();
        let mut i: usize = 0;
        while i < n_fees
            invariant
                0 <= i <= n_fees,
                n_fees == self.fees@.len(),
                forall|j: int| 0 <= j < i ==> (#[trigger] self.fees@[j]).wf(),
                body@ == vstd::utf8::encode_utf8(self@.mti) + serno_bytes(self@.auth_serno)
                    + field_bytes(Tag::Regular(31), dec_digits(self@.reason as nat))
                    + fee_fields_bytes(self.fees@.take(i as int)),
            decreases n_fees - i,
        {
            let fee_payload = match self.fees[i].encode_vec() {
                Ok(v) => v,
                Err(e) => {
                    return Err(e);
                },
            };
            proof {
                lemma_fee_payload_len(self.fees@[i as int]);
            }
            match encode_field_to_buf(Tag::Regular(32), fee_payload.as_slice(), &mut body) {
                Ok(()) => (),
                Err(_) => {
                    return Err(Error::Bounds("fee field".to_owned()));
                },
            }
            proof {
                assert(self.fees@.take(i + 1) =~= self.fees@.take(i as int) + seq![
                    self.fees@[i as int],
                ]);
                lemma_fee_fields_concat(self.fees@.take(i as int), seq![self.fees@[i as int]]);
                lemma_fee_fields_single(self.fees@[i as int]);
                assert(body@ =~= vstd::utf8::encode_utf8(self@.mti) + serno_bytes(
                    self@.auth_serno,
                ) + field_bytes(Tag::Regular(31), dec_digits(self@.reason as nat))
                    + fee_fields_bytes(self.fees@.take(i + 1)));
            }
            i = i + 1;
        }
        proof {
            assert(self.fees@.take(n_fees as int) =~= self.fees@);
        }

        if let Some(ref adata) = self.adata {
            match encode_field_to_buf(Tag::Regular(48), adata.as_str().as_bytes(), &mut body) {
                Ok(()) => (),
                Err(e) => {
                    return Err(e);
                },
            }
        }
        proof {
            assert(body@ =~= response_body_bytes(self@));
        }

        if body.len() > 99999 {
            return Err(Error::Bounds("message body longer than 99999 bytes".to_owned()));
        }
        let mut out: Vec<u8> = Vec::new();
        proof {
            assert(pow10(5) == 100000) by {
                reveal_with_fuel(pow10, 6);
            }
            lemma_dec_digits_len_le(body@.len(), 5);
        }
        crate::digits::push_dec_u64_padded(body.len() as u64, 5, &mut out);
        out.extend_from_slice(body.as_slice());
        proof {
            assert(out@ =~= spec_encode_response(self@));
        }
        Ok(bytes_from_vec(out))
    }
}

/// Decoding a run of encoded fee fields appends the fees, in order, to the
/// accumulated list and goes on with whatever follows.
#[verifier::rlimit(100)]
proof fn lemma_fees_decode(
    fs: Seq<FeeData>,
    tail: Seq<u8>,
    reason: u32,
    acc: Seq<FeeData>,
    adata: Option<Seq<char>>,
)
    requires
        forall|i: int| 0 <= i < fs.len() ==> (#[trigger] fs[i]).wf(),
    ensures
        spec_decode_resp_fields(fee_fields_bytes(fs) + tail, reason, acc, adata)
            == spec_decode_resp_fields(tail, reason, acc + fs, adata),
    decreases fs.len(),
{
    reveal_with_fuel(spec_decode_resp_fields, 2);
    if fs.len() == 0 {
        assert(fee_fields_bytes(fs) + tail =~= tail);
        assert(acc + fs =~= acc);
    } else {
        let f = fs[0];
        assert(f.wf());
        lemma_fee_round_trip(f);
        lemma_fee_payload_len(f);
        let rest = fee_fields_bytes(fs.skip(1)) + tail;
        lemma_field_round_trip(Tag::Regular(32), fee_wire_bytes(f), rest);
        assert(fee_fields_bytes(fs) + tail =~= field_bytes(Tag::Regular(32), fee_wire_bytes(f))
            + rest);
        assert(forall|i: int| 0 <= i < fs.skip(1).len() ==> (#[trigger] fs.skip(1)[i]).wf());
        lemma_fees_decode(fs.skip(1), tail, reason, acc.push(f), adata);
        assert(acc.push(f) + fs.skip(1) =~= acc + fs);
    }
}

/// The bytes an encoded optional additional-data field contributes.
pub open spec fn adata_field_bytes(adata: Option<Seq<char>>) -> Seq<u8> {
    match adata {
        Some(s) => field_bytes(Tag::Regular(48), vstd::utf8::encode_utf8(s)),
        None => Seq::<u8>::empty(),
    }
}

/// Decoding the reason field replaces the reason and moves on.
proof fn lemma_resp_reason_step(reason: u32, tail: Seq<u8>)
    ensures
        spec_decode_resp_fields(
            field_bytes(Tag::Regular(31), dec_digits(reason as nat)) + tail,
            0,
            Seq::empty(),
            None,
        ) == spec_decode_resp_fields(tail, reason, Seq::empty(), None),
{
    assert(pow10(20) > u64::MAX) by {
        reveal_with_fuel(pow10, 21);
    }
    lemma_dec_digits_value(reason as nat);
    lemma_dec_digits_len_le(reason as nat, 20);
    lemma_field_round_trip(Tag::Regular(31), dec_digits(reason as nat), tail);
}

/// Decoding the trailing additional-data field (or nothing) finishes the
/// field walk.
proof fn lemma_resp_adata_step(reason: u32, fees: Seq<FeeData>, adata: Option<Seq<char>>)
    requires
        adata matches Some(s) ==> vstd::utf8::encode_utf8(s).len() <= 9999,
    ensures
        spec_decode_resp_fields(adata_field_bytes(adata), reason, fees, None) == Ok::<
            _,
            WireError,
        >((reason, fees, adata)),
{
    match adata {
        Some(s) => {
            let enc = vstd::utf8::encode_utf8(s);
            let fb = field_bytes(Tag::Regular(48), enc);
            lemma_field_round_trip(Tag::Regular(48), enc, Seq::empty());
            assert(fb + Seq::<u8>::empty() =~= fb);
            assert(spec_decode_field(fb) == Ok::<_, FieldDecodeError>(
                (Tag::Regular(48), enc, Seq::<u8>::empty()),
            ));
            vstd::utf8::encode_utf8_valid_utf8(s);
            vstd::utf8::encode_utf8_decode_utf8(s);
            assert(utf8_lossy(enc) == s);
            assert(spec_decode_resp_fields(Seq::<u8>::empty(), reason, fees, Some(s)) == Ok::<
                _,
                WireError,
            >((reason, fees, Some(s))));
            assert(spec_decode_resp_fields(fb, reason, fees, None) == spec_decode_resp_fields(
                Seq::<u8>::empty(),
                reason,
                fees,
                Some(utf8_lossy(enc)),
            ));
        },
        None => {},
    }
}

/// The field bytes of a response body decode to its reason, fees and
/// additional data.
proof fn lemma_resp_fields_round_trip(r: ResponseShape)
    requires
        response_encodable(r),
    ensures
        spec_decode_resp_fields(
            field_bytes(Tag::Regular(31), dec_digits(r.reason as nat)) + (fee_fields_bytes(r.fees)
                + adata_field_bytes(r.adata)),
            0,
            Seq::empty(),
            None,
        ) == Ok::<_, WireError>((r.reason, r.fees, r.adata)),
{
    lemma_resp_reason_step(r.reason, fee_fields_bytes(r.fees) + adata_field_bytes(r.adata));
    lemma_fees_decode(r.fees, adata_field_bytes(r.adata), r.reason, Seq::empty(), None);
    assert(Seq::<FeeData>::empty() + r.fees =~= r.fees);
    lemma_resp_adata_step(r.reason, r.fees, r.adata);
}

/// Decoding an encoded response returns the same response: the round-trip
/// law for responses that carry only interpreted fields. The auth-serno
/// must fit the ten-digit wire field.
#[verifier::rlimit(60)]
pub proof fn lemma_response_round_trip(r: ResponseShape)
    requires
        mti_valid(r.mti),
        response_encodable(r),
        r.auth_serno <= 9999999999,
    ensures
        spec_decode_response(spec_encode_response(r)) == Ok::<ResponseShape, WireError>(r),
{
    let body = response_body_bytes(r);
    lemma_frame_round_trip(body, Seq::empty());
    assert(frame_bytes(body) + Seq::<u8>::empty() =~= frame_bytes(body));
    assert(spec_split_frame(spec_encode_response(r)) == Ok::<Seq<u8>, WireError>(body));

    lemma_mti_bytes(r.mti);
    lemma_serno_bytes(r.auth_serno);
    assert(body.take(4) =~= vstd::utf8::encode_utf8(r.mti));
    assert(body.subrange(4, 14) =~= serno_bytes(r.auth_serno));
    lemma_serno_round_trip(r.auth_serno);

    let fields = body.skip(14);
    assert(fields =~= field_bytes(Tag::Regular(31), dec_digits(r.reason as nat)) + (
    fee_fields_bytes(r.fees) + adata_field_bytes(r.adata)));
    lemma_resp_fields_round_trip(r);

    assert(Seq::new(4, |i: int| body[i] as char) =~= r.mti) by {
        assert forall|i: int| 0 <= i < 4 implies body[i] as char == r.mti[i] by {
            assert(body[i] == body.take(4)[i]);
            assert(body.take(4)[i] == vstd::utf8::encode_utf8(r.mti)[i]);
            assert(Seq::new(
                vstd::utf8::encode_utf8(r.mti).len(),
                |j: int| vstd::utf8::encode_utf8(r.mti)[j] as char,
            )[i] == r.mti[i]);
        }
    }
}


/// The JSON object for one fee.
pub open spec fn fee_json_chars(f: FeeData) -> Seq<char> {
    "{\"reason\":"@ + dec_chars(f.reason as nat) + ",\"currency\":"@ + dec_chars(
        f.currency as nat,
    ) + ",\"amount\":"@ + dec_chars(f.amount as nat) + "}"@
}

/// The remaining fee objects, each preceded by a comma.
pub open spec fn fees_json_tail(s: Seq<FeeData>) -> Seq<char>
    decreases s.len(),
{
    if s.len() == 0 {
        Seq::empty()
    } else {
        ","@ + fee_json_chars(s[0]) + fees_json_tail(s.skip(1))
    }
}

/// The comma-separated fee objects.
pub open spec fn fees_json_chars(s: Seq<FeeData>) -> Seq<char> {
    if s.len() == 0 {
        Seq::empty()
    } else {
        fee_json_chars(s[0]) + fees_json_tail(s.skip(1))
    }
}

/// The JSON rendering of a response: `mti`, `auth_serno` and `reason`
/// always; `fees` only when non-empty; `adata` only when present.
pub open spec fn response_json_chars(r: ResponseShape) -> Seq<char> {
    "{\"mti\":\""@ + r.mti + "\",\"auth_serno\":"@ + dec_chars(r.auth_serno as nat)
        + ",\"reason\":"@ + dec_chars(r.reason as nat) + (if r.fees.len() == 0 {
        Seq::<char>::empty()
    } else {
        ",\"fees\":["@ + fees_json_chars(r.fees) + "]"@
    }) + (match r.adata {
        Some(s) => ",\"adata\":\""@ + json_escape(s) + "\""@,
        None => Seq::<char>::empty(),
    }) + "}"@
}

/// Append one fee's JSON object to `out`.
fn push_fee_json(f: &FeeData, out: &mut String)
    ensures
        final(out)@ == old(out)@ + fee_json_chars(*f),
{
    out.append("{\"reason\":");
    let t = u64_to_dec_string(f.reason as u64);
    out.append(t.as_str());
    out.append(",\"currency\":");
    let t = u64_to_dec_string(f.currency as u64);
    out.append(t.as_str());
    out.append(",\"amount\":");
    let t = u64_to_dec_string(f.amount);
    out.append(t.as_str());
    out.append("}");
    proof {
        assert(out@ =~= old(out)@ + fee_json_chars(*f));
    }
}

/// One more fee in the tail appends a comma and its object.
proof fn lemma_fees_json_tail_snoc(s: Seq<FeeData>, i: int)
    requires
        0 <= i < s.len(),
    ensures
        fees_json_tail(s.take(i + 1)) == fees_json_tail(s.take(i)) + (","@ + fee_json_chars(
            s[i],
        )),
    decreases i,
{
    if i == 0 {
        assert(s.take(1).skip(1) =~= Seq::<FeeData>::empty());
        assert(s.take(0) =~= Seq::<FeeData>::empty());
        assert(s.take(1)[0] == s[0]);
        assert(fees_json_tail(s.take(1)) =~= fees_json_tail(s.take(0)) + (","@ + fee_json_chars(
            s[0],
        )));
    } else {
        lemma_fees_json_tail_snoc(s.skip(1), i - 1);
        assert(s.take(i + 1).skip(1) =~= s.skip(1).take(i));
        assert(s.take(i).skip(1) =~= s.skip(1).take(i - 1));
        assert(s.skip(1)[i - 1] == s[i]);
        assert(s.take(i + 1)[0] == s[0]);
        assert(s.take(i)[0] == s[0]);
        assert(fees_json_tail(s.take(i + 1)) =~= fees_json_tail(s.take(i)) + (","@
            + fee_json_chars(s[i])));
    }
}

impl SigmaResponse {
    /// The JSON text of this response, with the same key order and
    /// escaping rules as its serialized form.
    #[verifier::loop_isolation(false)]
    pub fn to_json_string(&self) -> (r: String)
        ensures
            r@ == response_json_chars(self@),
    {
        let mut out = String::new();
        out.append("{\"mti\":\"");
        out.append(self.mti.as_str());
        out.append("\",\"auth_serno\":");
        let t = u64_to_dec_string(self.auth_serno);
        out.append(t.as_str());
        out.append(",\"reason\":");
        let t = u64_to_dec_string(self.reason as u64);
        out.append(t.as_str());
        let ghost head = "{\"mti\":\""@ + self@.mti + "\",\"auth_serno\":"@ + dec_chars(
            self@.auth_serno as nat,
        ) + ",\"reason\":"@ + dec_chars(self@.reason as nat);
        proof {
            assert(out@ =~= head);
        }

        let n_fees: usize = self.fees.len();
        if n_fees > 0 {
            out.append(",\"fees\":[");
            push_fee_json(&self.fees[0], &mut out);
            let mut i: usize = 1;
            proof {
                assert(fees_json_tail(self.fees@.skip(1).take(0)) =~= Seq::<char>::empty());
                assert(out@ =~= head + ",\"fees\":["@ + (fee_json_chars(self.fees@[0])
                    + fees_json_tail(self.fees@.skip(1).take(0))));
            }
            while i < n_fees
                invariant
                    1 <= i <= n_fees,
                    out@ == head + ",\"fees\":["@ + (fee_json_chars(self.fees@[0])
                        + fees_json_tail(self.fees@.skip(1).take(i - 1))),
                decreases n_fees - i,
            {
                out.append(",");
                push_fee_json(&self.fees[i], &mut out);
                proof {
                    lemma_fees_json_tail_snoc(self.fees@.skip(1), i - 1);
                    assert(self.fees@.skip(1)[i - 1] == self.fees@[i as int]);
                    assert(out@ =~= head + ",\"fees\":["@ + (fee_json_chars(self.fees@[0])
                        + fees_json_tail(self.fees@.skip(1).take(i as int))));
                }
                i = i + 1;
            }
            out.append("]");
            proof {
                assert(self.fees@.skip(1).take(n_fees - 1) =~= self.fees@.skip(1));
                assert(out@ =~= head + (",\"fees\":["@ + fees_json_chars(self.fees@) + "]"@));
            }
        }
        let ghost with_fees = head + (if self@.fees.len() == 0 {
            Seq::<char>::empty()
        } else {
            ",\"fees\":["@ + fees_json_chars(self@.fees) + "]"@
        });
        proof {
            assert(out@ =~= with_fees);
        }

        if let Some(ref adata) = self.adata {
            out.append(",\"adata\":\"");
            push_json_escaped(adata.as_str(), &mut out);
            out.append("\"");
        }
        out.append("}");
        proof {
            assert(out@ =~= response_json_chars(self@));
        }
        out
    }
}

/// Any strict truncation of an encoded response fails to decode with
/// `Bounds`.
pub proof fn lemma_response_decode_truncation(r: ResponseShape, n: int)
    requires
        response_encodable(r),
        0 <= n < spec_encode_response(r).len(),
    ensures
        spec_decode_response(spec_encode_response(r).take(n)) == Err::<ResponseShape, WireError>(
            WireError::Bounds,
        ),
{
    let body = response_body_bytes(r);
    let f = spec_encode_response(r);
    assert(pow10(5) == 100000) by {
        reveal_with_fuel(pow10, 6);
    }
    lemma_dec_digits_value(body.len());
    lemma_dec_digits_len_le(body.len(), 5);
    lemma_zero_pad(dec_digits(body.len()), 5);
    assert(f.take(5) =~= dec_padded(body.len(), 5));
    crate::frame::lemma_frame_truncation(f, n);
}

/// An encoded fee payload is between 8 and 27 bytes.
proof fn lemma_fee_payload_len(f: FeeData)
    requires
        f.wf(),
    ensures
        8 <= fee_wire_bytes(f).len() <= 27,
{
    assert(pow10(20) > u64::MAX) by {
        reveal_with_fuel(pow10, 21);
    }
    assert(pow10(4) == 10000 && pow10(3) == 1000) by {
        reveal_with_fuel(pow10, 5);
    }
    lemma_dec_digits_value(f.amount as nat);
    lemma_dec_digits_len_le(f.amount as nat, 20);
    lemma_dec_digits_len_le(f.reason as nat, 4);
    lemma_dec_digits_len_le(f.currency as nat, 3);
    lemma_zero_pad(dec_digits(f.reason as nat), 4);
    lemma_zero_pad(dec_digits(f.currency as nat), 3);
}

} // verus!
