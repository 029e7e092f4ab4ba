//! The request message: validated header fields, ordered tag and ISO field
//! maps, and the wire encoder and decoder.

use vstd::prelude::*;

use crate::bytebuf::{bytes_from_vec, bytes_slice, bytes_view};
use crate::digits::{all_dec_digits, parse_dec_u64};
use crate::error::Error;
use crate::field::{
    decode_field_from_cursor, encode_field_to_buf, field_bytes, lemma_field_round_trip,
    spec_decode_field, FieldDecodeError,
};
use crate::frame::{
    frame_bytes, parse_serno, push_serno, serno_bytes, spec_parse_serno, spec_split_frame,
    split_frame, WireError,
};
use crate::json::{
    json_object_entries, json_result_matches, json_value_entries, gen_random_auth_serno,
    kv_entries_view, remove_entry, spec_fill_fields, u64_to_dec_string, JsonShape, JsonVal,
};
use crate::map::{entries_insert, entries_map_values, OrderedMap};
use crate::payload::{shape_of_bytes, IsoFieldData, PayloadShape};
use crate::tag::Tag;
use crate::text::{bytes_to_string_lossy, utf8_lossy, vec_to_string_utf8};
use crate::validate::{
    mti_valid, saf_valid, source_valid, validate_mti, validate_saf, validate_source,
};
use vstd::string::StringSliceAdditionalSpecFns;

verus! {

/// Ghost shape of a request.
pub struct RequestShape {
    pub saf: Seq<char>,
    pub source: Seq<char>,
    pub mti: Seq<char>,
    pub auth_serno: u64,
    pub tags: Seq<(u32, Seq<char>)>,
    pub iso_fields: Seq<(u32, PayloadShape)>,
    pub iso_subfields: Seq<(u32, PayloadShape)>,
}

/// A request message. The subfield map is keyed by `index * 256 +
/// subfield_index`.
#[derive(Debug, Clone)]
pub struct SigmaRequest {
    saf: String,
    source: String,
    mti: String,
    pub auth_serno: u64,
    pub tags: OrderedMap<String>,
    pub iso_fields: OrderedMap<IsoFieldData>,
    pub iso_subfields: OrderedMap<IsoFieldData>,
}

/// The characters of each text value.
pub open spec fn text_entries_view(s: Seq<(u32, String)>) -> Seq<(u32, Seq<char>)> {
    entries_map_values(s, |v: String| v@)
}

/// The payload shape of each payload value.
pub open spec fn payload_entries_view(s: Seq<(u32, IsoFieldData)>) -> Seq<(u32, PayloadShape)> {
    entries_map_values(s, |v: IsoFieldData| v@)
}

impl View for SigmaRequest {
    type V = RequestShape;

    closed spec fn view(&self) -> RequestShape {
        RequestShape {
            saf: self.saf@,
            source: self.source@,
            mti: self.mti@,
            auth_serno: self.auth_serno,
            tags: text_entries_view(self.tags@),
            iso_fields: payload_entries_view(self.iso_fields@),
            iso_subfields: payload_entries_view(self.iso_subfields@),
        }
    }
}

/// The tag a regular-field entry encodes under.
pub open spec fn tag_entry_fields(s: Seq<(u32, Seq<char>)>) -> Seq<u8>
    decreases s.len(),
{
    if s.len() == 0 {
        Seq::empty()
    } else {
        field_bytes(Tag::Regular(s[0].0 as u16), vstd::utf8::encode_utf8(s[0].1))
            + tag_entry_fields(s.skip(1))
    }
}

/// The concatenated ISO fields.
pub open spec fn iso_entry_fields(s: Seq<(u32, PayloadShape)>) -> Seq<u8>
    decreases s.len(),
{
    if s.len() == 0 {
        Seq::empty()
    } else {
        field_bytes(Tag::Iso(s[0].0 as u16), s[0].1.bytes()) + iso_entry_fields(s.skip(1))
    }
}

/// The concatenated ISO subfields; the composite key splits back into
/// index and subfield index.
pub open spec fn sub_entry_fields(s: Seq<(u32, PayloadShape)>) -> Seq<u8>
    decreases s.len(),
{
    if s.len() == 0 {
        Seq::empty()
    } else {
        field_bytes(Tag::IsoSubfield((s[0].0 / 256) as u16, (s[0].0 % 256) as u8), s[0].1.bytes())
            + sub_entry_fields(s.skip(1))
    }
}

/// The body of an encoded request: SAF, source, MTI, serno, then the three
/// field groups in ascending key order.
pub open spec fn request_body_bytes(r: RequestShape) -> Seq<u8> {
    vstd::utf8::encode_utf8(r.saf) + vstd::utf8::encode_utf8(r.source) + vstd::utf8::encode_utf8(
        r.mti,
    ) + serno_bytes(r.auth_serno) + tag_entry_fields(r.tags) + iso_entry_fields(r.iso_fields)
        + sub_entry_fields(r.iso_subfields)
}

/// The whole encoded request frame.
pub open spec fn spec_encode_request(r: RequestShape) -> Seq<u8> {
    frame_bytes(request_body_bytes(r))
}

/// Whether a request can be encoded: every index fits its BCD width, every
/// payload fits one field, and the body fits the length prefix.
pub open spec fn request_encodable(r: RequestShape) -> bool {
    (forall|i: int|
        0 <= i < r.tags.len() ==> (#[trigger] r.tags[i]).0 <= 9999 && vstd::utf8::encode_utf8(
            r.tags[i].1,
        ).len() <= 9999) && (forall|i: int|
        0 <= i < r.iso_fields.len() ==> (#[trigger] r.iso_fields[i]).0 <= 9999
            && r.iso_fields[i].1.bytes().len() <= 9999) && (forall|i: int|
        0 <= i < r.iso_subfields.len() ==> (#[trigger] r.iso_subfields[i]).0 / 256 <= 9999
            && r.iso_subfields[i].0 % 256 <= 99 && r.iso_subfields[i].1.bytes().len() <= 9999)
        && request_body_bytes(r).len() <= 99999
}

/// What decoding the fields of a request body yields, growing the three
/// maps as each field is routed by its tag kind.
pub open spec fn spec_decode_req_fields(
    s: Seq<u8>,
    tags: Seq<(u32, Seq<char>)>,
    iso: Seq<(u32, PayloadShape)>,
    sub: Seq<(u32, PayloadShape)>,
) -> Result<(Seq<(u32, Seq<char>)>, Seq<(u32, PayloadShape)>, Seq<(u32, PayloadShape)>), WireError>
    decreases s.len(),
{
    if s.len() == 0 {
        Ok((tags, iso, sub))
    } else {
        match spec_decode_field(s) {
            Err(FieldDecodeError::Bounds) => Err(WireError::Bounds),
            Err(FieldDecodeError::Tag) => Err(WireError::Tag),
            Ok((t, payload, rest)) => if rest.len() < s.len() {
                match t {
                    Tag::Regular(i) => spec_decode_req_fields(
                        rest,
                        entries_insert(tags, i as u32, utf8_lossy(payload)),
                        iso,
                        sub,
                    ),
                    Tag::Iso(i) => spec_decode_req_fields(
                        rest,
                        tags,
                        entries_insert(iso, i as u32, shape_of_bytes(payload)),
                        sub,
                    ),
                    Tag::IsoSubfield(i, si) => spec_decode_req_fields(
                        rest,
                        tags,
                        iso,
                        entries_insert(sub, (i * 256 + si) as u32, shape_of_bytes(payload)),
                    ),
                }
            } else {
                Err(WireError::Data)
            },
        }
    }
}

/// What decoding a whole request frame yields.
pub open spec fn spec_decode_request(s: Seq<u8>) -> Result<RequestShape, WireError> {
    match spec_split_frame(s) {
        Err(e) => Err(e),
        Ok(body) => if body.len() < 1 {
            Err(WireError::Bounds)
        } else if !(body[0] == 0x59 || body[0] == 0x4e) {
            Err(WireError::FieldData)
        } else if body.len() < 2 {
            Err(WireError::Bounds)
        } else if body[1] >= 0x80 {
            Err(WireError::FieldData)
        } else if body.len() < 6 {
            Err(WireError::Bounds)
        } else if !all_dec_digits(body.subrange(2, 6)) {
            Err(WireError::FieldData)
        } else if body.len() < 16 {
            Err(WireError::Bounds)
        } else {
            match spec_parse_serno(body.subrange(6, 16)) {
                None => Err(WireError::FieldData),
                Some(serno) => match spec_decode_req_fields(
                    body.skip(16),
                    Seq::empty(),
                    Seq::empty(),
                    Seq::empty(),
                ) {
                    Err(e) => Err(e),
                    Ok((tags, iso, sub)) => Ok(
                        RequestShape {
                            saf: seq![body[0] as char],
                            source: seq![body[1] as char],
                            mti: Seq::new(4, |i: int| body[2 + i] as char),
                            auth_serno: serno,
                            tags,
                            iso_fields: iso,
                            iso_subfields: sub,
                        },
                    ),
                },
            }
        },
    }
}

impl SigmaRequest {
    /// The three header fields are always valid and the maps sorted; the
    /// constructor, the setters and the decoders keep it so.
    pub closed spec fn wf(&self) -> bool {
        saf_valid(self.saf@) && source_valid(self.source@) && mti_valid(self.mti@)
            && self.tags.wf() && self.iso_fields.wf() && self.iso_subfields.wf()
    }

    /// The maps of a well-formed request are sorted by ascending key.
    pub proof fn lemma_wf_maps(&self)
        requires
            self.wf(),
        ensures
            crate::map::entries_sorted(self@.tags),
            crate::map::entries_sorted(self@.iso_fields),
            crate::map::entries_sorted(self@.iso_subfields),
    {
        assert forall|i: int, j: int| 0 <= i < j < self@.tags.len() implies (
        #[trigger] self@.tags[i]).0 < (#[trigger] self@.tags[j]).0 by {
            assert(self@.tags[i].0 == self.tags@[i].0);
            assert(self@.tags[j].0 == self.tags@[j].0);
        }
        assert forall|i: int, j: int| 0 <= i < j < self@.iso_fields.len() implies (
        #[trigger] self@.iso_fields[i]).0 < (#[trigger] self@.iso_fields[j]).0 by {
            assert(self@.iso_fields[i].0 == self.iso_fields@[i].0);
            assert(self@.iso_fields[j].0 == self.iso_fields@[j].0);
        }
        assert forall|i: int, j: int| 0 <= i < j < self@.iso_subfields.len() implies (
        #[trigger] self@.iso_subfields[i]).0 < (#[trigger] self@.iso_subfields[j]).0 by {
            assert(self@.iso_subfields[i].0 == self.iso_subfields@[i].0);
            assert(self@.iso_subfields[j].0 == self.iso_subfields@[j].0);
        }
    }

    /// Build a request with the given header values and empty maps.
    pub fn new(saf: &str, source: &str, mti: &str, auth_serno: u64) -> (r: Result<Self, Error>)
        ensures
            r is Ok <==> (saf_valid(saf@) && source_valid(source@) && mti_valid(mti@)),
            r matches Ok(req) ==> req.wf() && req@ == (RequestShape {
                saf: saf@,
                source: source@,
                mti: mti@,
                auth_serno,
                tags: Seq::empty(),
                iso_fields: Seq::empty(),
                iso_subfields: Seq::empty(),
            }),
            r matches Err(e) ==> e is IncorrectFieldData,
    {
        validate_saf(saf)?;
        validate_source(source)?;
        validate_mti(mti)?;
        let r = SigmaRequest {
            saf: saf.to_owned(),
            source: source.to_owned(),
            mti: mti.to_owned(),
            auth_serno,
            tags: OrderedMap::new(),
            iso_fields: OrderedMap::new(),
            iso_subfields: OrderedMap::new(),
        };
        proof {
            assert(r@.tags =~= Seq::<(u32, Seq<char>)>::empty());
            assert(r@.iso_fields =~= Seq::<(u32, PayloadShape)>::empty());
            assert(r@.iso_subfields =~= Seq::<(u32, PayloadShape)>::empty());
        }
        Ok(r)
    }

    /// The SAF flag.
    pub fn saf(&self) -> (r: &str)
        ensures
            r@ == self@.saf,
    {
        self.saf.as_str()
    }

    /// Replace the SAF flag; on failure the request is unchanged.
    pub fn set_saf(&mut self, v: String) -> (r: Result<(), Error>)
        ensures
            r is Ok <==> saf_valid(v@),
            r is Ok ==> final(self)@ == (RequestShape { saf: v@, ..old(self)@ }),
            r is Err ==> *final(self) == *old(self),
            old(self).wf() && r is Ok ==> final(self).wf(),
            r matches Err(e) ==> e is IncorrectFieldData,
    {
        validate_saf(v.as_str())?;
        self.saf = v;
        Ok(())
    }

    /// The source.
    pub fn source(&self) -> (r: &str)
        ensures
            r@ == self@.source,
    {
        self.source.as_str()
    }

    /// Replace the source; on failure the request is unchanged.
    pub fn set_source(&mut self, v: String) -> (r: Result<(), Error>)
        ensures
            r is Ok <==> source_valid(v@),
            r is Ok ==> final(self)@ == (RequestShape { source: v@, ..old(self)@ }),
            r is Err ==> *final(self) == *old(self),
            old(self).wf() && r is Ok ==> final(self).wf(),
            r matches Err(e) ==> e is IncorrectFieldData,
    {
        validate_source(v.as_str())?;
        self.source = v;
        Ok(())
    }

    /// The MTI.
    pub fn mti(&self) -> (r: &str)
        ensures
            r@ == self@.mti,
    {
        self.mti.as_str()
    }

    /// Replace the MTI; on failure the request is unchanged.
    pub fn set_mti(&mut self, v: String) -> (r: Result<(), Error>)
        ensures
            r is Ok <==> mti_valid(v@),
            r is Ok ==> final(self)@ == (RequestShape { mti: v@, ..old(self)@ }),
            r is Err ==> *final(self) == *old(self),
            old(self).wf() && r is Ok ==> final(self).wf(),
            r matches Err(e) ==> e is IncorrectFieldData,
    {
        validate_mti(v.as_str())?;
        self.mti = v;
        Ok(())
    }

    /// Encode this request as one frame. Fails with `Bounds` exactly when
    /// an index or payload is out of range or the body outgrows the length
    /// prefix.
    #[verifier::loop_isolation(false)]
    #[verifier::rlimit(60)]
    pub fn encode(&self) -> (r: Result<bytes::Bytes, Error>)
        requires
            self.wf(),
        ensures
            r is Ok <==> request_encodable(self@),
            r matches Ok(b) ==> bytes_view(b) == spec_encode_request(self@),
            r matches Err(e) ==> e is Bounds,
    {
        let mut body: Vec<u8> = Vec::new();
        body.extend_from_slice(self.saf.as_str().as_bytes());
        body.extend_from_slice(self.source.as_str().as_bytes());
        body.extend_from_slice(self.mti.as_str().as_bytes());
        push_serno(self.auth_serno, &mut body);
        let ghost header = vstd::utf8::encode_utf8(self@.saf) + vstd::utf8::encode_utf8(
            self@.source,
        ) + vstd::utf8::encode_utf8(self@.mti) + serno_bytes(self@.auth_serno);
        proof {
            assert(body@ =~= header);
        }

        let n_tags: usize = self.tags.len();
        let mut i: usize = 0;
        proof {
            assert(tag_entry_fields(self@.tags.take(0)) =~= Seq::<u8>::empty());
            assert(body@ =~= header + tag_entry_fields(self@.tags.take(0)));
        }
        while i < n_tags
            invariant
                0 <= i <= n_tags,
                forall|j: int|
                    0 <= j < i ==> (#[trigger] self@.tags[j]).0 <= 9999 && vstd::utf8::encode_utf8(
                        self@.tags[j].1,
                    ).len() <= 9999,
                body@ == header + tag_entry_fields(self@.tags.take(i as int)),
            decreases n_tags - i,
        {
            let entry = self.tags.entry_at(i);
            let k = entry.0;
            if k > 9999 {
                proof {
                    assert(self@.tags[i as int].0 == self.tags@[i as int].0);
                }
                return Err(Error::Bounds("tag index contains more than 4 digits".to_owned()));
            }
            let payload = entry.1.as_str().as_bytes();
            proof {
                assert(self@.tags[i as int] == (self.tags@[i as int].0, self.tags@[i as int].1@));
            }
            match encode_field_to_buf(Tag::Regular(k as u16), payload, &mut body) {
                Ok(()) => (),
                Err(e) => {
                    return Err(e);
                },
            }
            proof {
                lemma_tag_entry_fields_snoc(self@.tags, i as int);
            }
            i = i + 1;
        }
        proof {
            assert(self@.tags.take(n_tags as int) =~= self@.tags);
        }

        let ghost after_tags = header + tag_entry_fields(self@.tags);
        let n_iso: usize = self.iso_fields.len();
        let mut i: usize = 0;
        proof {
            assert(iso_entry_fields(self@.iso_fields.take(0)) =~= Seq::<u8>::empty());
            assert(body@ =~= after_tags + iso_entry_fields(self@.iso_fields.take(0)));
        }
        while i < n_iso
            invariant
                0 <= i <= n_iso,
                forall|j: int|
                    0 <= j < i ==> (#[trigger] self@.iso_fields[j]).0 <= 9999
                        && self@.iso_fields[j].1.bytes().len() <= 9999,
                body@ == after_tags + iso_entry_fields(self@.iso_fields.take(i as int)),
            decreases n_iso - i,
        {
            let entry = self.iso_fields.entry_at(i);
            let k = entry.0;
            if k > 9999 {
                proof {
                    assert(self@.iso_fields[i as int].0 == self.iso_fields@[i as int].0);
                }
                return Err(Error::Bounds("ISO field index contains more than 4 digits".to_owned()));
            }
            let payload = entry.1.as_bytes();
            proof {
                assert(self@.iso_fields[i as int] == (
                    self.iso_fields@[i as int].0,
                    self.iso_fields@[i as int].1@,
                ));
            }
            match encode_field_to_buf(Tag::Iso(k as u16), payload, &mut body) {
                Ok(()) => (),
                Err(e) => {
                    return Err(e);
                },
            }
            proof {
                lemma_iso_entry_fields_snoc(self@.iso_fields, i as int);
            }
            i = i + 1;
        }
        proof {
            assert(self@.iso_fields.take(n_iso as int) =~= self@.iso_fields);
        }

        let ghost after_iso = after_tags + iso_entry_fields(self@.iso_fields);
        let n_sub: usize = self.iso_subfields.len();
        let mut i: usize = 0;
        proof {
            assert(sub_entry_fields(self@.iso_subfields.take(0)) =~= Seq::<u8>::empty());
            assert(body@ =~= after_iso + sub_entry_fields(self@.iso_subfields.take(0)));
        }
        while i < n_sub
            invariant
                0 <= i <= n_sub,
                forall|j: int|
                    0 <= j < i ==> (#[trigger] self@.iso_subfields[j]).0 / 256 <= 9999
                        && self@.iso_subfields[j].0 % 256 <= 99
                        && self@.iso_subfields[j].1.bytes().len() <= 9999,
                body@ == after_iso + sub_entry_fields(self@.iso_subfields.take(i as int)),
            decreases n_sub - i,
        {
            let entry = self.iso_subfields.entry_at(i);
            let k = entry.0;
            let idx: u32 = k / 256;
            let sidx: u32 = k % 256;
            proof {
                assert(self@.iso_subfields[i as int] == (
                    self.iso_subfields@[i as int].0,
                    self.iso_subfields@[i as int].1@,
                ));
            }
            if idx > 9999 {
                return Err(
                    Error::Bounds("ISO subfield index contains more than 4 digits".to_owned()),
                );
            }
            if sidx > 99 {
                return Err(
                    Error::Bounds("ISO subfield subindex contains more than 2 digits".to_owned()),
                );
            }
            let payload = entry.1.as_bytes();
            match encode_field_to_buf(
                Tag::IsoSubfield(idx as u16, sidx as u8),
                payload,
                &mut body,
            ) {
                Ok(()) => (),
                Err(e) => {
                    return Err(e);
                },
            }
            proof {
                lemma_sub_entry_fields_snoc(self@.iso_subfields, i as int);
            }
            i = i + 1;
        }
        proof {
            assert(self@.iso_subfields.take(n_sub as int) =~= self@.iso_subfields);
            assert(body@ =~= request_body_bytes(self@));
        }

        if body.len() > 99999 {
            return Err(Error::Bounds("message body longer than 99999 bytes".to_owned()));
        }
        let mut out: Vec<u8> = Vec::new();
        proof {
            assert(crate::digits::pow10(5) == 100000) by {
                reveal_with_fuel(crate::digits::pow10, 6);
            }
            crate::digits::lemma_dec_digits_len_le(body@.len(), 5);
        }
        crate::digits::push_dec_u64_padded(body.len() as u64, 5, &mut out);
        out.extend_from_slice(body.as_slice());
        proof {
            assert(out@ =~= spec_encode_request(self@));
        }
        Ok(bytes_from_vec(out))
    }

    /// Decode a request frame.
    #[verifier::loop_isolation(false)]
    #[verifier::rlimit(100)]
    pub fn decode(data: bytes::Bytes) -> (r: Result<Self, Error>)
        ensures
            match spec_decode_request(bytes_view(data)) {
                Ok(shape) => r matches Ok(req) && req@ == shape && req.wf(),
                Err(WireError::Bounds) => r matches Err(e) && e is Bounds,
                Err(WireError::FieldData) => r matches Err(e) && e is IncorrectFieldData,
                Err(WireError::Tag) => r matches Err(e) && e is IncorrectTag,
                Err(WireError::Data) => r matches Err(e) && e is IncorrectData,
            },
    {
        let mut data = data;
        let mut body = split_frame(&mut data)?;
        let ghost body0 = bytes_view(body);

        let saf_src = crate::bytebuf::bytes_split_to(&mut body, 1)?;
        let saf_slice = bytes_slice(&saf_src);
        let saf_byte = saf_slice[0];
        proof {
            assert(saf_byte == body0[0]);
        }
        let saf: &str = if saf_byte == 0x59 {
            "Y"
        } else if saf_byte == 0x4e {
            "N"
        } else {
            return Err(Error::incorrect_field_data("SAF", "char Y or N"));
        };
        proof {
            reveal_strlit("Y");
            reveal_strlit("N");
            assert(saf@ =~= seq![body0[0] as char]);
        }

        let src_src = crate::bytebuf::bytes_split_to(&mut body, 1)?;
        let src_byte = bytes_slice(&src_src)[0];
        proof {
            assert(src_byte == body0.skip(1)[0]);
            assert(src_byte == body0[1]);
        }
        if src_byte >= 0x80 {
            return Err(Error::incorrect_field_data("SRC", "single ASCII char"));
        }
        let mut src_vec: Vec<u8> = Vec::new();
        src_vec.push(src_byte);
        proof {
            assert forall|j: int| 0 <= j < src_vec@.len() implies #[trigger] src_vec@[j]
                < 0x80 by {
                assert(src_vec@[j] == src_byte);
            }
            crate::text::lemma_ascii_bytes_utf8(src_vec@);
        }
        let source = match vec_to_string_utf8(src_vec) {
            Ok(s) => s,
            Err(_) => {
                return Err(Error::incorrect_field_data("SRC", "single ASCII char"));
            },
        };
        let src_char = src_byte as char;
        proof {
            assert('\0' <= src_char && src_char <= '\u{7f}');
            assert(source@ =~= seq![body0[1] as char]);
            assert(source@[0] == src_char);
        }

        let mti_src = crate::bytebuf::bytes_split_to(&mut body, 4)?;
        let mti_slice = bytes_slice(&mti_src);
        let mut mti_bytes: Vec<u8> = Vec::new();
        mti_bytes.extend_from_slice(mti_slice);
        proof {
            assert(body0.skip(1).skip(1).take(4) =~= body0.subrange(2, 6));
            assert(mti_bytes@ =~= body0.subrange(2, 6));
        }
        let mut i: usize = 0;
        while i < 4
            invariant
                0 <= i <= 4,
                forall|j: int|
                    0 <= j < i ==> crate::digits::is_dec_digit(
                        #[trigger] body0.subrange(2, 6)[j],
                    ),
            decreases 4 - i,
        {
            let b = mti_bytes[i];
            if b < 0x30 || b > 0x39 {
                proof {
                    assert(!crate::digits::is_dec_digit(body0.subrange(2, 6)[i as int]));
                }
                return Err(Error::incorrect_field_data("MTI", "4 digit number (string)"));
            }
            i = i + 1;
        }
        proof {
            crate::text::lemma_ascii_bytes_utf8(mti_bytes@);
        }
        let mti = match vec_to_string_utf8(mti_bytes) {
            Ok(s) => s,
            Err(_) => {
                return Err(Error::incorrect_field_data("MTI", "4 digit number (string)"));
            },
        };
        proof {
            assert(mti@ =~= Seq::new(4, |i: int| body0[2 + i] as char));
        }

        let serno_src = crate::bytebuf::bytes_split_to(&mut body, 10)?;
        proof {
            assert(body0.skip(1).skip(1).skip(4).take(10) =~= body0.subrange(6, 16));
        }
        let auth_serno = match parse_serno(bytes_slice(&serno_src)) {
            Some(v) => v,
            None => {
                return Err(Error::incorrect_field_data("Serno", "u64"));
            },
        };
        proof {
            assert(body0.skip(1).skip(1).skip(4).skip(10) =~= body0.skip(16));
        }

        let mut tags: OrderedMap<String> = OrderedMap::new();
        let mut iso_fields: OrderedMap<IsoFieldData> = OrderedMap::new();
        let mut iso_subfields: OrderedMap<IsoFieldData> = OrderedMap::new();
        let ghost fields0 = body0.skip(16);
        proof {
            assert(text_entries_view(tags@) =~= Seq::<(u32, Seq<char>)>::empty());
            assert(payload_entries_view(iso_fields@) =~= Seq::<(u32, PayloadShape)>::empty());
            assert(payload_entries_view(iso_subfields@) =~= Seq::<(u32, PayloadShape)>::empty());
        }
        while crate::bytebuf::bytes_len(&body) > 0
            invariant
                tags.wf(),
                iso_fields.wf(),
                iso_subfields.wf(),
                spec_decode_req_fields(fields0, Seq::empty(), Seq::empty(), Seq::empty())
                    == spec_decode_req_fields(
                    bytes_view(body),
                    text_entries_view(tags@),
                    payload_entries_view(iso_fields@),
                    payload_entries_view(iso_subfields@),
                ),
            decreases bytes_view(body).len(),
        {
            let (tag, data_src) = decode_field_from_cursor(&mut body)?;
            let payload = bytes_slice(&data_src);
            match tag {
                Tag::Regular(i) => {
                    let content = bytes_to_string_lossy(payload);
                    proof {
                        crate::map::lemma_entries_map_values_insert(
                            tags@,
                            i as u32,
                            content,
                            |v: String| v@,
                        );
                    }
                    tags.insert(i as u32, content);
                },
                Tag::Iso(i) => {
                    let mut payload_vec: Vec<u8> = Vec::new();
                    payload_vec.extend_from_slice(payload);
                    proof {
                        assert(payload_vec@ =~= bytes_view(data_src));
                    }
                    let content = IsoFieldData::from_vec(payload_vec);
                    proof {
                        crate::map::lemma_entries_map_values_insert(
                            iso_fields@,
                            i as u32,
                            content,
                            |v: IsoFieldData| v@,
                        );
                    }
                    iso_fields.insert(i as u32, content);
                },
                Tag::IsoSubfield(i, si) => {
                    let mut payload_vec: Vec<u8> = Vec::new();
                    payload_vec.extend_from_slice(payload);
                    proof {
                        assert(payload_vec@ =~= bytes_view(data_src));
                    }
                    let content = IsoFieldData::from_vec(payload_vec);
                    let key: u32 = i as u32 * 256 + si as u32;
                    proof {
                        crate::map::lemma_entries_map_values_insert(
                            iso_subfields@,
                            key,
                            content,
                            |v: IsoFieldData| v@,
                        );
                    }
                    iso_subfields.insert(key, content);
                },
            }
        }

        let req = SigmaRequest {
            saf: saf.to_owned(),
            source,
            mti,
            auth_serno,
            tags,
            iso_fields,
            iso_subfields,
        };
        Ok(req)
    }
}

/// Decoding a run of encoded regular fields appends their entries, in
/// order, to the accumulated tag map and goes on with whatever follows.
#[verifier::rlimit(100)]
proof fn lemma_req_tags_decode(
    ts: Seq<(u32, Seq<char>)>,
    tail: Seq<u8>,
    tacc: Seq<(u32, Seq<char>)>,
    iacc: Seq<(u32, PayloadShape)>,
    sacc: Seq<(u32, PayloadShape)>,
)
    requires
        crate::map::entries_sorted(tacc + ts),
        forall|i: int|
            0 <= i < ts.len() ==> (#[trigger] ts[i]).0 <= 9999 && vstd::utf8::encode_utf8(
                ts[i].1,
            ).len() <= 9999,
    ensures
        spec_decode_req_fields(tag_entry_fields(ts) + tail, tacc, iacc, sacc)
            == spec_decode_req_fields(tail, tacc + ts, iacc, sacc),
    decreases ts.len(),
{
    reveal_with_fuel(spec_decode_req_fields, 2);
    if ts.len() == 0 {
        assert(tag_entry_fields(ts) + tail =~= tail);
        assert(tacc + ts =~= tacc);
    } else {
        let (k, text) = ts[0];
        let enc = vstd::utf8::encode_utf8(text);
        let rest = tag_entry_fields(ts.skip(1)) + tail;
        crate::tag::lemma_tag_wire_round_trip(Tag::Regular(k as u16));
        lemma_field_round_trip(Tag::Regular(k as u16), enc, rest);
        assert(tag_entry_fields(ts) + tail =~= field_bytes(Tag::Regular(k as u16), enc) + rest);
        vstd::utf8::encode_utf8_valid_utf8(text);
        vstd::utf8::encode_utf8_decode_utf8(text);
        assert(utf8_lossy(enc) == text);
        assert forall|j: int| 0 <= j < tacc.len() implies (#[trigger] tacc[j]).0 < k by {
            assert((tacc + ts)[j] == tacc[j]);
            assert((tacc + ts)[tacc.len() as int] == ts[0]);
        }
        crate::map::lemma_entries_insert_append(tacc, k, text);
        assert(tacc.push(ts[0]) + ts.skip(1) =~= tacc + ts);
        assert(crate::map::entries_sorted(tacc.push(ts[0]) + ts.skip(1)));
        lemma_req_tags_decode(ts.skip(1), tail, tacc.push(ts[0]), iacc, sacc);
    }
}

/// Decoding a run of encoded ISO fields appends their entries to the
/// accumulated ISO map.
#[verifier::rlimit(100)]
proof fn lemma_req_iso_decode(
    is_entries: Seq<(u32, PayloadShape)>,
    tail: Seq<u8>,
    tacc: Seq<(u32, Seq<char>)>,
    iacc: Seq<(u32, PayloadShape)>,
    sacc: Seq<(u32, PayloadShape)>,
)
    requires
        crate::map::entries_sorted(iacc + is_entries),
        forall|i: int|
            0 <= i < is_entries.len() ==> (#[trigger] is_entries[i]).0 <= 9999
                && is_entries[i].1.bytes().len() <= 9999 && is_entries[i].1.wf(),
    ensures
        spec_decode_req_fields(iso_entry_fields(is_entries) + tail, tacc, iacc, sacc)
            == spec_decode_req_fields(tail, tacc, iacc + is_entries, sacc),
    decreases is_entries.len(),
{
    reveal_with_fuel(spec_decode_req_fields, 2);
    if is_entries.len() == 0 {
        assert(iso_entry_fields(is_entries) + tail =~= tail);
        assert(iacc + is_entries =~= iacc);
    } else {
        let (k, p) = is_entries[0];
        let rest = iso_entry_fields(is_entries.skip(1)) + tail;
        crate::tag::lemma_tag_wire_round_trip(Tag::Iso(k as u16));
        lemma_field_round_trip(Tag::Iso(k as u16), p.bytes(), rest);
        assert(iso_entry_fields(is_entries) + tail =~= field_bytes(Tag::Iso(k as u16), p.bytes())
            + rest);
        lemma_shape_of_bytes_round_trip(p);
        assert forall|j: int| 0 <= j < iacc.len() implies (#[trigger] iacc[j]).0 < k by {
            assert((iacc + is_entries)[j] == iacc[j]);
            assert((iacc + is_entries)[iacc.len() as int] == is_entries[0]);
        }
        crate::map::lemma_entries_insert_append(iacc, k, p);
        assert(iacc.push(is_entries[0]) + is_entries.skip(1) =~= iacc + is_entries);
        assert(crate::map::entries_sorted(iacc.push(is_entries[0]) + is_entries.skip(1)));
        lemma_req_iso_decode(is_entries.skip(1), tail, tacc, iacc.push(is_entries[0]), sacc);
    }
}

/// Decoding a run of encoded ISO subfields appends their entries to the
/// accumulated subfield map; the composite key splits and re-composes.
#[verifier::rlimit(100)]
proof fn lemma_req_sub_decode(
    ss: Seq<(u32, PayloadShape)>,
    tail: Seq<u8>,
    tacc: Seq<(u32, Seq<char>)>,
    iacc: Seq<(u32, PayloadShape)>,
    sacc: Seq<(u32, PayloadShape)>,
)
    requires
        crate::map::entries_sorted(sacc + ss),
        forall|i: int|
            0 <= i < ss.len() ==> (#[trigger] ss[i]).0 / 256 <= 9999 && ss[i].0 % 256 <= 99
                && ss[i].1.bytes().len() <= 9999 && ss[i].1.wf(),
    ensures
        spec_decode_req_fields(sub_entry_fields(ss) + tail, tacc, iacc, sacc)
            == spec_decode_req_fields(tail, tacc, iacc, sacc + ss),
    decreases ss.len(),
{
    reveal_with_fuel(spec_decode_req_fields, 2);
    if ss.len() == 0 {
        assert(sub_entry_fields(ss) + tail =~= tail);
        assert(sacc + ss =~= sacc);
    } else {
        let (k, p) = ss[0];
        let idx = (k / 256) as u16;
        let sidx = (k % 256) as u8;
        let rest = sub_entry_fields(ss.skip(1)) + tail;
        crate::tag::lemma_tag_wire_round_trip(Tag::IsoSubfield(idx, sidx));
        lemma_field_round_trip(Tag::IsoSubfield(idx, sidx), p.bytes(), rest);
        assert(sub_entry_fields(ss) + tail =~= field_bytes(Tag::IsoSubfield(idx, sidx), p.bytes())
            + rest);
        lemma_shape_of_bytes_round_trip(p);
        assert((idx * 256 + sidx) as u32 == k);
        assert forall|j: int| 0 <= j < sacc.len() implies (#[trigger] sacc[j]).0 < k by {
            assert((sacc + ss)[j] == sacc[j]);
            assert((sacc + ss)[sacc.len() as int] == ss[0]);
        }
        crate::map::lemma_entries_insert_append(sacc, k, p);
        assert(sacc.push(ss[0]) + ss.skip(1) =~= sacc + ss);
        assert(crate::map::entries_sorted(sacc.push(ss[0]) + ss.skip(1)));
        lemma_req_sub_decode(ss.skip(1), tail, tacc, iacc, sacc.push(ss[0]));
    }
}

/// A well-formed payload's wire bytes build back the same payload shape.
proof fn lemma_shape_of_bytes_round_trip(p: PayloadShape)
    requires
        p.wf(),
    ensures
        shape_of_bytes(p.bytes()) == p,
{
    match p {
        PayloadShape::Text(s) => {
            vstd::utf8::encode_utf8_valid_utf8(s);
            vstd::utf8::encode_utf8_decode_utf8(s);
        },
        PayloadShape::Raw(_) => {},
    }
}

/// Whether a request both encodes and decodes back to itself: it is
/// encodable, the maps are sorted, raw payloads hold no valid UTF-8, and
/// the auth-serno fits the ten-digit wire field.
pub open spec fn request_round_trippable(r: RequestShape) -> bool {
    saf_valid(r.saf) && source_valid(r.source) && mti_valid(r.mti) && request_encodable(r)
        && crate::map::entries_sorted(r.tags) && crate::map::entries_sorted(r.iso_fields)
        && crate::map::entries_sorted(r.iso_subfields) && r.auth_serno <= 9999999999 && (forall|
        i: int,
    |
        0 <= i < r.iso_fields.len() ==> (#[trigger] r.iso_fields[i]).1.wf()) && (forall|i: int|
        0 <= i < r.iso_subfields.len() ==> (#[trigger] r.iso_subfields[i]).1.wf())
}

/// Decoding an encoded request returns the same request: the round-trip
/// law for requests.
#[verifier::rlimit(100)]
pub proof fn lemma_request_round_trip(r: RequestShape)
    requires
        request_round_trippable(r),
    ensures
        spec_decode_request(spec_encode_request(r)) == Ok::<RequestShape, WireError>(r),
{
    let body = request_body_bytes(r);
    crate::frame::lemma_frame_round_trip(body, Seq::empty());
    assert(frame_bytes(body) + Seq::<u8>::empty() =~= frame_bytes(body));
    assert(spec_split_frame(spec_encode_request(r)) == Ok::<Seq<u8>, WireError>(body));

    assert(vstd::utf8::is_ascii_chars(r.saf));
    vstd::utf8::is_ascii_chars_encode_utf8(r.saf);
    assert forall|i: int| 0 <= i < r.source.len() implies '\0' <= #[trigger] r.source[i]
        && r.source[i] <= '\u{7f}' by {
        assert(r.source[i] == r.source[0]);
    }
    assert(vstd::utf8::is_ascii_chars(r.source));
    vstd::utf8::is_ascii_chars_encode_utf8(r.source);
    crate::validate::lemma_mti_bytes(r.mti);
    crate::frame::lemma_serno_bytes(r.auth_serno);

    assert(body[0] == r.saf[0] as u8);
    assert(body[0] == 0x59 || body[0] == 0x4e);
    assert(seq![body[0] as char] =~= r.saf);
    assert(body[1] == r.source[0] as u8);
    assert(body[1] < 0x80);
    assert(seq![body[1] as char] =~= r.source);
    assert(body.subrange(2, 6) =~= vstd::utf8::encode_utf8(r.mti));
    assert(Seq::new(4, |i: int| body[2 + i] as char) =~= r.mti) by {
        assert forall|i: int| 0 <= i < 4 implies body[2 + i] as char == r.mti[i] by {
            assert(body[2 + i] == body.subrange(2, 6)[i]);
            assert(Seq::new(
                vstd::utf8::encode_utf8(r.mti).len(),
                |j: int| vstd::utf8::encode_utf8(r.mti)[j] as char,
            )[i] == r.mti[i]);
        }
    }
    assert(body.subrange(6, 16) =~= serno_bytes(r.auth_serno));
    crate::frame::lemma_serno_round_trip(r.auth_serno);

    let fields = body.skip(16);
    assert(fields =~= tag_entry_fields(r.tags) + (iso_entry_fields(r.iso_fields) + (
    sub_entry_fields(r.iso_subfields) + Seq::<u8>::empty())));

    assert(Seq::<(u32, Seq<char>)>::empty() + r.tags =~= r.tags);
    lemma_req_tags_decode(
        r.tags,
        iso_entry_fields(r.iso_fields) + (sub_entry_fields(r.iso_subfields) + Seq::<u8>::empty()),
        Seq::empty(),
        Seq::empty(),
        Seq::empty(),
    );
    assert(Seq::<(u32, PayloadShape)>::empty() + r.iso_fields =~= r.iso_fields);
    lemma_req_iso_decode(
        r.iso_fields,
        sub_entry_fields(r.iso_subfields) + Seq::<u8>::empty(),
        r.tags,
        Seq::empty(),
        Seq::empty(),
    );
    assert(Seq::<(u32, PayloadShape)>::empty() + r.iso_subfields =~= r.iso_subfields);
    lemma_req_sub_decode(
        r.iso_subfields,
        Seq::empty(),
        r.tags,
        r.iso_fields,
        Seq::empty(),
    );
    assert(spec_decode_req_fields(Seq::empty(), r.tags, r.iso_fields, r.iso_subfields) == Ok::<
        _,
        WireError,
    >((r.tags, r.iso_fields, r.iso_subfields)));
    assert(spec_decode_req_fields(fields, Seq::empty(), Seq::empty(), Seq::empty()) == Ok::<
        _,
        WireError,
    >((r.tags, r.iso_fields, r.iso_subfields)));
}

impl SigmaRequest {
    /// Build a request from the entries of a JSON object. The `SAF`, `SRC`
    /// and `MTI` keys are required strings; `Serno` is an optional string
    /// or integer, with `fallback_serno` taking its place when absent;
    /// every other key must be a tag name and carries a string or integer
    /// value.
    #[verifier::loop_isolation(false)]
    #[verifier::rlimit(100)]
    pub fn from_json_entries(entries: Vec<(String, JsonVal)>, fallback_serno: u64) -> (r: Result<
        SigmaRequest,
        Error,
    >)
        ensures
            json_result_matches(kv_entries_view(entries@), fallback_serno, r),
    {
        let ghost s0 = kv_entries_view(entries@);
        let mut entries = entries;
        let saf_s = match remove_entry(&mut entries, "SAF") {
            None => {
                return Err(Error::MissingField("SAF".to_owned()));
            },
            Some(JsonVal::Str(s)) => s,
            Some(_) => {
                return Err(Error::incorrect_field_data("SAF", "String"));
            },
        };
        validate_saf(saf_s.as_str())?;
        let src_s = match remove_entry(&mut entries, "SRC") {
            None => {
                return Err(Error::MissingField("SRC".to_owned()));
            },
            Some(JsonVal::Str(s)) => s,
            Some(_) => {
                return Err(Error::incorrect_field_data("SRC", "String"));
            },
        };
        validate_source(src_s.as_str())?;
        let mti_s = match remove_entry(&mut entries, "MTI") {
            None => {
                return Err(Error::MissingField("MTI".to_owned()));
            },
            Some(JsonVal::Str(s)) => s,
            Some(_) => {
                return Err(Error::incorrect_field_data("MTI", "String"));
            },
        };
        validate_mti(mti_s.as_str())?;
        let auth_serno: u64 = match remove_entry(&mut entries, "Serno") {
            None => fallback_serno,
            Some(JsonVal::Str(s)) => match parse_dec_u64(s.as_str().as_bytes()) {
                Some(v) => v,
                None => {
                    return Err(Error::incorrect_field_data("Serno", "integer"));
                },
            },
            Some(JsonVal::UInt(u)) => u,
            Some(JsonVal::Other) => {
                return Err(Error::incorrect_field_data("Serno", "u64 or String with integer"));
            },
        };

        let mut req = match SigmaRequest::new(saf_s.as_str(), src_s.as_str(), mti_s.as_str(),
            auth_serno) {
            Ok(r) => r,
            Err(e) => {
                return Err(e);
            },
        };

        let ghost s4 = kv_entries_view(entries@);
        let n: usize = entries.len();
        let mut i: usize = 0;
        proof {
            assert(s4.skip(0) =~= s4);
        }
        while i < n
            invariant
                0 <= i <= n,
                n == entries@.len(),
                kv_entries_view(entries@) == s4,
                req.wf(),
                req@.saf == saf_s@,
                req@.source == src_s@,
                req@.mti == mti_s@,
                req@.auth_serno == auth_serno,
                spec_fill_fields(s4, Seq::empty(), Seq::empty(), Seq::empty())
                    == spec_fill_fields(
                    s4.skip(i as int),
                    req@.tags,
                    req@.iso_fields,
                    req@.iso_subfields,
                ),
            decreases n - i,
        {
            proof {
                assert(s4.skip(i as int)[0] == s4[i as int]);
                assert(s4[i as int] == (entries@[i as int].0@, entries@[i as int].1@));
                assert(s4.skip(i as int).skip(1) =~= s4.skip(i + 1));
            }
            let name = &entries[i].0;
            let tag = match Tag::from_str(name.as_str()) {
                Ok(t) => t,
                Err(e) => {
                    return Err(e);
                },
            };
            let content: String = match &entries[i].1 {
                JsonVal::Str(s) => s.clone(),
                JsonVal::UInt(u) => u64_to_dec_string(*u),
                JsonVal::Other => {
                    return Err(
                        Error::incorrect_field_data("field", "u64 or String with integer"),
                    );
                },
            };
            match tag {
                Tag::Regular(idx) => {
                    proof {
                        crate::map::lemma_entries_map_values_insert(
                            req.tags@,
                            idx as u32,
                            content,
                            |v: String| v@,
                        );
                    }
                    req.tags.insert(idx as u32, content);
                },
                Tag::Iso(idx) => {
                    let payload = IsoFieldData::Text(content);
                    proof {
                        crate::map::lemma_entries_map_values_insert(
                            req.iso_fields@,
                            idx as u32,
                            payload,
                            |v: IsoFieldData| v@,
                        );
                    }
                    req.iso_fields.insert(idx as u32, payload);
                },
                Tag::IsoSubfield(idx, sidx) => {
                    let key: u32 = idx as u32 * 256 + sidx as u32;
                    let payload = IsoFieldData::Text(content);
                    proof {
                        crate::map::lemma_entries_map_values_insert(
                            req.iso_subfields@,
                            key,
                            payload,
                            |v: IsoFieldData| v@,
                        );
                    }
                    req.iso_subfields.insert(key, payload);
                },
            }
            i = i + 1;
        }
        proof {
            assert(s4.skip(n as int) =~= Seq::<(Seq<char>, JsonShape)>::empty());
        }
        Ok(req)
    }

    /// Build a request from a JSON object value. A missing `Serno` key is
    /// filled from the random auth-serno source, so the result is then one
    /// of the requests that some fallback value yields.
    pub fn from_json_value(data: serde_json::Value) -> (r: Result<SigmaRequest, Error>)
        ensures
            json_object_entries(data) is None ==> (r matches Err(e) && e is IncorrectData),
            json_object_entries(data) matches Some(entries) ==> exists|fb: u64|
                #[trigger] json_result_matches(entries, fb, r),
    {
        let entries = match json_value_entries(&data) {
            Some(list) => list,
            None => {
                return Err(Error::IncorrectData("SigmaRequest JSON should be object".to_owned()));
            },
        };
        let ghost entries_view = kv_entries_view(entries@);
        let fb = gen_random_auth_serno();
        let r = SigmaRequest::from_json_entries(entries, fb);
        proof {
            assert(json_object_entries(data) == Some(entries_view));
            assert(json_result_matches(entries_view, fb, r));
            assert(json_result_matches(json_object_entries(data)->Some_0, fb, r));
            assert(exists|fb2: u64| #[trigger] json_result_matches(
                json_object_entries(data)->Some_0,
                fb2,
                r,
            ));
        }
        r
    }
}

/// Whether two text maps hold the same keys and the same characters.
fn text_maps_eq(a: &OrderedMap<String>, b: &OrderedMap<String>) -> (r: bool)
    ensures
        r == (text_entries_view(a@) == text_entries_view(b@)),
{
    let n: usize = a.len();
    if b.len() != n {
        proof {
            assert(text_entries_view(a@).len() != text_entries_view(b@).len());
        }
        return false;
    }
    let mut i: usize = 0;
    while i < n
        invariant
            0 <= i <= n,
            n == a@.len() == b@.len(),
            forall|j: int|
                0 <= j < i ==> #[trigger] text_entries_view(a@)[j] == text_entries_view(b@)[j],
        decreases n - i,
    {
        let ea = a.entry_at(i);
        let eb = b.entry_at(i);
        if ea.0 != eb.0 {
            proof {
                assert(text_entries_view(a@)[i as int].0 != text_entries_view(b@)[i as int].0);
            }
            return false;
        }
        if !crate::text::str_eq(ea.1.as_str(), eb.1.as_str()) {
            proof {
                assert(text_entries_view(a@)[i as int].1 != text_entries_view(b@)[i as int].1);
            }
            return false;
        }
        proof {
            assert(text_entries_view(a@)[i as int] == text_entries_view(b@)[i as int]);
        }
        i = i + 1;
    }
    proof {
        assert(text_entries_view(a@) =~= text_entries_view(b@));
    }
    true
}

/// Whether two payload maps hold the same keys and the same payloads.
fn payload_maps_eq(a: &OrderedMap<IsoFieldData>, b: &OrderedMap<IsoFieldData>) -> (r: bool)
    ensures
        r == (payload_entries_view(a@) == payload_entries_view(b@)),
{
    let n: usize = a.len();
    if b.len() != n {
        proof {
            assert(payload_entries_view(a@).len() != payload_entries_view(b@).len());
        }
        return false;
    }
    let mut i: usize = 0;
    while i < n
        invariant
            0 <= i <= n,
            n == a@.len() == b@.len(),
            forall|j: int|
                0 <= j < i ==> #[trigger] payload_entries_view(a@)[j] == payload_entries_view(
                    b@,
                )[j],
        decreases n - i,
    {
        let ea = a.entry_at(i);
        let eb = b.entry_at(i);
        if ea.0 != eb.0 {
            proof {
                assert(payload_entries_view(a@)[i as int].0 != payload_entries_view(
                    b@,
                )[i as int].0);
            }
            return false;
        }
        if !(ea.1 == eb.1) {
            proof {
                assert(payload_entries_view(a@)[i as int].1 != payload_entries_view(
                    b@,
                )[i as int].1);
            }
            return false;
        }
        proof {
            assert(payload_entries_view(a@)[i as int] == payload_entries_view(b@)[i as int]);
        }
        i = i + 1;
    }
    proof {
        assert(payload_entries_view(a@) =~= payload_entries_view(b@));
    }
    true
}

/// Two requests are equal when their shapes are: same headers, same
/// serno, and the same entries in every map.
impl vstd::std_specs::cmp::PartialEqSpecImpl for SigmaRequest {
    open spec fn obeys_eq_spec() -> bool {
        true
    }

    open spec fn eq_spec(&self, other: &SigmaRequest) -> bool {
        self@ == other@
    }
}

impl PartialEq for SigmaRequest {
    fn eq(&self, other: &SigmaRequest) -> (r: bool) {
        let r = crate::text::str_eq(self.saf.as_str(), other.saf.as_str())
            && crate::text::str_eq(self.source.as_str(), other.source.as_str())
            && crate::text::str_eq(self.mti.as_str(), other.mti.as_str()) && self.auth_serno
            == other.auth_serno && text_maps_eq(&self.tags, &other.tags) && payload_maps_eq(
            &self.iso_fields,
            &other.iso_fields,
        ) && payload_maps_eq(&self.iso_subfields, &other.iso_subfields);
        proof {
            if r {
                assert(self@ == other@);
            } else {
                assert(self@ != other@);
            }
        }
        r
    }
}


/// Any strict truncation of an encoded request fails to decode with
/// `Bounds`.
pub proof fn lemma_request_decode_truncation(r: RequestShape, n: int)
    requires
        request_encodable(r),
        0 <= n < spec_encode_request(r).len(),
    ensures
        spec_decode_request(spec_encode_request(r).take(n)) == Err::<RequestShape, WireError>(
            WireError::Bounds,
        ),
{
    let body = request_body_bytes(r);
    let f = spec_encode_request(r);
    assert(crate::digits::pow10(5) == 100000) by {
        reveal_with_fuel(crate::digits::pow10, 6);
    }
    crate::digits::lemma_dec_digits_value(body.len());
    crate::digits::lemma_dec_digits_len_le(body.len(), 5);
    crate::digits::lemma_zero_pad(crate::digits::dec_digits(body.len()), 5);
    assert(f.take(5) =~= crate::digits::dec_padded(body.len(), 5));
    crate::frame::lemma_frame_truncation(f, n);
}

/// Extending the regular-field group by one entry appends its field bytes.
proof fn lemma_tag_entry_fields_snoc(s: Seq<(u32, Seq<char>)>, i: int)
    requires
        0 <= i < s.len(),
    ensures
        tag_entry_fields(s.take(i + 1)) == tag_entry_fields(s.take(i)) + field_bytes(
            Tag::Regular(s[i].0 as u16),
            vstd::utf8::encode_utf8(s[i].1),
        ),
    decreases i,
{
    if i == 0 {
        assert(s.take(1).skip(1) =~= Seq::<(u32, Seq<char>)>::empty());
        assert(s.take(0) =~= Seq::<(u32, Seq<char>)>::empty());
        assert(s.take(1)[0] == s[0]);
        assert(tag_entry_fields(s.take(1)) =~= tag_entry_fields(s.take(0)) + field_bytes(
            Tag::Regular(s[0].0 as u16),
            vstd::utf8::encode_utf8(s[0].1),
        ));
    } else {
        lemma_tag_entry_fields_snoc(s.skip(1), i - 1);
        assert(s.take(i + 1).skip(1) =~= s.skip(1).take(i));
        assert(s.take(i).skip(1) =~= s.skip(1).take(i - 1));
        assert(s.skip(1)[i - 1] == s[i]);
        assert(s.take(i + 1)[0] == s[0]);
        assert(s.take(i)[0] == s[0]);
        assert(tag_entry_fields(s.take(i + 1)) =~= tag_entry_fields(s.take(i)) + field_bytes(
            Tag::Regular(s[i].0 as u16),
            vstd::utf8::encode_utf8(s[i].1),
        ));
    }
}

/// Extending the ISO field group by one entry appends its field bytes.
proof fn lemma_iso_entry_fields_snoc(s: Seq<(u32, PayloadShape)>, i: int)
    requires
        0 <= i < s.len(),
    ensures
        iso_entry_fields(s.take(i + 1)) == iso_entry_fields(s.take(i)) + field_bytes(
            Tag::Iso(s[i].0 as u16),
            s[i].1.bytes(),
        ),
    decreases i,
{
    if i == 0 {
        assert(s.take(1).skip(1) =~= Seq::<(u32, PayloadShape)>::empty());
        assert(s.take(0) =~= Seq::<(u32, PayloadShape)>::empty());
        assert(s.take(1)[0] == s[0]);
        assert(iso_entry_fields(s.take(1)) =~= iso_entry_fields(s.take(0)) + field_bytes(
            Tag::Iso(s[0].0 as u16),
            s[0].1.bytes(),
        ));
    } else {
        lemma_iso_entry_fields_snoc(s.skip(1), i - 1);
        assert(s.take(i + 1).skip(1) =~= s.skip(1).take(i));
        assert(s.take(i).skip(1) =~= s.skip(1).take(i - 1));
        assert(s.skip(1)[i - 1] == s[i]);
        assert(s.take(i + 1)[0] == s[0]);
        assert(s.take(i)[0] == s[0]);
        assert(iso_entry_fields(s.take(i + 1)) =~= iso_entry_fields(s.take(i)) + field_bytes(
            Tag::Iso(s[i].0 as u16),
            s[i].1.bytes(),
        ));
    }
}

/// Extending the ISO subfield group by one entry appends its field bytes.
proof fn lemma_sub_entry_fields_snoc(s: Seq<(u32, PayloadShape)>, i: int)
    requires
        0 <= i < s.len(),
    ensures
        sub_entry_fields(s.take(i + 1)) == sub_entry_fields(s.take(i)) + field_bytes(
            Tag::IsoSubfield((s[i].0 / 256) as u16, (s[i].0 % 256) as u8),
            s[i].1.bytes(),
        ),
    decreases i,
{
    if i == 0 {
        assert(s.take(1).skip(1) =~= Seq::<(u32, PayloadShape)>::empty());
        assert(s.take(0) =~= Seq::<(u32, PayloadShape)>::empty());
        assert(s.take(1)[0] == s[0]);
        assert(sub_entry_fields(s.take(1)) =~= sub_entry_fields(s.take(0)) + field_bytes(
            Tag::IsoSubfield((s[0].0 / 256) as u16, (s[0].0 % 256) as u8),
            s[0].1.bytes(),
        ));
    } else {
        lemma_sub_entry_fields_snoc(s.skip(1), i - 1);
        assert(s.take(i + 1).skip(1) =~= s.skip(1).take(i));
        assert(s.take(i).skip(1) =~= s.skip(1).take(i - 1));
        assert(s.skip(1)[i - 1] == s[i]);
        assert(s.take(i + 1)[0] == s[0]);
        assert(s.take(i)[0] == s[0]);
        assert(sub_entry_fields(s.take(i + 1)) =~= sub_entry_fields(s.take(i)) + field_bytes(
            Tag::IsoSubfield((s[i].0 / 256) as u16, (s[i].0 % 256) as u8),
            s[i].1.bytes(),
        ));
    }
}

} // verus!
