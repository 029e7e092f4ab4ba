//! Field payloads: either text (valid UTF-8) or raw bytes, with lossy text
//! views that never lose the underlying bytes.

use vstd::prelude::*;

use crate::text::{bytes_to_string_lossy, utf8_lossy, vec_to_string_utf8};

verus! {

/// Ghost shape of a payload: the characters of a text payload, or the
/// bytes of a raw one.
pub enum PayloadShape {
    Text(Seq<char>),
    Raw(Seq<u8>),
}

/// The payload a decoder builds from bytes: text when they are valid
/// UTF-8, raw otherwise.
pub open spec fn shape_of_bytes(b: Seq<u8>) -> PayloadShape {
    if vstd::utf8::valid_utf8(b) {
        PayloadShape::Text(vstd::utf8::decode_utf8(b))
    } else {
        PayloadShape::Raw(b)
    }
}

/// One ISO field payload: valid UTF-8 text, or arbitrary raw bytes.
#[derive(Debug, Clone)]
pub enum IsoFieldData {
    Text(String),
    Raw(Vec<u8>),
}

impl View for IsoFieldData {
    type V = PayloadShape;

    open spec fn view(&self) -> PayloadShape {
        match self {
            IsoFieldData::Text(s) => PayloadShape::Text(s@),
            IsoFieldData::Raw(v) => PayloadShape::Raw(v@),
        }
    }
}

impl PayloadShape {
    /// The bytes this payload stands for on the wire.
    pub open spec fn bytes(self) -> Seq<u8> {
        match self {
            PayloadShape::Text(s) => vstd::utf8::encode_utf8(s),
            PayloadShape::Raw(v) => v,
        }
    }

    /// Decoders only produce raw payloads for bytes that are not valid
    /// UTF-8; text is promoted to the text variant.
    pub open spec fn wf(self) -> bool {
        match self {
            PayloadShape::Text(_) => true,
            PayloadShape::Raw(v) => !vstd::utf8::valid_utf8(v),
        }
    }

    /// The characters of the payload's lossy text rendering.
    pub open spec fn lossy_chars(self) -> Seq<char> {
        match self {
            PayloadShape::Text(s) => s,
            PayloadShape::Raw(v) => utf8_lossy(v),
        }
    }
}

impl IsoFieldData {
    /// The payload bytes, verbatim.
    pub fn as_bytes(&self) -> (r: &[u8])
        ensures
            r@ == self@.bytes(),
    {
        match self {
            IsoFieldData::Text(s) => s.as_str().as_bytes(),
            IsoFieldData::Raw(v) => v.as_slice(),
        }
    }

    /// The payload as text, consuming it; bytes that are not valid UTF-8
    /// are replaced with the Unicode replacement character.
    pub fn to_string_lossy(self) -> (r: String)
        ensures
            r@ == self@.lossy_chars(),
    {
        match self {
            IsoFieldData::Text(s) => s,
            IsoFieldData::Raw(v) => match vec_to_string_utf8(v) {
                Ok(s) => s,
                Err(w) => bytes_to_string_lossy(w.as_slice()),
            },
        }
    }

    /// The payload as text, by reference, with the same lossy rendering.
    pub fn to_cow_str_lossy(&self) -> (r: String)
        ensures
            r@ == self@.lossy_chars(),
    {
        match self {
            IsoFieldData::Text(s) => s.clone(),
            IsoFieldData::Raw(v) => bytes_to_string_lossy(v.as_slice()),
        }
    }

    /// Build a payload from a `Bytes` value, promoting valid UTF-8 to
    /// text.
    pub fn from_bytes(data: bytes::Bytes) -> (r: Self)
        ensures
            r@ == shape_of_bytes(crate::bytebuf::bytes_view(data)),
            r@.wf(),
            r@.bytes() == crate::bytebuf::bytes_view(data),
    {
        let v = vstd::slice::slice_to_vec(crate::bytebuf::bytes_slice(&data));
        IsoFieldData::from_vec(v)
    }

    /// Build a payload from bytes, promoting valid UTF-8 to text.
    pub fn from_vec(data: Vec<u8>) -> (r: Self)
        ensures
            r@ == shape_of_bytes(data@),
            r@.wf(),
            r@.bytes() == data@,
    {
        match vec_to_string_utf8(data) {
            Ok(s) => {
                proof {
                    vstd::utf8::decode_utf8_encode_utf8(data@);
                }
                IsoFieldData::Text(s)
            },
            Err(w) => IsoFieldData::Raw(w),
        }
    }
}

impl From<String> for IsoFieldData {
    fn from(v: String) -> Self {
        IsoFieldData::Text(v)
    }
}

impl vstd::std_specs::convert::FromSpecImpl<String> for IsoFieldData {
    open spec fn obeys_from_spec() -> bool {
        true
    }

    open spec fn from_spec(v: String) -> Self {
        IsoFieldData::Text(v)
    }
}

impl From<Vec<u8>> for IsoFieldData {
    fn from(v: Vec<u8>) -> Self {
        IsoFieldData::Raw(v)
    }
}

impl vstd::std_specs::convert::FromSpecImpl<Vec<u8>> for IsoFieldData {
    open spec fn obeys_from_spec() -> bool {
        true
    }

    open spec fn from_spec(v: Vec<u8>) -> Self {
        IsoFieldData::Raw(v)
    }
}

/// Two payloads are equal when they have the same variant and the same
/// contents.
impl vstd::std_specs::cmp::PartialEqSpecImpl for IsoFieldData {
    open spec fn obeys_eq_spec() -> bool {
        true
    }

    open spec fn eq_spec(&self, other: &IsoFieldData) -> bool {
        match (self, other) {
            (IsoFieldData::Text(a), IsoFieldData::Text(b)) => a@ == b@,
            (IsoFieldData::Raw(a), IsoFieldData::Raw(b)) => a@ == b@,
            _ => false,
        }
    }
}

impl PartialEq for IsoFieldData {
    fn eq(&self, other: &IsoFieldData) -> (r: bool)
    {
        match (self, other) {
            (IsoFieldData::Text(a), IsoFieldData::Text(b)) => a.eq(b),
            (IsoFieldData::Raw(a), IsoFieldData::Raw(b)) => {
                crate::text::bytes_eq(a.as_slice(), b.as_slice())
            },
            _ => false,
        }
    }
}

} // verus!
