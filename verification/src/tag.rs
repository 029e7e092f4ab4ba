//! The tag taxonomy: Regular / Iso / IsoSubfield identifiers, their 4-byte
//! wire form and their textual form used as JSON keys.

use vstd::prelude::*;

use crate::bcd::{
    bcd_x2_byte, bcd_x2_valid, bcd_x2_value, bcd_x4_bytes, bcd_x4_valid, bcd_x4_value,
    decode_bcd_x2, decode_bcd_x4, encode_bcd_x2, encode_bcd_x4, lemma_bcd_x2_round_trip,
    lemma_bcd_x4_round_trip,
};
use crate::bytebuf::{bytes_slice, bytes_view};
use crate::digits::{
    all_dec_digits, dec_padded, dec_value, lemma_dec_value_bound, lemma_zero_pad, parse_dec_u64,
    pow10, push_dec_u64_padded,
};
use crate::error::Error;
use crate::text::{lemma_ascii_bytes_utf8, vec_to_string_utf8};
use vstd::string::StringSliceAdditionalSpecFns;

verus! {

/// A tag names one slot in a message: a regular field, an ISO field, or a
/// subfield of an ISO field.
#[derive(Debug, Clone, Copy, PartialEq, Eq, Structural)]
pub enum Tag {
    Regular(u16),
    Iso(u16),
    IsoSubfield(u16, u8),
}

/// How decoding a 4-byte wire tag can fail.
pub enum TagWireError {
    /// Fewer than 4 bytes.
    Short,
    /// A nibble of the index or subfield is not a decimal digit.
    Digits,
    /// The kind byte is not `T`, `I` or `S`.
    Kind,
}

impl Tag {
    /// Indices fit their BCD widths.
    pub open spec fn wf(self) -> bool {
        match self {
            Tag::Regular(i) => i <= 9999,
            Tag::Iso(i) => i <= 9999,
            Tag::IsoSubfield(i, si) => i <= 9999 && si <= 99,
        }
    }

    /// The 4-byte wire form: kind byte, BCD index pair, BCD subfield.
    pub open spec fn wire_bytes(self) -> Seq<u8>
        recommends
            self.wf(),
    {
        match self {
            Tag::Regular(i) => seq![0x54u8, bcd_x4_bytes(i).0, bcd_x4_bytes(i).1, 0u8],
            Tag::Iso(i) => seq![0x49u8, bcd_x4_bytes(i).0, bcd_x4_bytes(i).1, 0u8],
            Tag::IsoSubfield(i, si) => seq![
                0x53u8,
                bcd_x4_bytes(i).0,
                bcd_x4_bytes(i).1,
                bcd_x2_byte(si),
            ],
        }
    }

    /// What decoding the first four bytes of `s` yields. The subfield byte
    /// must be valid BCD for every kind, and is ignored for `T` and `I`.
    pub open spec fn spec_decode(s: Seq<u8>) -> Result<Tag, TagWireError> {
        if s.len() < 4 {
            Err(TagWireError::Short)
        } else if !bcd_x4_valid(s[1], s[2]) || !bcd_x2_valid(s[3]) {
            Err(TagWireError::Digits)
        } else if s[0] == 0x54 {
            Ok(Tag::Regular(bcd_x4_value(s[1], s[2])))
        } else if s[0] == 0x49 {
            Ok(Tag::Iso(bcd_x4_value(s[1], s[2])))
        } else if s[0] == 0x53 {
            Ok(Tag::IsoSubfield(bcd_x4_value(s[1], s[2]), bcd_x2_value(s[3])))
        } else {
            Err(TagWireError::Kind)
        }
    }

    /// The textual form: `T` + 4 digits, `i` + 3 digits, or `s` + 4 + 2
    /// digits (as UTF-8 bytes).
    pub open spec fn text_bytes(self) -> Seq<u8> {
        match self {
            Tag::Regular(i) => seq![0x54u8] + dec_padded(i as nat, 4),
            Tag::Iso(i) => seq![0x69u8] + dec_padded(i as nat, 3),
            Tag::IsoSubfield(i, si) => seq![0x73u8] + dec_padded(i as nat, 4) + dec_padded(
                si as nat,
                2,
            ),
        }
    }

    /// What parsing a textual tag name (as UTF-8 bytes) yields: the kind
    /// letter decides the exact length and the digits that must follow.
    pub open spec fn spec_from_text(s: Seq<u8>) -> Option<Tag> {
        if s.len() == 5 && (s[0] == 0x54 || s[0] == 0x74) && all_dec_digits(s.skip(1)) {
            Some(Tag::Regular(dec_value(s.skip(1)) as u16))
        } else if s.len() == 4 && (s[0] == 0x49 || s[0] == 0x69) && all_dec_digits(s.skip(1)) {
            Some(Tag::Iso(dec_value(s.skip(1)) as u16))
        } else if s.len() == 7 && (s[0] == 0x53 || s[0] == 0x73) && all_dec_digits(s.skip(1)) {
            Some(
                Tag::IsoSubfield(
                    dec_value(s.subrange(1, 5)) as u16,
                    dec_value(s.subrange(5, 7)) as u8,
                ),
            )
        } else {
            None
        }
    }

    /// Append the 4-byte wire form of this tag to `buf`. Fails with
    /// `Bounds`, leaving `buf` unchanged, when an index is out of range.
    pub fn encode_to_buf(&self, buf: &mut Vec<u8>) -> (r: Result<(), Error>)
        ensures
            r is Ok <==> self.wf(),
            r is Ok ==> final(buf)@ == old(buf)@ + self.wire_bytes(),
            r matches Err(e) ==> e is Bounds && final(buf)@ == old(buf)@,
    {
        match self {
            Tag::Regular(i) => {
                let b = encode_bcd_x4(*i)?;
                buf.push(0x54);
                buf.push(b[0]);
                buf.push(b[1]);
                buf.push(0);
                assert(buf@ =~= old(buf)@ + self.wire_bytes());
            },
            Tag::Iso(i) => {
                let b = encode_bcd_x4(*i)?;
                buf.push(0x49);
                buf.push(b[0]);
                buf.push(b[1]);
                buf.push(0);
                assert(buf@ =~= old(buf)@ + self.wire_bytes());
            },
            Tag::IsoSubfield(i, si) => {
                let b = encode_bcd_x4(*i)?;
                let sb = encode_bcd_x2(*si)?;
                buf.push(0x53);
                buf.push(b[0]);
                buf.push(b[1]);
                buf.push(sb);
                assert(buf@ =~= old(buf)@ + self.wire_bytes());
            },
        }
        Ok(())
    }

    /// Decode a tag from the first four bytes of a slice.
    pub fn decode_wire(data: &[u8]) -> (r: Result<Tag, Error>)
        ensures
            match Tag::spec_decode(data@) {
                Ok(t) => r matches Ok(rt) && rt == t,
                Err(TagWireError::Short) => r matches Err(e) && e is IncorrectTag,
                Err(TagWireError::Digits) => r matches Err(e) && e is Bounds,
                Err(TagWireError::Kind) => r matches Err(e) && e is IncorrectTag,
            },
    {
        if data.len() < 4 {
            return Err(Error::IncorrectTag("should be at least 4 bytes long".to_owned()));
        }
        let i = decode_bcd_x4(&[data[1], data[2]])?;
        let si = decode_bcd_x2(data[3])?;
        match data[0] {
            0x54 => Ok(Tag::Regular(i)),
            0x49 => Ok(Tag::Iso(i)),
            0x53 => Ok(Tag::IsoSubfield(i, si)),
            _ => Err(Error::IncorrectTag("unknown kind".to_owned())),
        }
    }

    /// Decode a tag from the first four bytes of a `Bytes` buffer.
    pub fn decode(data: bytes::Bytes) -> (r: Result<Tag, Error>)
        ensures
            match Tag::spec_decode(bytes_view(data)) {
                Ok(t) => r matches Ok(rt) && rt == t,
                Err(TagWireError::Short) => r matches Err(e) && e is IncorrectTag,
                Err(TagWireError::Digits) => r matches Err(e) && e is Bounds,
                Err(TagWireError::Kind) => r matches Err(e) && e is IncorrectTag,
            },
    {
        Tag::decode_wire(bytes_slice(&data))
    }

    /// Parse the textual form, case-insensitively on the kind letter.
    pub fn from_str(s: &str) -> (r: Result<Tag, Error>)
        ensures
            match Tag::spec_from_text(s.spec_bytes()) {
                Some(t) => r matches Ok(rt) && rt == t,
                None => r matches Err(e) && e is IncorrectTag,
            },
    {
        let b = s.as_bytes();
        if b.len() == 5 && (b[0] == 0x54 || b[0] == 0x74) {
            match parse_dec_u64(vstd::slice::slice_subrange(b, 1, 5)) {
                Some(v) => {
                    proof {
                        lemma_dec_value_bound(b@.skip(1));
                        assert(pow10(4) == 10000) by {
                            reveal_with_fuel(pow10, 5);
                        }
                        assert(b@.subrange(1, 5) =~= b@.skip(1));
                    }
                    Ok(Tag::Regular(v as u16))
                },
                None => {
                    proof {
                        if all_dec_digits(b@.skip(1)) {
                            assert(b@.subrange(1, 5) =~= b@.skip(1));
                            lemma_dec_value_bound(b@.subrange(1, 5));
                            assert(pow10(4) == 10000) by {
                                reveal_with_fuel(pow10, 5);
                            }
                        }
                    }
                    Err(Error::IncorrectTag("incorrect format for T".to_owned()))
                },
            }
        } else if b.len() == 4 && (b[0] == 0x49 || b[0] == 0x69) {
            match parse_dec_u64(vstd::slice::slice_subrange(b, 1, 4)) {
                Some(v) => {
                    proof {
                        lemma_dec_value_bound(b@.skip(1));
                        assert(pow10(3) == 1000) by {
                            reveal_with_fuel(pow10, 4);
                        }
                        assert(b@.subrange(1, 4) =~= b@.skip(1));
                    }
                    Ok(Tag::Iso(v as u16))
                },
                None => {
                    proof {
                        if all_dec_digits(b@.skip(1)) {
                            assert(b@.subrange(1, 4) =~= b@.skip(1));
                            lemma_dec_value_bound(b@.subrange(1, 4));
                            assert(pow10(3) == 1000) by {
                                reveal_with_fuel(pow10, 4);
                            }
                        }
                    }
                    Err(Error::IncorrectTag("incorrect format for i".to_owned()))
                },
            }
        } else if b.len() == 7 && (b[0] == 0x53 || b[0] == 0x73) {
            let iv = match parse_dec_u64(vstd::slice::slice_subrange(b, 1, 5)) {
                Some(v) => v,
                None => {
                    proof {
                        if all_dec_digits(b@.skip(1)) {
                            crate::digits::lemma_all_dec_digits_subrange(b@.skip(1), 0, 4);
                            assert(b@.skip(1).subrange(0, 4) =~= b@.subrange(1, 5));
                            lemma_dec_value_bound(b@.subrange(1, 5));
                            assert(pow10(4) == 10000) by {
                                reveal_with_fuel(pow10, 5);
                            }
                        }
                    }
                    return Err(Error::IncorrectTag("incorrect format for S".to_owned()));
                },
            };
            let sv = match parse_dec_u64(vstd::slice::slice_subrange(b, 5, 7)) {
                Some(v) => v,
                None => {
                    proof {
                        if all_dec_digits(b@.skip(1)) {
                            crate::digits::lemma_all_dec_digits_subrange(b@.skip(1), 4, 6);
                            assert(b@.skip(1).subrange(4, 6) =~= b@.subrange(5, 7));
                            lemma_dec_value_bound(b@.subrange(5, 7));
                            assert(pow10(2) == 100) by {
                                reveal_with_fuel(pow10, 3);
                            }
                        }
                    }
                    return Err(Error::IncorrectTag("incorrect format for S".to_owned()));
                },
            };
            proof {
                lemma_dec_value_bound(b@.subrange(1, 5));
                lemma_dec_value_bound(b@.subrange(5, 7));
                assert(pow10(4) == 10000 && pow10(2) == 100) by {
                    reveal_with_fuel(pow10, 5);
                }
                assert(b@.skip(1) =~= b@.subrange(1, 5) + b@.subrange(5, 7));
                assert forall|j: int| 0 <= j < b@.skip(1).len() implies crate::digits::is_dec_digit(
                    #[trigger] b@.skip(1)[j],
                ) by {
                    if j < 4 {
                        assert(b@.skip(1)[j] == b@.subrange(1, 5)[j]);
                    } else {
                        assert(b@.skip(1)[j] == b@.subrange(5, 7)[j - 4]);
                    }
                }
            }
            Ok(Tag::IsoSubfield(iv as u16, sv as u8))
        } else {
            Err(Error::IncorrectTag("unrecognized tag name".to_owned()))
        }
    }

    /// The textual form: `T%04d`, `i%03d` or `s%04d%02d`.
    pub fn to_string(&self) -> (r: String)
        ensures
            vstd::utf8::encode_utf8(r@) == self.text_bytes(),
            r@ == vstd::utf8::decode_utf8(self.text_bytes()),
    {
        let mut v: Vec<u8> = Vec::new();
        match self {
            Tag::Regular(i) => {
                v.push(0x54);
                push_dec_u64_padded(*i as u64, 4, &mut v);
            },
            Tag::Iso(i) => {
                v.push(0x69);
                push_dec_u64_padded(*i as u64, 3, &mut v);
            },
            Tag::IsoSubfield(i, si) => {
                v.push(0x73);
                push_dec_u64_padded(*i as u64, 4, &mut v);
                push_dec_u64_padded(*si as u64, 2, &mut v);
            },
        }
        proof {
            assert(v@ =~= self.text_bytes());
            crate::digits::lemma_dec_digits_value(tag_index_nat(*self));
            crate::digits::lemma_dec_digits_value(tag_sub_nat(*self));
            lemma_zero_pad(crate::digits::dec_digits(tag_index_nat(*self)), 4);
            lemma_zero_pad(crate::digits::dec_digits(tag_index_nat(*self)), 3);
            lemma_zero_pad(crate::digits::dec_digits(tag_sub_nat(*self)), 2);
            assert forall|j: int| 0 <= j < v@.len() implies #[trigger] v@[j] < 0x80 by {
                if j >= 1 {
                    tag_text_digit_bytes(*self, j);
                }
            }
            lemma_ascii_bytes_utf8(v@);
        }
        match vec_to_string_utf8(v) {
            Ok(s) => {
                proof {
                    vstd::utf8::decode_utf8_encode_utf8(self.text_bytes());
                }
                s
            },
            Err(_) => String::new(),
        }
    }
}

/// The index of a tag, as a natural number.
pub open spec fn tag_index_nat(t: Tag) -> nat {
    match t {
        Tag::Regular(i) => i as nat,
        Tag::Iso(i) => i as nat,
        Tag::IsoSubfield(i, _) => i as nat,
    }
}

/// The subfield index of a tag, as a natural number (zero for tags without
/// one).
pub open spec fn tag_sub_nat(t: Tag) -> nat {
    match t {
        Tag::IsoSubfield(_, si) => si as nat,
        _ => 0,
    }
}

/// Every byte after the kind letter of a textual tag is a decimal digit.
proof fn tag_text_digit_bytes(t: Tag, j: int)
    requires
        1 <= j < t.text_bytes().len(),
    ensures
        crate::digits::is_dec_digit(t.text_bytes()[j]),
{
    crate::digits::lemma_dec_digits_value(tag_index_nat(t));
    crate::digits::lemma_dec_digits_value(tag_sub_nat(t));
    lemma_zero_pad(crate::digits::dec_digits(tag_index_nat(t)), 4);
    lemma_zero_pad(crate::digits::dec_digits(tag_index_nat(t)), 3);
    lemma_zero_pad(crate::digits::dec_digits(tag_sub_nat(t)), 2);
    match t {
        Tag::Regular(i) => {
            assert(t.text_bytes()[j] == dec_padded(i as nat, 4)[j - 1]);
        },
        Tag::Iso(i) => {
            assert(t.text_bytes()[j] == dec_padded(i as nat, 3)[j - 1]);
        },
        Tag::IsoSubfield(i, si) => {
            if j - 1 < dec_padded(i as nat, 4).len() {
                assert(t.text_bytes()[j] == dec_padded(i as nat, 4)[j - 1]);
            } else {
                assert(t.text_bytes()[j] == dec_padded(si as nat, 2)[j - 1 - dec_padded(
                    i as nat,
                    4,
                ).len()]);
            }
        },
    }
}

/// Decoding the wire form of a well-formed tag returns the tag; the
/// subfield byte of `T` and `I` tags reads back as zero.
pub proof fn lemma_tag_wire_round_trip(t: Tag)
    requires
        t.wf(),
    ensures
        t.wire_bytes().len() == 4,
        Tag::spec_decode(t.wire_bytes()) == Ok::<Tag, TagWireError>(t),
{
    match t {
        Tag::Regular(i) => {
            lemma_bcd_x4_round_trip(i);
            lemma_bcd_x2_round_trip(0);
        },
        Tag::Iso(i) => {
            lemma_bcd_x4_round_trip(i);
            lemma_bcd_x2_round_trip(0);
        },
        Tag::IsoSubfield(i, si) => {
            lemma_bcd_x4_round_trip(i);
            lemma_bcd_x2_round_trip(si);
        },
    }
}

/// The textual form of the tag parses back to the tag. An ISO tag needs an
/// index of at most three digits: its textual form holds only three.
pub open spec fn tag_text_invertible(t: Tag) -> bool {
    match t {
        Tag::Regular(i) => i <= 9999,
        Tag::Iso(i) => i <= 999,
        Tag::IsoSubfield(i, si) => i <= 9999 && si <= 99,
    }
}

/// Parsing the textual form of a tag returns the tag.
pub proof fn lemma_tag_text_round_trip(t: Tag)
    requires
        tag_text_invertible(t),
    ensures
        Tag::spec_from_text(t.text_bytes()) == Some(t),
{
    crate::digits::lemma_dec_digits_value(tag_index_nat(t));
    crate::digits::lemma_dec_digits_value(tag_sub_nat(t));
    match t {
        Tag::Regular(i) => {
            assert(pow10(4) == 10000) by {
                reveal_with_fuel(pow10, 5);
            }
            crate::digits::lemma_dec_digits_len_le(i as nat, 4);
            lemma_zero_pad(crate::digits::dec_digits(i as nat), 4);
            let s = t.text_bytes();
            assert(s.skip(1) =~= dec_padded(i as nat, 4));
            assert(s.len() == 5);
        },
        Tag::Iso(i) => {
            assert(pow10(3) == 1000) by {
                reveal_with_fuel(pow10, 4);
            }
            crate::digits::lemma_dec_digits_len_le(i as nat, 3);
            lemma_zero_pad(crate::digits::dec_digits(i as nat), 3);
            let s = t.text_bytes();
            assert(s.skip(1) =~= dec_padded(i as nat, 3));
            assert(s.len() == 4);
        },
        Tag::IsoSubfield(i, si) => {
            assert(pow10(4) == 10000 && pow10(2) == 100) by {
                reveal_with_fuel(pow10, 5);
            }
            crate::digits::lemma_dec_digits_len_le(i as nat, 4);
            crate::digits::lemma_dec_digits_len_le(si as nat, 2);
            lemma_zero_pad(crate::digits::dec_digits(i as nat), 4);
            lemma_zero_pad(crate::digits::dec_digits(si as nat), 2);
            let s = t.text_bytes();
            assert(s.subrange(1, 5) =~= dec_padded(i as nat, 4));
            assert(s.subrange(5, 7) =~= dec_padded(si as nat, 2));
            assert(s.len() == 7);
            assert forall|j: int| 0 <= j < s.skip(1).len() implies crate::digits::is_dec_digit(
                #[trigger] s.skip(1)[j],
            ) by {
                if j < 4 {
                    assert(s.skip(1)[j] == s.subrange(1, 5)[j]);
                } else {
                    assert(s.skip(1)[j] == s.subrange(5, 7)[j - 4]);
                }
            }
        },
    }
}

} // verus!
