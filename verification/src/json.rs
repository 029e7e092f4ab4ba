//! The JSON adapter: populating a request from a JSON object, and
//! rendering a response as JSON text.

use vstd::prelude::*;

use crate::error::Error;
use crate::map::entries_insert;
use crate::payload::PayloadShape;
use crate::request::{RequestShape, SigmaRequest};
use crate::tag::Tag;
use crate::text::{str_eq, string_push_char};
use crate::validate::{mti_valid, saf_valid, source_valid};
use rand::Rng;
use vstd::string::StrSliceExecFns;
use vstd::string::StringExecFns;

verus! {

/// Ghost shape of a JSON value as the adapter reads it.
pub enum JsonShape {
    Str(Seq<char>),
    UInt(u64),
    Other,
}

/// A JSON value as the adapter reads it: a string, an unsigned integer,
/// or anything else (which every consumer rejects).
#[derive(Debug, Clone)]
pub enum JsonVal {
    Str(String),
    UInt(u64),
    Other,
}

impl View for JsonVal {
    type V = JsonShape;

    open spec fn view(&self) -> JsonShape {
        match self {
            JsonVal::Str(s) => JsonShape::Str(s@),
            JsonVal::UInt(u) => JsonShape::UInt(*u),
            JsonVal::Other => JsonShape::Other,
        }
    }
}

/// The shape of each key and value.
pub open spec fn kv_entries_view(s: Seq<(String, JsonVal)>) -> Seq<(Seq<char>, JsonShape)> {
    Seq::new(s.len(), |i: int| (s[i].0@, s[i].1@))
}

#[verifier::external_type_specification]
#[verifier::external_body]
pub struct ExValue(serde_json::Value);

/// The top-level entries of a JSON object value, in its iteration order,
/// each value classified as string, unsigned integer or other; nothing
/// when the value is not an object.
pub uninterp spec fn json_object_entries(v: serde_json::Value) -> Option<
    Seq<(Seq<char>, JsonShape)>,
>;

/// Relies on `serde_json::Value::as_object`, `Value::as_str` and
/// `Value::as_u64`: lists the object's entries in iteration order, telling
/// strings and unsigned integers apart from everything else.
#[verifier::external_body]
pub(crate) fn json_value_entries(v: &serde_json::Value) -> (r: Option<Vec<(String, JsonVal)>>)
    ensures
        match r {
            Some(list) => json_object_entries(*v) == Some(kv_entries_view(list@)),
            None => json_object_entries(*v) is None,
        },
{
    let obj = v.as_object()?;
    let mut out: Vec<(String, JsonVal)> = Vec::new();
    for (k, x) in obj.iter() {
        let val = if let Some(s) = x.as_str() {
            JsonVal::Str(s.to_owned())
        } else if let Some(u) = x.as_u64() {
            JsonVal::UInt(u)
        } else {
            JsonVal::Other
        };
        out.push((k.clone(), val));
    }
    Some(out)
}

/// Relies on `rand::thread_rng` and `rand::Rng::gen`: an arbitrary `u64`
/// drawn from the thread-local generator.
#[verifier::external_body]
pub fn gen_random_auth_serno() -> u64 {
    let mut rng = rand::thread_rng();
    rng.gen()
}

/// How building a request from JSON can fail.
pub enum JsonError {
    /// A required header key was absent.
    Missing,
    /// A value had the wrong shape.
    FieldData,
    /// A key was not a tag name.
    Tag,
}

/// What removing the first entry under `key` yields: the value, if any,
/// and the remaining entries.
pub open spec fn spec_remove_entry(s: Seq<(Seq<char>, JsonShape)>, key: Seq<char>) -> (
    Option<JsonShape>,
    Seq<(Seq<char>, JsonShape)>,
)
    decreases s.len(),
{
    if s.len() == 0 {
        (None, s)
    } else if s[0].0 == key {
        (Some(s[0].1), s.skip(1))
    } else {
        let (found, rest) = spec_remove_entry(s.skip(1), key);
        (found, seq![s[0]] + rest)
    }
}

/// What one header value must be: a string that its validator accepts.
pub open spec fn spec_header_str(v: Option<JsonShape>, valid: spec_fn(Seq<char>) -> bool) -> Result<
    Seq<char>,
    JsonError,
> {
    match v {
        None => Err(JsonError::Missing),
        Some(JsonShape::Str(s)) => if valid(s) {
            Ok(s)
        } else {
            Err(JsonError::FieldData)
        },
        Some(_) => Err(JsonError::FieldData),
    }
}

/// What the remaining entries contribute: each key parses as a tag name,
/// each value renders as text, and the entry is routed into the map its
/// tag kind names.
pub open spec fn spec_fill_fields(
    s: Seq<(Seq<char>, JsonShape)>,
    tags: Seq<(u32, Seq<char>)>,
    iso: Seq<(u32, PayloadShape)>,
    sub: Seq<(u32, PayloadShape)>,
) -> Result<(Seq<(u32, Seq<char>)>, Seq<(u32, PayloadShape)>, Seq<(u32, PayloadShape)>), JsonError>
    decreases s.len(),
{
    if s.len() == 0 {
        Ok((tags, iso, sub))
    } else {
        match Tag::spec_from_text(vstd::utf8::encode_utf8(s[0].0)) {
            None => Err(JsonError::Tag),
            Some(t) => {
                let content = match s[0].1 {
                    JsonShape::Str(cs) => Some(cs),
                    JsonShape::UInt(u) => Some(dec_chars(u as nat)),
                    JsonShape::Other => None,
                };
                match content {
                    None => Err(JsonError::FieldData),
                    Some(cs) => match t {
                        Tag::Regular(i) => spec_fill_fields(
                            s.skip(1),
                            entries_insert(tags, i as u32, cs),
                            iso,
                            sub,
                        ),
                        Tag::Iso(i) => spec_fill_fields(
                            s.skip(1),
                            tags,
                            entries_insert(iso, i as u32, PayloadShape::Text(cs)),
                            sub,
                        ),
                        Tag::IsoSubfield(i, si) => spec_fill_fields(
                            s.skip(1),
                            tags,
                            iso,
                            entries_insert(sub, (i * 256 + si) as u32, PayloadShape::Text(cs)),
                        ),
                    },
                }
            },
        }
    }
}

/// What building a request from the JSON object's entries yields. The
/// three header keys are taken out and validated in order, then `Serno`
/// (drawn from `fallback_serno` when absent), then every remaining key is
/// routed by its tag name.
pub open spec fn spec_from_json_entries(
    s: Seq<(Seq<char>, JsonShape)>,
    fallback_serno: u64,
) -> Result<RequestShape, JsonError> {
    let (saf_v, s1) = spec_remove_entry(s, "SAF"@);
    match spec_header_str(saf_v, |x: Seq<char>| saf_valid(x)) {
        Err(e) => Err(e),
        Ok(saf) => {
            let (src_v, s2) = spec_remove_entry(s1, "SRC"@);
            match spec_header_str(src_v, |x: Seq<char>| source_valid(x)) {
                Err(e) => Err(e),
                Ok(source) => {
                    let (mti_v, s3) = spec_remove_entry(s2, "MTI"@);
                    match spec_header_str(mti_v, |x: Seq<char>| mti_valid(x)) {
                        Err(e) => Err(e),
                        Ok(mti) => {
                            let (serno_v, s4) = spec_remove_entry(s3, "Serno"@);
                            let serno: Result<u64, JsonError> = match serno_v {
                                None => Ok(fallback_serno),
                                Some(JsonShape::Str(cs)) => {
                                    let b = vstd::utf8::encode_utf8(cs);
                                    if b.len() > 0 && crate::digits::all_dec_digits(b)
                                        && crate::digits::dec_value(b) <= u64::MAX {
                                        Ok(crate::digits::dec_value(b) as u64)
                                    } else {
                                        Err(JsonError::FieldData)
                                    }
                                },
                                Some(JsonShape::UInt(u)) => Ok(u),
                                Some(JsonShape::Other) => Err(JsonError::FieldData),
                            };
                            match serno {
                                Err(e) => Err(e),
                                Ok(auth_serno) => match spec_fill_fields(
                                    s4,
                                    Seq::empty(),
                                    Seq::empty(),
                                    Seq::empty(),
                                ) {
                                    Err(e) => Err(e),
                                    Ok((tags, iso, sub)) => Ok(
                                        RequestShape {
                                            saf,
                                            source,
                                            mti,
                                            auth_serno,
                                            tags,
                                            iso_fields: iso,
                                            iso_subfields: sub,
                                        },
                                    ),
                                },
                            }
                        },
                    }
                },
            }
        },
    }
}

/// Whether the request built from `entries` with `fallback_serno` matches
/// `r`: the same request on success, the matching error kind on failure.
pub open spec fn json_result_matches(
    entries: Seq<(Seq<char>, JsonShape)>,
    fallback_serno: u64,
    r: Result<SigmaRequest, Error>,
) -> bool {
    match spec_from_json_entries(entries, fallback_serno) {
        Ok(shape) => r matches Ok(req) && req@ == shape && req.wf(),
        Err(JsonError::Missing) => r matches Err(e) && e is MissingField,
        Err(JsonError::FieldData) => r matches Err(e) && e is IncorrectFieldData,
        Err(JsonError::Tag) => r matches Err(e) && e is IncorrectTag,
    }
}

/// Remove the first entry stored under `key`, returning its value.
#[verifier::loop_isolation(false)]
pub(crate) fn remove_entry(entries: &mut Vec<(String, JsonVal)>, key: &str) -> (r: Option<JsonVal>)
    ensures
        ({
            let (found, rest) = spec_remove_entry(kv_entries_view(old(entries)@), key@);
            &&& kv_entries_view(final(entries)@) == rest
            &&& match r {
                Some(v) => found == Some(v@),
                None => found is None,
            }
        }),
{
    let ghost s0 = kv_entries_view(entries@);
    proof {
        assert(s0 == kv_entries_view(old(entries)@));
    }
    let n: usize = entries.len();
    let mut j: usize = 0;
    while j < n
        invariant
            0 <= j <= n,
            n == entries@.len(),
            entries@.len() == s0.len(),
            kv_entries_view(entries@) == s0,
            forall|p: int| 0 <= p < j ==> (#[trigger] s0[p]).0 != key@,
        decreases n - j,
    {
        if str_eq(entries[j].0.as_str(), key) {
            let ghost pre = entries@;
            proof {
                assert(kv_entries_view(pre)[j as int] == (pre[j as int].0@, pre[j as int].1@));
                assert(s0[j as int].0 == key@);
                lemma_spec_remove_entry_at(s0, key@, j as int);
            }
            let (_, v) = entries.remove(j);
            proof {
                assert(v@ == kv_entries_view(pre)[j as int].1);
                assert(v@ == s0[j as int].1);
                assert forall|p: int| 0 <= p < entries@.len() implies #[trigger] kv_entries_view(
                    entries@,
                )[p] == (s0.take(j as int) + s0.skip(j + 1))[p] by {
                    if p < j {
                        assert(entries@[p] == pre[p]);
                        assert(kv_entries_view(pre)[p] == s0[p]);
                    } else {
                        assert(entries@[p] == pre[p + 1]);
                        assert(kv_entries_view(pre)[p + 1] == s0[p + 1]);
                    }
                }
                assert(kv_entries_view(entries@) =~= s0.take(j as int) + s0.skip(j + 1));
            }
            return Some(v);
        }
        proof {
            assert(s0[j as int].0 == entries@[j as int].0@);
        }
        j = j + 1;
    }
    proof {
        lemma_spec_remove_entry_none(s0, key@);
    }
    None
}

/// Where the first `j` keys differ from `key` and the key at `j` matches,
/// removal takes out entry `j`.
proof fn lemma_spec_remove_entry_at(s: Seq<(Seq<char>, JsonShape)>, key: Seq<char>, j: int)
    requires
        0 <= j < s.len(),
        forall|p: int| 0 <= p < j ==> (#[trigger] s[p]).0 != key,
        s[j].0 == key,
    ensures
        spec_remove_entry(s, key) == (Some(s[j].1), s.take(j) + s.skip(j + 1)),
    decreases j,
{
    if j == 0 {
        assert(s.take(0) + s.skip(1) =~= s.skip(1));
    } else {
        let t = s.skip(1);
        assert(forall|p: int| 0 <= p < j - 1 ==> (#[trigger] t[p]).0 != key);
        assert(t[j - 1].0 == key);
        lemma_spec_remove_entry_at(t, key, j - 1);
        assert(t.take(j - 1) =~= s.take(j).skip(1));
        assert(t.skip(j) =~= s.skip(j + 1));
        assert(seq![s[0]] + (t.take(j - 1) + t.skip(j)) =~= s.take(j) + s.skip(j + 1));
    }
}

/// Where no key matches, removal finds nothing and keeps the entries.
proof fn lemma_spec_remove_entry_none(s: Seq<(Seq<char>, JsonShape)>, key: Seq<char>)
    requires
        forall|p: int| 0 <= p < s.len() ==> (#[trigger] s[p]).0 != key,
    ensures
        spec_remove_entry(s, key) == (None::<JsonShape>, s),
    decreases s.len(),
{
    if s.len() > 0 {
        let t = s.skip(1);
        lemma_spec_remove_entry_none(t, key);
        assert(seq![s[0]] + t =~= s);
    }
}

/// The decimal digit `d` as a character.
pub open spec fn digit_char(d: nat) -> char {
    if d == 0 {
        '0'
    } else if d == 1 {
        '1'
    } else if d == 2 {
        '2'
    } else if d == 3 {
        '3'
    } else if d == 4 {
        '4'
    } else if d == 5 {
        '5'
    } else if d == 6 {
        '6'
    } else if d == 7 {
        '7'
    } else if d == 8 {
        '8'
    } else {
        '9'
    }
}

/// Canonical decimal rendering of `v` as characters.
pub open spec fn dec_chars(v: nat) -> Seq<char>
    decreases v,
{
    if v < 10 {
        seq![digit_char(v)]
    } else {
        dec_chars(v / 10).push(digit_char(v % 10))
    }
}

/// The decimal digit `d` as an executable character.
fn digit_char_of(d: u64) -> (c: char)
    requires
        d <= 9,
    ensures
        c == digit_char(d as nat),
{
    if d == 0 {
        '0'
    } else if d == 1 {
        '1'
    } else if d == 2 {
        '2'
    } else if d == 3 {
        '3'
    } else if d == 4 {
        '4'
    } else if d == 5 {
        '5'
    } else if d == 6 {
        '6'
    } else if d == 7 {
        '7'
    } else if d == 8 {
        '8'
    } else {
        '9'
    }
}

/// Append the decimal rendering of `v` to `out`.
fn push_dec_chars(v: u64, out: &mut String)
    ensures
        final(out)@ == old(out)@ + dec_chars(v as nat),
    decreases v,
{
    if v < 10 {
        string_push_char(out, digit_char_of(v));
        assert(out@ =~= old(out)@ + dec_chars(v as nat));
    } else {
        push_dec_chars(v / 10, out);
        string_push_char(out, digit_char_of(v % 10));
        assert(out@ =~= old(out)@ + dec_chars(v as nat));
    }
}

/// The decimal rendering of `v` as a fresh string.
pub fn u64_to_dec_string(v: u64) -> (r: String)
    ensures
        r@ == dec_chars(v as nat),
{
    let mut s = String::new();
    push_dec_chars(v, &mut s);
    proof {
        assert(s@ =~= dec_chars(v as nat));
    }
    s
}


/// The hexadecimal digit `d` as a lowercase character.
pub open spec fn hex_char(d: nat) -> char {
    if d == 0 {
        '0'
    } else if d == 1 {
        '1'
    } else if d == 2 {
        '2'
    } else if d == 3 {
        '3'
    } else if d == 4 {
        '4'
    } else if d == 5 {
        '5'
    } else if d == 6 {
        '6'
    } else if d == 7 {
        '7'
    } else if d == 8 {
        '8'
    } else if d == 9 {
        '9'
    } else if d == 10 {
        'a'
    } else if d == 11 {
        'b'
    } else if d == 12 {
        'c'
    } else if d == 13 {
        'd'
    } else if d == 14 {
        'e'
    } else {
        'f'
    }
}

/// The JSON escape of one character: quotes, backslashes and control
/// characters are escaped, everything else stands for itself.
pub open spec fn json_escape_char(c: char) -> Seq<char> {
    if c == '"' {
        seq!['\\', '"']
    } else if c == '\\' {
        seq!['\\', '\\']
    } else if c == '\u{8}' {
        seq!['\\', 'b']
    } else if c == '\u{c}' {
        seq!['\\', 'f']
    } else if c == '\n' {
        seq!['\\', 'n']
    } else if c == '\r' {
        seq!['\\', 'r']
    } else if c == '\t' {
        seq!['\\', 't']
    } else if (c as u32) < 0x20 {
        seq!['\\', 'u', '0', '0', hex_char((c as u32 / 16) as nat), hex_char((c as u32 % 16) as nat)]
    } else {
        seq![c]
    }
}

/// The JSON escape of a string: each character's escape, concatenated.
pub open spec fn json_escape(s: Seq<char>) -> Seq<char>
    decreases s.len(),
{
    if s.len() == 0 {
        Seq::empty()
    } else {
        json_escape_char(s[0]) + json_escape(s.skip(1))
    }
}

/// Escaping one more character appends its escape.
proof fn lemma_json_escape_snoc(s: Seq<char>, i: int)
    requires
        0 <= i < s.len(),
    ensures
        json_escape(s.take(i + 1)) == json_escape(s.take(i)) + json_escape_char(s[i]),
    decreases i,
{
    if i == 0 {
        assert(s.take(1).skip(1) =~= Seq::<char>::empty());
        assert(s.take(0) =~= Seq::<char>::empty());
        assert(s.take(1)[0] == s[0]);
        assert(json_escape(s.take(1)) =~= json_escape(s.take(0)) + json_escape_char(s[0]));
    } else {
        lemma_json_escape_snoc(s.skip(1), i - 1);
        assert(s.take(i + 1).skip(1) =~= s.skip(1).take(i));
        assert(s.take(i).skip(1) =~= s.skip(1).take(i - 1));
        assert(s.skip(1)[i - 1] == s[i]);
        assert(s.take(i + 1)[0] == s[0]);
        assert(s.take(i)[0] == s[0]);
        assert(json_escape(s.take(i + 1)) =~= json_escape(s.take(i)) + json_escape_char(s[i]));
    }
}

/// The hexadecimal digit `d` as an executable character.
fn hex_char_of(d: u32) -> (c: char)
    requires
        d <= 15,
    ensures
        c == hex_char(d as nat),
{
    if d == 0 {
        '0'
    } else if d == 1 {
        '1'
    } else if d == 2 {
        '2'
    } else if d == 3 {
        '3'
    } else if d == 4 {
        '4'
    } else if d == 5 {
        '5'
    } else if d == 6 {
        '6'
    } else if d == 7 {
        '7'
    } else if d == 8 {
        '8'
    } else if d == 9 {
        '9'
    } else if d == 10 {
        'a'
    } else if d == 11 {
        'b'
    } else if d == 12 {
        'c'
    } else if d == 13 {
        'd'
    } else if d == 14 {
        'e'
    } else {
        'f'
    }
}

/// Append the JSON escape of `s` to `out`.
pub fn push_json_escaped(s: &str, out: &mut String)
    ensures
        final(out)@ == old(out)@ + json_escape(s@),
{
    let n: usize = s.unicode_len();
    proof {
        assert(json_escape(s@.take(0)) =~= Seq::<char>::empty());
        assert(out@ =~= old(out)@ + json_escape(s@.take(0)));
    }
    let mut i: usize = 0;
    while i < n
        invariant
            0 <= i <= n,
            n == s@.len(),
            out@ == old(out)@ + json_escape(s@.take(i as int)),
        decreases n - i,
    {
        let c = s.get_char(i);
        if c == '"' {
            out.append("\\\"");
            proof {
                reveal_strlit("\\\"");
            }
        } else if c == '\\' {
            out.append("\\\\");
            proof {
                reveal_strlit("\\\\");
            }
        } else if c == '\u{8}' {
            out.append("\\b");
            proof {
                reveal_strlit("\\b");
            }
        } else if c == '\u{c}' {
            out.append("\\f");
            proof {
                reveal_strlit("\\f");
            }
        } else if c == '\n' {
            out.append("\\n");
            proof {
                reveal_strlit("\\n");
            }
        } else if c == '\r' {
            out.append("\\r");
            proof {
                reveal_strlit("\\r");
            }
        } else if c == '\t' {
            out.append("\\t");
            proof {
                reveal_strlit("\\t");
            }
        } else if (c as u32) < 0x20 {
            out.append("\\u00");
            proof {
                reveal_strlit("\\u00");
            }
            let code: u32 = c as u32;
            string_push_char(out, hex_char_of(code / 16));
            string_push_char(out, hex_char_of(code % 16));
        } else {
            string_push_char(out, c);
        }
        proof {
            lemma_json_escape_snoc(s@, i as int);
            assert(out@ =~= old(out)@ + json_escape(s@.take(i + 1)));
        }
        i = i + 1;
    }
    proof {
        assert(s@.take(n as int) =~= s@);
    }
}

} // verus!
