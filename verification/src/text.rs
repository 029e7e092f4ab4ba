//! Text support: the few trusted bridges into std's UTF-8 conversions, and
//! verified helpers for comparing byte strings.

use vstd::prelude::*;

verus! {

/// What `String::from_utf8_lossy` returns on bytes that are not valid
/// UTF-8: some sequence with replacement characters, a function of the
/// bytes alone.
pub uninterp spec fn utf8_replacement_chars(bytes: Seq<u8>) -> Seq<char>;

/// The characters `String::from_utf8_lossy` produces: valid UTF-8 decodes
/// exactly, anything else turns into the named replacement rendering.
pub open spec fn utf8_lossy(bytes: Seq<u8>) -> Seq<char> {
    if vstd::utf8::valid_utf8(bytes) {
        vstd::utf8::decode_utf8(bytes)
    } else {
        utf8_replacement_chars(bytes)
    }
}

/// Relies on `String::from_utf8_lossy`: valid UTF-8 decodes unchanged
/// (per its documentation), and the result depends on the bytes alone.
#[verifier::external_body]
pub fn bytes_to_string_lossy(v: &[u8]) -> (r: String)
    ensures
        r@ == utf8_lossy(v@),
        !vstd::utf8::valid_utf8(v@) ==> r@ == utf8_replacement_chars(v@),
{
    String::from_utf8_lossy(v).into_owned()
}

/// Relies on `String::from_utf8`: succeeds exactly on valid UTF-8 and
/// decodes it; on failure `into_bytes` hands the buffer back unchanged.
#[verifier::external_body]
pub fn vec_to_string_utf8(v: Vec<u8>) -> (r: Result<String, Vec<u8>>)
    ensures
        match r {
            Ok(s) => vstd::utf8::valid_utf8(v@) && s@ == vstd::utf8::decode_utf8(v@),
            Err(w) => !vstd::utf8::valid_utf8(v@) && w@ == v@,
        },
{
    String::from_utf8(v).map_err(|e| e.into_bytes())
}

/// Relies on `String::push`: appends exactly one character.
#[verifier::external_body]
pub fn string_push_char(s: &mut String, c: char)
    ensures
        final(s)@ == old(s)@ + seq![c],
{
    s.push(c);
}

/// A sequence of bytes below `0x80` is valid UTF-8 and decodes to the
/// characters the bytes spell, one each.
pub proof fn lemma_ascii_bytes_utf8(s: Seq<u8>)
    requires
        forall|i: int| 0 <= i < s.len() ==> #[trigger] s[i] < 0x80,
    ensures
        vstd::utf8::valid_utf8(s),
        vstd::utf8::decode_utf8(s) == Seq::new(s.len(), |i: int| s[i] as char),
        vstd::utf8::is_ascii_chars(vstd::utf8::decode_utf8(s)),
{
    let cs = Seq::new(s.len(), |i: int| s[i] as char);
    assert(vstd::utf8::is_ascii_chars(cs));
    vstd::utf8::is_ascii_chars_encode_utf8(cs);
    assert(vstd::utf8::encode_utf8(cs) =~= s);
    vstd::utf8::encode_utf8_valid_utf8(cs);
    vstd::utf8::encode_utf8_decode_utf8(cs);
}

/// Byte-for-byte equality of two slices.
pub fn bytes_eq(a: &[u8], b: &[u8]) -> (r: bool)
    ensures
        r == (a@ == b@),
{
    if a.len() != b.len() {
        return false;
    }
    let n: usize = a.len();
    let mut i: usize = 0;
    while i < n
        invariant
            0 <= i <= n,
            n == a@.len() == b@.len(),
            forall|j: int| 0 <= j < i ==> a@[j] == b@[j],
        decreases n - i,
    {
        if a[i] != b[i] {
            return false;
        }
        i = i + 1;
    }
    proof {
        assert(a@ =~= b@);
    }
    true
}

/// Whether the string's UTF-8 encoding is exactly the given bytes.
pub fn string_eq_bytes(a: &str, b: &[u8]) -> (r: bool)
    ensures
        r == (vstd::utf8::encode_utf8(a@) == b@),
{
    bytes_eq(a.as_bytes(), b)
}

/// Equality of two string slices, decided on the UTF-8 encodings; equal
/// encodings decode to equal characters.
pub fn str_eq(a: &str, b: &str) -> (r: bool)
    ensures
        r == (a@ == b@),
{
    let r = bytes_eq(a.as_bytes(), b.as_bytes());
    proof {
        vstd::utf8::encode_utf8_decode_utf8(a@);
        vstd::utf8::encode_utf8_decode_utf8(b@);
    }
    r
}

} // verus!
