//! The three header validators: SAF flag, source, and MTI.

use vstd::prelude::*;

use crate::error::Error;
use vstd::string::StrSliceExecFns;

verus! {

/// A valid SAF flag: exactly `"Y"` or `"N"`.
pub open spec fn saf_valid(s: Seq<char>) -> bool {
    s.len() == 1 && (s[0] == 'Y' || s[0] == 'N')
}

/// A valid source: exactly one ASCII character (one byte on the wire).
pub open spec fn source_valid(s: Seq<char>) -> bool {
    s.len() == 1 && '\0' <= s[0] && s[0] <= '\u{7f}'
}

/// A valid MTI: exactly four ASCII decimal digits.
pub open spec fn mti_valid(s: Seq<char>) -> bool {
    s.len() == 4 && forall|i: int| 0 <= i < 4 ==> '0' <= #[trigger] s[i] && s[i] <= '9'
}

/// Accepts `"Y"` and `"N"` only.
pub fn validate_saf(s: &str) -> (r: Result<(), Error>)
    ensures
        r is Ok <==> saf_valid(s@),
        r matches Err(e) ==> e is IncorrectFieldData,
{
    if s.unicode_len() == 1 {
        let c = s.get_char(0);
        if c == 'Y' || c == 'N' {
            return Ok(());
        }
    }
    Err(Error::incorrect_field_data("SAF", "char Y or N"))
}

/// Accepts any single-byte string.
pub fn validate_source(s: &str) -> (r: Result<(), Error>)
    ensures
        r is Ok <==> source_valid(s@),
        r matches Err(e) ==> e is IncorrectFieldData,
{
    if s.unicode_len() == 1 {
        let c = s.get_char(0);
        proof {
            assert('\0' <= c);
        }
        if c <= '\u{7f}' {
            return Ok(());
        }
    }
    Err(Error::incorrect_field_data("SRC", "single ASCII char"))
}

/// Accepts exactly four ASCII decimal digits.
pub fn validate_mti(s: &str) -> (r: Result<(), Error>)
    ensures
        r is Ok <==> mti_valid(s@),
        r matches Err(e) ==> e is IncorrectFieldData,
{
    if s.unicode_len() != 4 {
        return Err(Error::incorrect_field_data("MTI", "4 digit number (string)"));
    }
    let mut i: usize = 0;
    while i < 4
        invariant
            0 <= i <= 4,
            s@.len() == 4,
            forall|j: int| 0 <= j < i ==> '0' <= #[trigger] s@[j] && s@[j] <= '9',
        decreases 4 - i,
    {
        let c = s.get_char(i);
        if c < '0' || c > '9' {
            return Err(Error::incorrect_field_data("MTI", "4 digit number (string)"));
        }
        i = i + 1;
    }
    Ok(())
}

/// The UTF-8 bytes of a valid MTI are its four digits, one byte each, and
/// those bytes read back as the same characters.
pub proof fn lemma_mti_bytes(s: Seq<char>)
    requires
        mti_valid(s),
    ensures
        vstd::utf8::encode_utf8(s).len() == 4,
        crate::digits::all_dec_digits(vstd::utf8::encode_utf8(s)),
        Seq::new(vstd::utf8::encode_utf8(s).len(), |i: int| vstd::utf8::encode_utf8(s)[i] as char)
            == s,
{
    assert(vstd::utf8::is_ascii_chars(s));
    vstd::utf8::is_ascii_chars_encode_utf8(s);
    let b = vstd::utf8::encode_utf8(s);
    assert forall|i: int| 0 <= i < b.len() implies crate::digits::is_dec_digit(#[trigger] b[i]) by {
        assert(b[i] == s[i] as u8);
    }
    assert(Seq::new(b.len(), |i: int| b[i] as char) =~= s);
}

} // verus!
