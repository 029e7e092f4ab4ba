//! Packed-BCD primitives: two decimal digits per byte, high nibble first.

use vstd::prelude::*;

use crate::error::Error;

verus! {

/// A byte is valid packed BCD when both nibbles are decimal digits.
pub open spec fn bcd_x2_valid(b: u8) -> bool {
    b / 16 <= 9 && b % 16 <= 9
}

/// Numeric value of a packed-BCD byte.
pub open spec fn bcd_x2_value(b: u8) -> u8
    recommends
        bcd_x2_valid(b),
{
    ((b / 16) * 10 + b % 16) as u8
}

/// Packed-BCD byte for a two-digit value.
pub open spec fn bcd_x2_byte(v: u8) -> u8
    recommends
        v <= 99,
{
    ((v / 10) * 16 + v % 10) as u8
}

/// Two valid packed-BCD bytes.
pub open spec fn bcd_x4_valid(b0: u8, b1: u8) -> bool {
    bcd_x2_valid(b0) && bcd_x2_valid(b1)
}

/// Numeric value of a packed-BCD byte pair.
pub open spec fn bcd_x4_value(b0: u8, b1: u8) -> u16
    recommends
        bcd_x4_valid(b0, b1),
{
    (bcd_x2_value(b0) as u16 * 100 + bcd_x2_value(b1) as u16) as u16
}

/// Packed-BCD byte pair for a four-digit value: digits `d3 d2 d1 d0` become
/// `(d3 << 4) | d2` and `(d1 << 4) | d0`.
pub open spec fn bcd_x4_bytes(v: u16) -> (u8, u8)
    recommends
        v <= 9999,
{
    (bcd_x2_byte((v / 100) as u8), bcd_x2_byte((v % 100) as u8))
}

/// Decode one packed-BCD byte; both nibbles must be in `[0, 9]`.
pub fn decode_bcd_x2(v: u8) -> (r: Result<u8, Error>)
    ensures
        r is Ok <==> bcd_x2_valid(v),
        r matches Ok(x) ==> x == bcd_x2_value(v) && x <= 99,
        r matches Err(e) ==> e is Bounds,
{
    let left = v / 16;
    if left > 9 {
        return Err(Error::Bounds("high nibble is not in [0,9] range".to_owned()));
    }
    let right = v % 16;
    if right > 9 {
        return Err(Error::Bounds("low nibble is not in [0,9] range".to_owned()));
    }
    Ok(left * 10 + right)
}

/// Decode a packed-BCD byte pair into a value in `[0, 9999]`.
pub fn decode_bcd_x4(v: &[u8; 2]) -> (r: Result<u16, Error>)
    ensures
        r is Ok <==> bcd_x4_valid(v[0], v[1]),
        r matches Ok(x) ==> x == bcd_x4_value(v[0], v[1]) && x <= 9999,
        r matches Err(e) ==> e is Bounds,
{
    let l = decode_bcd_x2(v[0])?;
    let r = decode_bcd_x2(v[1])?;
    Ok(l as u16 * 100 + r as u16)
}

/// Encode a value of at most two digits as one packed-BCD byte.
pub fn encode_bcd_x2(v: u8) -> (r: Result<u8, Error>)
    ensures
        r is Ok <==> v <= 99,
        r matches Ok(b) ==> b == bcd_x2_byte(v),
        r matches Err(e) ==> e is Bounds,
{
    if v > 99 {
        return Err(Error::Bounds("u8 value contains more than 2 digits".to_owned()));
    }
    Ok((v / 10) * 16 + v % 10)
}

/// Encode a value of at most four digits as a packed-BCD byte pair.
pub fn encode_bcd_x4(v: u16) -> (r: Result<[u8; 2], Error>)
    ensures
        r is Ok <==> v <= 9999,
        r matches Ok(b) ==> (b[0], b[1]) == bcd_x4_bytes(v),
        r matches Err(e) ==> e is Bounds,
{
    if v > 9999 {
        return Err(Error::Bounds("u16 value contains more than 4 digits".to_owned()));
    }

    let digit_0 = (v % 10) as u8;
    let digit_1 = ((v / 10) % 10) as u8;
    let digit_2 = ((v / 100) % 10) as u8;
    let digit_3 = ((v / 1000) % 10) as u8;

    let left = digit_3 * 16 + digit_2;
    let right = digit_1 * 16 + digit_0;

    Ok([left, right])
}

/// Encoding a two-digit value and decoding the byte back returns the value.
pub proof fn lemma_bcd_x2_round_trip(v: u8)
    requires
        v <= 99,
    ensures
        bcd_x2_valid(bcd_x2_byte(v)),
        bcd_x2_value(bcd_x2_byte(v)) == v,
{
}

/// Encoding a four-digit value and decoding the byte pair back returns the
/// value.
pub proof fn lemma_bcd_x4_round_trip(v: u16)
    requires
        v <= 9999,
    ensures
        bcd_x4_valid(bcd_x4_bytes(v).0, bcd_x4_bytes(v).1),
        bcd_x4_value(bcd_x4_bytes(v).0, bcd_x4_bytes(v).1) == v,
{
    lemma_bcd_x2_round_trip((v / 100) as u8);
    lemma_bcd_x2_round_trip((v % 100) as u8);
}

} // verus!
