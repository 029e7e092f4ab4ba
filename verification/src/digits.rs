//! Decimal ASCII text: parsing digit runs, rendering numbers, zero padding
//! and whitespace trimming, as the fixed-width numeric fields of the wire
//! format use them.

use vstd::prelude::*;

verus! {

/// `b` is an ASCII decimal digit.
pub open spec fn is_dec_digit(b: u8) -> bool {
    0x30 <= b && b <= 0x39
}

/// Every byte of `s` is an ASCII decimal digit.
pub open spec fn all_dec_digits(s: Seq<u8>) -> bool {
    forall|i: int| 0 <= i < s.len() ==> is_dec_digit(#[trigger] s[i])
}

/// Numeric value of a run of ASCII digits, most significant first.
pub open spec fn dec_value(s: Seq<u8>) -> nat
    recommends
        all_dec_digits(s),
    decreases s.len(),
{
    if s.len() == 0 {
        0
    } else {
        dec_value(s.drop_last()) * 10 + (s.last() - 0x30) as nat
    }
}

/// Canonical decimal rendering of `v`: no leading zeros, except that zero
/// itself renders as a single `'0'`.
pub open spec fn dec_digits(v: nat) -> Seq<u8>
    decreases v,
{
    if v < 10 {
        seq![(0x30 + v) as u8]
    } else {
        dec_digits(v / 10).push((0x30 + v % 10) as u8)
    }
}

/// `s` left-padded with ASCII `'0'` up to width `w` (unchanged when already
/// at least that wide).
pub open spec fn zero_pad(s: Seq<u8>, w: nat) -> Seq<u8> {
    if s.len() >= w {
        s
    } else {
        Seq::new((w - s.len()) as nat, |i: int| 0x30u8) + s
    }
}

/// Zero-padded decimal rendering of `v` at width `w`.
pub open spec fn dec_padded(v: nat, w: nat) -> Seq<u8> {
    zero_pad(dec_digits(v), w)
}

/// `b` is ASCII whitespace (space, tab, line feed, carriage return).
pub open spec fn is_ascii_ws(b: u8) -> bool {
    b == 0x20 || b == 0x09 || b == 0x0a || b == 0x0d
}

/// `s` with every trailing ASCII whitespace byte removed.
pub open spec fn trim_right_ws(s: Seq<u8>) -> Seq<u8>
    decreases s.len(),
{
    if s.len() > 0 && is_ascii_ws(s.last()) {
        trim_right_ws(s.drop_last())
    } else {
        s
    }
}

/// Appending one digit multiplies the value by ten and adds the digit.
pub proof fn lemma_dec_value_push(s: Seq<u8>, b: u8)
    ensures
        dec_value(s.push(b)) == dec_value(s) * 10 + (b - 0x30) as nat,
{
    assert(s.push(b).drop_last() =~= s);
}

/// The value of a prefix never exceeds the value of the whole run.
pub proof fn lemma_dec_value_prefix_le(s: Seq<u8>, i: int)
    requires
        0 <= i <= s.len(),
    ensures
        dec_value(s.take(i)) <= dec_value(s),
    decreases s.len() - i,
{
    if i == s.len() {
        assert(s.take(i) =~= s);
    } else {
        lemma_dec_value_prefix_le(s, i + 1);
        assert(s.take(i + 1).drop_last() =~= s.take(i));
        assert(dec_value(s.take(i + 1)) == dec_value(s.take(i)) * 10 + (s.take(i + 1).last()
            - 0x30) as nat);
    }
}

/// The canonical rendering consists of digits, is never empty, and decodes
/// back to the rendered value.
pub proof fn lemma_dec_digits_value(v: nat)
    ensures
        all_dec_digits(dec_digits(v)),
        dec_digits(v).len() >= 1,
        dec_value(dec_digits(v)) == v,
    decreases v,
{
    if v < 10 {
        let s = dec_digits(v);
        assert(s =~= seq![(0x30 + v) as u8]);
        assert(s.drop_last() =~= Seq::<u8>::empty());
        assert(dec_value(s) == dec_value(s.drop_last()) * 10 + (s.last() - 0x30) as nat);
    } else {
        lemma_dec_digits_value(v / 10);
        lemma_dec_value_push(dec_digits(v / 10), (0x30 + v % 10) as u8);
        assert forall|i: int| 0 <= i < dec_digits(v).len() implies is_dec_digit(
            #[trigger] dec_digits(v)[i],
        ) by {
            if i < dec_digits(v / 10).len() {
                assert(dec_digits(v)[i] == dec_digits(v / 10)[i]);
            }
        }
    }
}

/// Ten to the `k`.
pub open spec fn pow10(k: nat) -> nat
    decreases k,
{
    if k == 0 {
        1
    } else {
        10 * pow10((k - 1) as nat)
    }
}

/// A value below `10^k` renders in at most `k` digits.
pub proof fn lemma_dec_digits_len_le(v: nat, k: nat)
    requires
        v < pow10(k),
        k >= 1,
    ensures
        dec_digits(v).len() <= k,
    decreases v,
{
    if v >= 10 {
        assert(pow10(k) == 10 * pow10((k - 1) as nat));
        lemma_dec_digits_len_le(v / 10, (k - 1) as nat);
    }
}

/// A value of at least `10^k` renders in more than `k` digits.
pub proof fn lemma_dec_digits_len_ge(v: nat, k: nat)
    requires
        v >= pow10(k),
    ensures
        dec_digits(v).len() >= k + 1,
    decreases k,
{
    if k > 0 {
        assert(pow10(k) == 10 * pow10((k - 1) as nat));
        lemma_dec_digits_len_ge(v / 10, (k - 1) as nat);
    }
}

/// Leading zeros do not change the numeric value.
pub proof fn lemma_dec_value_zeros_prefix(z: Seq<u8>, s: Seq<u8>)
    requires
        forall|i: int| 0 <= i < z.len() ==> z[i] == 0x30u8,
    ensures
        dec_value(z + s) == dec_value(s),
    decreases s.len(),
{
    if s.len() == 0 {
        assert(z + s =~= z);
        lemma_dec_value_all_zeros(z);
    } else {
        assert((z + s).drop_last() =~= z + s.drop_last());
        lemma_dec_value_zeros_prefix(z, s.drop_last());
        assert((z + s).last() == s.last());
    }
}

/// A run of zero digits has value zero.
proof fn lemma_dec_value_all_zeros(z: Seq<u8>)
    requires
        forall|i: int| 0 <= i < z.len() ==> z[i] == 0x30u8,
    ensures
        dec_value(z) == 0,
    decreases z.len(),
{
    if z.len() > 0 {
        lemma_dec_value_all_zeros(z.drop_last());
    }
}

/// Zero padding does not change the numeric value, and the padded run is
/// all digits whenever the original is.
pub proof fn lemma_zero_pad(s: Seq<u8>, w: nat)
    ensures
        dec_value(zero_pad(s, w)) == dec_value(s),
        all_dec_digits(s) ==> all_dec_digits(zero_pad(s, w)),
        zero_pad(s, w).len() == if s.len() >= w {
            s.len()
        } else {
            w
        },
{
    if s.len() < w {
        let z = Seq::new((w - s.len()) as nat, |i: int| 0x30u8);
        lemma_dec_value_zeros_prefix(z, s);
    }
}

/// A run of digits has no trailing whitespace to trim.
pub proof fn lemma_trim_right_ws_digits(s: Seq<u8>)
    requires
        all_dec_digits(s),
    ensures
        trim_right_ws(s) == s,
{
    if s.len() > 0 {
        assert(is_dec_digit(s[s.len() - 1]));
    }
}

/// Parse a run of ASCII digits as a `u64`. Returns `None` when the run is
/// empty, contains a non-digit, or denotes a value above `u64::MAX`.
pub fn parse_dec_u64(s: &[u8]) -> (r: Option<u64>)
    ensures
        r is Some <==> (s@.len() > 0 && all_dec_digits(s@) && dec_value(s@) <= u64::MAX),
        r matches Some(v) ==> v == dec_value(s@),
{
    if s.len() == 0 {
        return None;
    }
    let mut acc: u64 = 0;
    let mut i: usize = 0;
    while i < s.len()
        invariant
            0 <= i <= s@.len(),
            all_dec_digits(s@.take(i as int)),
            acc == dec_value(s@.take(i as int)),
        decreases s@.len() - i,
    {
        let b = s[i];
        if b < 0x30 || b > 0x39 {
            return None;
        }
        let d = b - 0x30;
        proof {
            lemma_dec_value_push(s@.take(i as int), b);
            assert(s@.take(i + 1).drop_last() =~= s@.take(i as int));
            assert(s@.take(i + 1) =~= s@.take(i as int).push(b));
        }
        if acc > (u64::MAX - d as u64) / 10 {
            proof {
                lemma_dec_value_prefix_le(s@, i + 1);
            }
            return None;
        }
        acc = acc * 10 + d as u64;
        i = i + 1;
    }
    proof {
        assert(s@.take(s@.len() as int) =~= s@);
    }
    Some(acc)
}

/// Length of the canonical decimal rendering of `v`.
pub fn dec_len_u64(v: u64) -> (r: usize)
    ensures
        r == dec_digits(v as nat).len(),
        1 <= r <= 20,
    decreases v,
{
    proof {
        assert(pow10(20) > u64::MAX) by {
            reveal_with_fuel(pow10, 21);
        }
        lemma_dec_digits_len_le(v as nat, 20);
    }
    if v < 10 {
        1
    } else {
        1 + dec_len_u64(v / 10)
    }
}

/// Append the canonical decimal rendering of `v` to `out`.
pub fn push_dec_u64(v: u64, out: &mut Vec<u8>)
    ensures
        final(out)@ == old(out)@ + dec_digits(v as nat),
    decreases v,
{
    if v < 10 {
        out.push(0x30 + v as u8);
        assert(out@ =~= old(out)@ + dec_digits(v as nat));
    } else {
        push_dec_u64(v / 10, out);
        out.push(0x30 + (v % 10) as u8);
        assert(out@ =~= old(out)@ + dec_digits(v as nat));
    }
}

/// Append the decimal rendering of `v`, zero-padded to `width`, to `out`.
/// A value too wide for the width renders in full, unpadded.
pub fn push_dec_u64_padded(v: u64, width: usize, out: &mut Vec<u8>)
    ensures
        final(out)@ == old(out)@ + dec_padded(v as nat, width as nat),
{
    let n: usize = dec_len_u64(v);
    let zeros: usize = if n >= width {
        0
    } else {
        width - n
    };
    let mut j: usize = 0;
    while j < zeros
        invariant
            0 <= j <= zeros,
            out@ == old(out)@ + Seq::new(j as nat, |i: int| 0x30u8),
        decreases zeros - j,
    {
        out.push(0x30);
        assert(out@ =~= old(out)@ + Seq::new((j + 1) as nat, |i: int| 0x30u8));
        j = j + 1;
    }
    push_dec_u64(v, out);
    proof {
        assert(out@ =~= old(out)@ + dec_padded(v as nat, width as nat));
    }
}

/// A subrange of a digit run is a digit run.
pub proof fn lemma_all_dec_digits_subrange(s: Seq<u8>, lo: int, hi: int)
    requires
        0 <= lo <= hi <= s.len(),
        all_dec_digits(s),
    ensures
        all_dec_digits(s.subrange(lo, hi)),
{
    assert forall|j: int| 0 <= j < hi - lo implies is_dec_digit(#[trigger] s.subrange(lo, hi)[j]) by {
        assert(s.subrange(lo, hi)[j] == s[lo + j]);
    }
}

/// A run of `n` digits denotes a value below `10^n`.
pub proof fn lemma_dec_value_bound(s: Seq<u8>)
    requires
        all_dec_digits(s),
    ensures
        dec_value(s) < pow10(s.len()),
    decreases s.len(),
{
    if s.len() > 0 {
        lemma_dec_value_bound(s.drop_last());
        assert(is_dec_digit(s[s.len() - 1]));
        assert(pow10(s.len()) == 10 * pow10((s.len() - 1) as nat));
    }
}

/// Whether `b` is ASCII whitespace.
fn is_ws_byte(b: u8) -> (r: bool)
    ensures
        r == is_ascii_ws(b),
{
    b == 0x20 || b == 0x09 || b == 0x0a || b == 0x0d
}

/// The index at which the trailing-whitespace run of `s` begins.
pub fn trim_right_ws_end(s: &[u8]) -> (r: usize)
    ensures
        r <= s@.len(),
        s@.take(r as int) == trim_right_ws(s@),
{
    let mut end: usize = s.len();
    proof {
        assert(s@.take(end as int) =~= s@);
    }
    while end > 0 && is_ws_byte(s[end - 1])
        invariant
            0 <= end <= s@.len(),
            trim_right_ws(s@.take(end as int)) == trim_right_ws(s@),
        decreases end,
    {
        proof {
            assert(s@.take(end as int).drop_last() =~= s@.take(end - 1));
        }
        end = end - 1;
    }
    proof {
        if end > 0 {
            assert(!is_ascii_ws(s@.take(end as int).last()));
        }
    }
    end
}

} // verus!
