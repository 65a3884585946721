//! The mathematical model of percent-decoding.
//!
//! `decode_seq` is the authoritative meaning of a decode: every executable
//! path of the library (the scalar decoder and the blockwise decoder) is
//! proved to produce exactly this sequence.

use vstd::prelude::*;

verus! {

/// The `%` byte that begins an escape.
pub const PERCENT: u8 = 37;

/// The `+` byte, decoded as a space.
pub const PLUS: u8 = 43;

/// The space byte that `+` decodes to.
pub const SPACE: u8 = 32;

/// A byte is a hexadecimal digit when it lies in one of the three ranges
/// `0`-`9`, `A`-`F` or `a`-`f`. A byte matches at most one of the ranges;
/// it is valid when it matches any of them.
pub open spec fn is_hex_digit(b: u8) -> bool {
    (48 <= b && b <= 57) || (65 <= b && b <= 70) || (97 <= b && b <= 102)
}

/// The 4-bit value of a hexadecimal digit byte.
pub open spec fn hex_value(b: u8) -> u8 {
    if 48 <= b && b <= 57 {
        (b - 48) as u8
    } else if 65 <= b && b <= 70 {
        (b - 55) as u8
    } else {
        (b - 87) as u8
    }
}

/// The byte encoded by the two hexadecimal digits of a `%XX` escape.
pub open spec fn hex_pair(h: u8, l: u8) -> u8 {
    (hex_value(h) * 16 + hex_value(l)) as u8
}

/// A lone byte decodes to a space when it is `+`, else to itself.
pub open spec fn plus_space(b: u8) -> u8 {
    if b == PLUS {
        SPACE
    } else {
        b
    }
}

/// What decoding a byte sequence yields, read left to right:
/// a `%` followed by two hexadecimal digits collapses to the encoded byte;
/// a `+` becomes a space; every other byte, and every `%` not followed by
/// two hexadecimal digits, is kept unchanged.
pub open spec fn decode_seq(s: Seq<u8>) -> Seq<u8>
    decreases s.len(),
{
    if s.len() == 0 {
        Seq::empty()
    } else if s[0] == PERCENT && s.len() >= 3 && is_hex_digit(s[1]) && is_hex_digit(s[2]) {
        seq![hex_pair(s[1], s[2])] + decode_seq(s.skip(3))
    } else if s[0] == PLUS {
        seq![SPACE] + decode_seq(s.skip(1))
    } else {
        seq![s[0]] + decode_seq(s.skip(1))
    }
}

/// The same sequence with every `+` replaced by a space and nothing else
/// touched.
pub open spec fn replace_plus_seq(s: Seq<u8>) -> Seq<u8> {
    Seq::new(s.len(), |i: int| plus_space(s[i]))
}

/// Percent-decoding alone: the `%XX` rule of `decode_seq` without the `+`
/// rule.
pub open spec fn percent_decode_seq(s: Seq<u8>) -> Seq<u8>
    decreases s.len(),
{
    if s.len() == 0 {
        Seq::empty()
    } else if s[0] == PERCENT && s.len() >= 3 && is_hex_digit(s[1]) && is_hex_digit(s[2]) {
        seq![hex_pair(s[1], s[2])] + percent_decode_seq(s.skip(3))
    } else {
        seq![s[0]] + percent_decode_seq(s.skip(1))
    }
}

/// Decoding never lengthens the data: each step keeps one byte or collapses
/// three bytes to one.
pub proof fn lemma_decode_len_bound(s: Seq<u8>)
    ensures
        decode_seq(s).len() <= s.len(),
    decreases s.len(),
{
    if s.len() == 0 {
    } else if s[0] == PERCENT && s.len() >= 3 && is_hex_digit(s[1]) && is_hex_digit(s[2]) {
        lemma_decode_len_bound(s.skip(3));
    } else {
        lemma_decode_len_bound(s.skip(1));
    }
}

/// Every `+` becomes a single space wherever it stands: decoding is the same
/// as first replacing each `+` by a space and then resolving only the `%XX`
/// escapes. A `+` never takes part in an escape, since it is not a
/// hexadecimal digit.
pub proof fn lemma_plus_then_percent(s: Seq<u8>)
    ensures
        percent_decode_seq(replace_plus_seq(s)) == decode_seq(s),
    decreases s.len(),
{
    let r = replace_plus_seq(s);
    if s.len() == 0 {
        assert(percent_decode_seq(r) =~= decode_seq(s));
    } else if s[0] == PERCENT && s.len() >= 3 && is_hex_digit(s[1]) && is_hex_digit(s[2]) {
        lemma_plus_then_percent(s.skip(3));
        assert(replace_plus_seq(s.skip(3)) =~= r.skip(3));
        assert(percent_decode_seq(r) == seq![hex_pair(r[1], r[2])] + percent_decode_seq(r.skip(3)));
        assert(percent_decode_seq(r) =~= decode_seq(s));
    } else {
        lemma_plus_then_percent(s.skip(1));
        assert(replace_plus_seq(s.skip(1)) =~= r.skip(1));
        if r[0] == PERCENT && r.len() >= 3 && is_hex_digit(r[1]) && is_hex_digit(r[2]) {
            // Impossible: a valid escape in `r` would have been valid in `s`,
            // since replacing `+` by a space never creates a `%` or a digit.
            assert(is_hex_digit(s[1]) && is_hex_digit(s[2]));
        }
        assert(percent_decode_seq(r) == seq![r[0]] + percent_decode_seq(r.skip(1)));
        assert(percent_decode_seq(r) =~= decode_seq(s));
    }
}

/// Hexadecimal digits are read case-insensitively: an uppercase digit and
/// its lowercase form carry the same value, so `%4B` and `%4b` decode to the
/// same byte.
pub proof fn lemma_hex_case_insensitive(b: u8)
    requires
        65 <= b <= 70,
    ensures
        is_hex_digit(b),
        is_hex_digit((b + 32) as u8),
        hex_value((b + 32) as u8) == hex_value(b),
{
}

/// A `%` not followed by two hexadecimal digits — whether the input ends too
/// early or a following byte lies outside the three digit ranges — is
/// emitted unchanged, and decoding resumes at the very next byte.
pub proof fn lemma_malformed_percent(s: Seq<u8>)
    requires
        s.len() >= 1,
        s[0] == PERCENT,
        !(s.len() >= 3 && is_hex_digit(s[1]) && is_hex_digit(s[2])),
    ensures
        decode_seq(s) == seq![PERCENT] + decode_seq(s.skip(1)),
{
}

/// A sequence that contains neither `%` nor `+` decodes to itself.
pub proof fn lemma_decode_passthrough(s: Seq<u8>)
    requires
        forall|i: int| 0 <= i < s.len() ==> s[i] != PERCENT && s[i] != PLUS,
    ensures
        decode_seq(s) == s,
    decreases s.len(),
{
    if s.len() == 0 {
        assert(decode_seq(s) =~= s);
    } else {
        lemma_decode_passthrough(s.skip(1));
        assert(decode_seq(s) =~= s);
    }
}

} // verus!
