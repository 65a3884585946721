//! The scalar decoder: byte-at-a-time, with no block restriction.
//!
//! This path is the correctness reference. It handles whole inputs shorter
//! than one block and the tail bytes left behind by the blockwise decoder,
//! and it shares nothing with that decoder beyond the hexadecimal digit
//! classifier.

use vstd::prelude::*;

use crate::hex::hex_digit_value;
use crate::model::{
    decode_seq, hex_pair, is_hex_digit, lemma_plus_then_percent, percent_decode_seq, plus_space,
    replace_plus_seq, PERCENT, PLUS, SPACE,
};

verus! {

/// Replace every `+` with a space, leaving all other bytes unchanged.
pub fn replace_plus(input: &[u8]) -> (out: Vec<u8>)
    ensures
        out@ == replace_plus_seq(input@),
{
    let mut out: Vec<u8> = Vec::new();
    let mut pos: usize = 0;
    while pos < input.len()
        invariant
            pos <= input.len(),
            out@.len() == pos,
            forall|k: int| 0 <= k < pos ==> out@[k] == plus_space(input@[k]),
        decreases input.len() - pos,
    {
        let b = input[pos];
        if b == PLUS {
            out.push(SPACE);
        } else {
            out.push(b);
        }
        pos = pos + 1;
    }
    proof {
        assert(out@ =~= replace_plus_seq(input@));
    }
    out
}

/// Read the two bytes that follow a `%`: when both are hexadecimal digits,
/// return the byte they encode; otherwise `None`, and the caller emits the
/// `%` unchanged.
pub fn after_percent_sign(s: &[u8], i: usize) -> (r: Option<u8>)
    requires
        i <= s@.len(),
    ensures
        r is Some <==> i + 2 <= s@.len() && is_hex_digit(s@[i as int]) && is_hex_digit(
            s@[i + 1],
        ),
        r is Some ==> r->0 == hex_pair(s@[i as int], s@[i + 1]),
{
    if s.len() - i >= 2 {
        let h = hex_digit_value(s[i]);
        let l = hex_digit_value(s[i + 1]);
        match (h, l) {
            (Some(hv), Some(lv)) => Some(16 * hv + lv),
            _ => None,
        }
    } else {
        None
    }
}

/// Resolve every well-formed `%XX` escape of `input`, leaving all other
/// bytes (including malformed escapes) unchanged.
pub fn percent_decode(input: &[u8]) -> (out: Vec<u8>)
    ensures
        out@ == percent_decode_seq(input@),
{
    let mut out: Vec<u8> = Vec::new();
    let mut pos: usize = 0;
    proof {
        assert(input@.skip(0) =~= input@);
        assert(Seq::<u8>::empty() + percent_decode_seq(input@) =~= percent_decode_seq(input@));
    }
    while pos < input.len()
        invariant
            pos <= input.len(),
            out@ + percent_decode_seq(input@.skip(pos as int)) == percent_decode_seq(input@),
        decreases input.len() - pos,
    {
        let ghost rest = input@.skip(pos as int);
        let b = input[pos];
        if b == PERCENT {
            match after_percent_sign(input, pos + 1) {
                Some(v) => {
                    proof {
                        assert(rest.skip(3) =~= input@.skip(pos + 3));
                        assert(percent_decode_seq(rest) == seq![v] + percent_decode_seq(
                            rest.skip(3),
                        ));
                        assert(out@ + (seq![v] + percent_decode_seq(rest.skip(3))) =~= out@.push(
                            v,
                        ) + percent_decode_seq(rest.skip(3)));
                    }
                    out.push(v);
                    pos = pos + 3;
                },
                None => {
                    proof {
                        assert(rest.skip(1) =~= input@.skip(pos + 1));
                        assert(percent_decode_seq(rest) == seq![b] + percent_decode_seq(
                            rest.skip(1),
                        ));
                        assert(out@ + (seq![b] + percent_decode_seq(rest.skip(1))) =~= out@.push(
                            b,
                        ) + percent_decode_seq(rest.skip(1)));
                    }
                    out.push(b);
                    pos = pos + 1;
                },
            }
        } else {
            proof {
                assert(rest.skip(1) =~= input@.skip(pos + 1));
                assert(percent_decode_seq(rest) == seq![b] + percent_decode_seq(rest.skip(1)));
                assert(out@ + (seq![b] + percent_decode_seq(rest.skip(1))) =~= out@.push(b)
                    + percent_decode_seq(rest.skip(1)));
            }
            out.push(b);
            pos = pos + 1;
        }
    }
    proof {
        assert(input@.skip(pos as int) =~= Seq::<u8>::empty());
        assert(out@ + Seq::<u8>::empty() =~= out@);
    }
    out
}

/// Decode `src` and append the result to `dst`, leaving what `dst` already
/// holds in place.
pub fn decode_extend(src: &[u8], dst: &mut Vec<u8>)
    ensures
        final(dst)@ == old(dst)@ + decode_seq(src@),
{
    let replaced = replace_plus(src);
    let mut decoded = percent_decode(replaced.as_slice());
    proof {
        lemma_plus_then_percent(src@);
    }
    dst.append(&mut decoded);
}

/// Decode `src` into `dst`, replacing whatever `dst` held before.
pub fn url_decode(src: &[u8], dst: &mut Vec<u8>)
    ensures
        final(dst)@ == decode_seq(src@),
{
    let replaced = replace_plus(src);
    let decoded = percent_decode(replaced.as_slice());
    proof {
        lemma_plus_then_percent(src@);
    }
    *dst = decoded;
}

} // verus!
