//! The blockwise decoder.
//!
//! Input is processed in fixed blocks of 16 byte lanes. Within a block,
//! every lane is handled uniformly: `+` is replaced by a space, each lane is
//! tested for beginning a validated `%XX` escape, the two digit lanes of
//! every escape are merged into the decoded byte at the `%` lane, and the
//! compaction table closes the two-lane gap each resolved escape leaves
//! behind. A `%` in the last two lanes cannot be validated inside the block,
//! so those bytes are carried into the next iteration; whatever remains
//! shorter than a block goes through the scalar decoder.

use vstd::prelude::*;

use crate::fallback;
use crate::hex::hex_digit_value;
use crate::model::{decode_seq, hex_pair, is_hex_digit, plus_space, PERCENT, PLUS, SPACE};
use crate::table::{
    bit, escapes_below, kept, lane_ok, lemma_escapes_below_none, lemma_escapes_below_set,
    lemma_kept_bound, lemma_no_bits_zero, lemma_set_bit, well_spaced, CompactionTable,
};
use vstd::slice::slice_subrange;

verus! {

/// How many trailing bytes of a block must be deferred to the next
/// iteration: two when the next-to-last lane is `%`, one when only the last
/// lane is, none otherwise. An escape needs three bytes to validate, so a
/// block never resolves a `%` this close to its end.
pub open spec fn carry(s: Seq<u8>) -> int {
    if s[14] == PERCENT {
        2
    } else if s[15] == PERCENT {
        1
    } else {
        0
    }
}

/// How many of a block's 16 bytes one iteration consumes.
pub open spec fn consumed(s: Seq<u8>) -> int {
    16 - carry(s)
}

/// A validated escape begins at lane `i`: a `%` followed by two hexadecimal
/// digits.
pub open spec fn starts_escape(s: Seq<u8>, i: int) -> bool {
    0 <= i && i + 3 <= s.len() && s[i] == PERCENT && is_hex_digit(s[i + 1]) && is_hex_digit(
        s[i + 2],
    )
}

/// The value of lane `i` after plus replacement and hex merge: the decoded
/// byte where a validated escape begins in the leading 14 lanes, the
/// plus-replaced original byte everywhere else.
pub open spec fn merged(s: Seq<u8>, i: int) -> u8 {
    if i <= 13 && starts_escape(s, i) {
        hex_pair(s[i + 1], s[i + 2])
    } else {
        plus_space(s[i])
    }
}

/// The output of one block, scanned from lane `i` up to the consumed part's
/// end: a validated escape contributes its decoded byte and claims three
/// lanes; any other lane contributes its plus-replaced byte.
pub open spec fn block_out_from(s: Seq<u8>, i: int) -> Seq<u8>
    decreases consumed(s) - i,
{
    if s.len() >= 16 && 0 <= i < consumed(s) {
        if starts_escape(s, i) && i + 3 <= consumed(s) {
            seq![merged(s, i)] + block_out_from(s, i + 3)
        } else {
            seq![plus_space(s[i])] + block_out_from(s, i + 1)
        }
    } else {
        Seq::empty()
    }
}

/// What the blockwise decoder produces: each full block of 16 bytes yields
/// its block output and consumes the block minus its carry; the remainder
/// follows the scalar rule.
pub open spec fn block_decode_seq(s: Seq<u8>) -> Seq<u8>
    decreases s.len(),
{
    if s.len() < 16 {
        decode_seq(s)
    } else {
        block_out_from(s, 0) + block_decode_seq(s.skip(consumed(s)))
    }
}

/// A validated escape that begins inside the consumed part of a block fits
/// within it: the carry rule defers any `%` too close to the block's end,
/// and the two digit bytes of an escape are never `%` themselves.
proof fn lemma_escape_fits(s: Seq<u8>, i: int)
    requires
        s.len() >= 16,
        0 <= i < consumed(s),
        starts_escape(s, i),
    ensures
        i + 3 <= consumed(s),
        i <= 13,
{
    assert(!is_hex_digit(PERCENT));
    if s[14] == PERCENT {
        assert(i + 1 != 14 && i + 2 != 14 && i != 14);
    } else if s[15] == PERCENT {
        assert(i + 1 != 15 && i + 2 != 15 && i != 15);
    }
}

/// Scanning a block lane by lane agrees with the scalar rule: what
/// `decode_seq` makes of the suffix from lane `i` onward is the block's
/// remaining output followed by the decode of everything past the consumed
/// part.
proof fn lemma_scan(s: Seq<u8>, i: int)
    requires
        s.len() >= 16,
        0 <= i <= consumed(s),
    ensures
        decode_seq(s.skip(i)) == block_out_from(s, i) + decode_seq(s.skip(consumed(s))),
    decreases consumed(s) - i,
{
    let c = consumed(s);
    if i == c {
        assert(block_out_from(s, i) =~= Seq::<u8>::empty());
        assert(Seq::<u8>::empty() + decode_seq(s.skip(c)) =~= decode_seq(s.skip(c)));
    } else {
        let r = s.skip(i);
        assert(r[0] == s[i]);
        if starts_escape(s, i) {
            lemma_escape_fits(s, i);
            assert(r[1] == s[i + 1] && r[2] == s[i + 2]);
            assert(decode_seq(r) == seq![hex_pair(s[i + 1], s[i + 2])] + decode_seq(r.skip(3)));
            assert(r.skip(3) =~= s.skip(i + 3));
            lemma_scan(s, i + 3);
            assert(decode_seq(s.skip(i)) =~= block_out_from(s, i) + decode_seq(s.skip(c)));
        } else {
            if r[0] == PERCENT && r.len() >= 3 && is_hex_digit(r[1]) && is_hex_digit(r[2]) {
                assert(starts_escape(s, i));
            }
            assert(r.skip(1) =~= s.skip(i + 1));
            lemma_scan(s, i + 1);
            assert(decode_seq(s.skip(i)) =~= block_out_from(s, i) + decode_seq(s.skip(c)));
        }
    }
}

/// The blockwise decoding rule and the scalar rule give the same output for
/// every input: the two paths of the library are behaviourally
/// indistinguishable.
pub proof fn lemma_block_matches_scalar(s: Seq<u8>)
    ensures
        block_decode_seq(s) == decode_seq(s),
    decreases s.len(),
{
    if s.len() >= 16 {
        lemma_scan(s, 0);
        assert(s.skip(0) =~= s);
        lemma_block_matches_scalar(s.skip(consumed(s)));
    }
}

/// The escape bitmap of a block is well spaced (the digit lanes of a
/// validated escape are never `%`, so no escape begins on them), every
/// escape it marks fits inside the consumed part, and inside that part it
/// marks exactly the validated escapes.
proof fn lemma_mask_facts(s: Seq<u8>, m: u16)
    requires
        s.len() >= 16,
        m < 16384,
        forall|j: u16| #[trigger] bit(m, j) <==> j <= 13 && starts_escape(s, j as int),
    ensures
        well_spaced(m),
        forall|j: u16| #[trigger] bit(m, j) ==> j as int + 3 <= consumed(s),
        forall|i: int| 0 <= i < consumed(s) ==> (starts_escape(s, i) <==> bit(m, i as u16)),
{
    assert(!is_hex_digit(PERCENT));
    assert forall|j: u16| #[trigger] bit(m, j) implies j as int + 3 <= consumed(s) by {
        lemma_escape_fits(s, j as int);
    }
    assert forall|i: int| 0 <= i < consumed(s) && starts_escape(s, i) implies bit(
        m,
        i as u16,
    ) by {
        lemma_escape_fits(s, i);
    }
}

/// The length of a block's output from lane `i` on: one byte per consumed
/// lane, minus the two junk lanes of every escape begun at or after `i`.
proof fn lemma_block_out_len(s: Seq<u8>, m: u16, i: int)
    requires
        s.len() >= 16,
        m < 16384,
        well_spaced(m),
        forall|i2: int| 0 <= i2 < consumed(s) ==> (starts_escape(s, i2) <==> bit(m, i2 as u16)),
        forall|j: u16| #[trigger] bit(m, j) ==> j as int + 3 <= consumed(s),
        0 <= i <= consumed(s),
    ensures
        block_out_from(s, i).len() == (consumed(s) - i) - 2 * (escapes_below(m, 16)
            - escapes_below(m, i)),
        escapes_below(m, i) <= escapes_below(m, 16),
    decreases consumed(s) - i,
{
    let c = consumed(s);
    if i == c {
        assert forall|j: u16| c <= j < 16 implies !bit(m, j) by {
            if bit(m, j) {
            }
        }
        lemma_escapes_below_none(m, c, 16);
    } else if starts_escape(s, i) && i + 3 <= c {
        assert(bit(m, i as u16));
        assert(i <= 13);
        assert(!bit(m, (i + 1) as u16) && !bit(m, (i + 2) as u16));
        assert(escapes_below(m, i + 1) == escapes_below(m, i) + 1);
        assert(escapes_below(m, i + 2) == escapes_below(m, i + 1));
        assert(escapes_below(m, i + 3) == escapes_below(m, i + 2));
        lemma_block_out_len(s, m, i + 3);
    } else {
        if starts_escape(s, i) {
            lemma_escape_fits(s, i);
        }
        assert(!bit(m, i as u16));
        assert(escapes_below(m, i + 1) == escapes_below(m, i));
        lemma_block_out_len(s, m, i + 1);
    }
}

/// Lane scan of one block: replace `+` with space, validate escapes across
/// the three hexadecimal ranges, merge the digit lanes of each escape into
/// the decoded byte at its `%` lane, and collect the escape bitmap and the
/// escape count.
#[verifier::loop_isolation(false)]
fn scan_block(src: &[u8], pos: usize) -> (res: (Vec<u8>, u16, usize))
    requires
        pos + 16 <= src.len(),
    ensures
        ({
            let r = src@.skip(pos as int);
            &&& res.0@.len() == 16
            &&& forall|k: int| 0 <= k < 16 ==> res.0@[k] == merged(r, k)
            &&& res.1 < 16384
            &&& forall|j: u16| #[trigger] bit(res.1, j) <==> j <= 13 && starts_escape(r, j as int)
            &&& res.2 == escapes_below(res.1, 16)
            &&& res.2 <= 16
        }),
{
    let ghost r = src@.skip(pos as int);
    let mut merged_block: Vec<u8> = Vec::new();
    let mut mask: u16 = 0;
    let mut count: usize = 0;
    let mut i: usize = 0;
    proof {
        lemma_no_bits_zero();
        assert(escapes_below(0u16, 16) == 0) by {
            lemma_escapes_below_none(0u16, 0, 16);
        }
    }
    while i < 16
        invariant
            i <= 16,
            count <= i,
            merged_block@.len() == i,
            forall|k: int| 0 <= k < i ==> merged_block@[k] == merged(r, k),
            mask < 16384,
            forall|j: u16| #[trigger] bit(mask, j) <==> j < i && j <= 13 && starts_escape(
                r,
                j as int,
            ),
            count == escapes_below(mask, 16),
        decreases 16 - i,
    {
        let b = src[pos + i];
        let mut v: u8 = if b == PLUS {
            SPACE
        } else {
            b
        };
        if i <= 13 && b == PERCENT {
            let d1 = hex_digit_value(src[pos + i + 1]);
            let d2 = hex_digit_value(src[pos + i + 2]);
            match (d1, d2) {
                (Some(h), Some(l)) => {
                    v = 16 * h + l;
                    proof {
                        assert(starts_escape(r, i as int));
                        assert(!bit(mask, i as u16));
                        lemma_set_bit(mask, i as u16);
                        lemma_escapes_below_set(mask, i as u16, 16);
                    }
                    mask = mask | (1u16 << (i as u16));
                    count = count + 1;
                },
                _ => {},
            }
        }
        merged_block.push(v);
        i = i + 1;
    }
    (merged_block, mask, count)
}

/// Compaction of one scanned block: one table lookup per output lane slides
/// every kept byte left past the junk lanes of the escapes before it, and
/// the kept bytes of the consumed part are appended to `dst` in order.
#[verifier::loop_isolation(false)]
fn compact_block(
    table: &CompactionTable,
    merged_block: &Vec<u8>,
    mask: u16,
    count: usize,
    cons: usize,
    dst: &mut Vec<u8>,
    Ghost(r): Ghost<Seq<u8>>,
)
    requires
        table.wf(),
        r.len() >= 16,
        cons == consumed(r),
        merged_block@.len() == 16,
        forall|k: int| 0 <= k < 16 ==> merged_block@[k] == merged(r, k),
        mask < 16384,
        forall|j: u16| #[trigger] bit(mask, j) <==> j <= 13 && starts_escape(r, j as int),
        count == escapes_below(mask, 16),
        count <= 16,
    ensures
        final(dst)@ == old(dst)@ + block_out_from(r, 0),
{
    let ghost dst0 = dst@;
    proof {
        lemma_mask_facts(r, mask);
        lemma_block_out_len(r, mask, 0);
        assert forall|j: u16| cons <= j < 16 implies !bit(mask, j) by {
            if bit(mask, j) {
            }
        }
        lemma_escapes_below_none(mask, cons as int, 16);
        lemma_kept_bound(mask, cons as int);
    }
    let dst_end: usize = cons - 2 * count;
    let base: usize = (mask as usize) * 16;
    let mut jj: usize = 0;
    let ghost mut gi: int = 0;
    while jj < dst_end
        invariant
            jj <= dst_end,
            0 <= gi <= cons,
            kept(mask, gi),
            jj == gi - 2 * escapes_below(mask, gi),
            dst@ + block_out_from(r, gi) == dst0 + block_out_from(r, 0),
            dst@.len() == dst0.len() + jj,
        decreases dst_end - jj,
    {
        proof {
            lemma_block_out_len(r, mask, gi);
            assert(gi < consumed(r));
            assert(lane_ok(table.data@, mask as int * 16, mask, gi));
        }
        let off = table.data[base + jj];
        proof {
            assert(off == 2 * escapes_below(mask, gi));
        }
        let si = jj + (off as usize);
        let v = merged_block[si];
        let ghost dst_prev = dst@;
        let ghost gi_next: int = if starts_escape(r, gi) {
            gi + 3
        } else {
            gi + 1
        };
        proof {
            if starts_escape(r, gi) {
                lemma_escape_fits(r, gi);
                assert(block_out_from(r, gi) == seq![merged(r, gi)] + block_out_from(r, gi + 3));
                assert(v == merged(r, gi));
                assert(bit(mask, gi as u16));
                assert(!bit(mask, (gi + 1) as u16) && !bit(mask, (gi + 2) as u16));
                assert(escapes_below(mask, gi + 1) == escapes_below(mask, gi) + 1);
                assert(escapes_below(mask, gi + 2) == escapes_below(mask, gi + 1));
                assert(escapes_below(mask, gi + 3) == escapes_below(mask, gi + 2));
                assert(kept(mask, gi_next));
            } else {
                assert(block_out_from(r, gi) == seq![plus_space(r[gi])] + block_out_from(
                    r,
                    gi + 1,
                ));
                assert(v == merged(r, gi));
                assert(v == plus_space(r[gi]));
                assert(!bit(mask, gi as u16));
                assert(escapes_below(mask, gi + 1) == escapes_below(mask, gi));
                assert(kept(mask, gi_next));
            }
        }
        dst.push(v);
        proof {
            assert(dst@ + block_out_from(r, gi_next) =~= dst_prev + (seq![v] + block_out_from(
                r,
                gi_next,
            )));
            gi = gi_next;
        }
        jj = jj + 1;
    }
    proof {
        lemma_block_out_len(r, mask, gi);
        assert(block_out_from(r, gi).len() == 0);
        assert(block_out_from(r, gi) =~= Seq::<u8>::empty());
        assert(dst@ + Seq::<u8>::empty() =~= dst@);
    }
}

/// Resolve one block of 16 bytes at `pos`: append its decoded, compacted
/// output to `dst` and return the position just past the consumed bytes,
/// leaving any carried trailing `%` to be read again.
fn decode_block(table: &CompactionTable, src: &[u8], pos: usize, dst: &mut Vec<u8>) -> (end: usize)
    requires
        table.wf(),
        pos + 16 <= src.len(),
    ensures
        final(dst)@ == old(dst)@ + block_out_from(src@.skip(pos as int), 0),
        end == pos + consumed(src@.skip(pos as int)),
{
    let ghost r = src@.skip(pos as int);

    // Carry: defer a trailing `%` that this block cannot validate.
    let carry_n: usize = if src[pos + 14] == PERCENT {
        2
    } else if src[pos + 15] == PERCENT {
        1
    } else {
        0
    };
    let cons: usize = 16 - carry_n;
    proof {
        assert(cons == consumed(r));
    }

    let (merged_block, mask, count) = scan_block(src, pos);
    compact_block(table, &merged_block, mask, count, cons, dst, Ghost(r));
    pos + cons
}

/// Decode `src` blockwise and append the result to `dst`: full 16-byte
/// blocks go through the lane pipeline with the given compaction table, the
/// remainder through the scalar decoder.
#[verifier::loop_isolation(false)]
pub fn decode_extend(table: &CompactionTable, src: &[u8], dst: &mut Vec<u8>)
    requires
        table.wf(),
    ensures
        final(dst)@ == old(dst)@ + decode_seq(src@),
        final(dst)@ == old(dst)@ + block_decode_seq(src@),
{
    let mut pos: usize = 0;
    proof {
        assert(src@.skip(0) =~= src@);
    }
    while src.len() - pos >= 16
        invariant
            pos <= src.len(),
            dst@ + decode_seq(src@.skip(pos as int)) == old(dst)@ + decode_seq(src@),
        decreases src.len() - pos,
    {
        let ghost r = src@.skip(pos as int);
        let ghost dst_before = dst@;
        let end = decode_block(table, src, pos, dst);
        proof {
            lemma_scan(r, 0);
            assert(r.skip(0) =~= r);
            assert(r.skip(consumed(r)) =~= src@.skip(pos + consumed(r)));
            assert(dst@ + decode_seq(src@.skip(end as int)) =~= dst_before + (block_out_from(r, 0)
                + decode_seq(r.skip(consumed(r)))));
        }
        pos = end;
    }
    let tail = slice_subrange(src, pos, src.len());
    proof {
        assert(tail@ =~= src@.skip(pos as int));
    }
    fallback::decode_extend(tail, dst);
    proof {
        lemma_block_matches_scalar(src@);
    }
}

/// Decode `src` blockwise into `dst`, replacing whatever `dst` held before.
/// Builds the compaction table and runs the block pipeline over it; callers
/// that decode repeatedly can build the table once and use `decode_extend`.
pub fn url_decode(src: &[u8], dst: &mut Vec<u8>)
    ensures
        final(dst)@ == block_decode_seq(src@),
        final(dst)@ == decode_seq(src@),
{
    let table = CompactionTable::new();
    let mut out: Vec<u8> = Vec::new();
    decode_extend(&table, src, &mut out);
    proof {
        lemma_block_matches_scalar(src@);
        assert(Seq::<u8>::empty() + decode_seq(src@) =~= decode_seq(src@));
    }
    *dst = out;
}

} // verus!
