//! The compaction table.
//!
//! The blockwise decoder reduces each block to a 16-bit escape bitmap, one
//! bit per lane, set where a validated `%XX` escape begins. Resolving an
//! escape collapses three input bytes to one, so the bytes that follow it
//! must slide left by two lanes. This table holds, for every bitmap over the
//! leading 14 lanes (an escape cannot be validated when it begins in the last
//! two lanes of a block), one byte-offset vector: output lane `j` of a block
//! reads input lane `j + offset[j]`. It is built once, by a lane-by-lane
//! simulation of each bitmap, and read-only afterwards.

use vstd::prelude::*;

verus! {

/// Whether bit `i` of the escape bitmap `m` is set: an escape begins at
/// lane `i`.
pub open spec fn bit(m: u16, i: u16) -> bool {
    i < 16 && (m >> i) & 1u16 == 1u16
}

/// How many escapes begin strictly below lane `i`.
pub open spec fn escapes_below(m: u16, i: int) -> nat
    decreases i,
{
    if i <= 0 {
        0
    } else {
        escapes_below(m, i - 1) + if bit(m, (i - 1) as u16) {
            1nat
        } else {
            0nat
        }
    }
}

/// A bitmap is well spaced when no escape begins within the two lanes that
/// an earlier escape claims, and none begins in the last two lanes of the
/// block. Every bitmap the blockwise decoder computes is well spaced,
/// because the two bytes after a validated `%` are hexadecimal digits and
/// therefore cannot be `%` themselves.
pub open spec fn well_spaced(m: u16) -> bool {
    m < 16384 && forall|j: u16|
        j < 14 && #[trigger] bit(m, j) ==> !bit(m, (j + 1) as u16) && !bit(m, (j + 2) as u16)
}

/// A lane is kept when it is not one of the two junk lanes of an escape that
/// begins one or two lanes earlier.
pub open spec fn kept(m: u16, i: int) -> bool {
    (i < 1 || !bit(m, (i - 1) as u16)) && (i < 2 || !bit(m, (i - 2) as u16))
}

/// The stored offset for kept lane `i` of bitmap `m` is correct in `data` at
/// base index `base`: output lane `i - 2*escapes_below(m, i)` holds twice the
/// number of escapes begun before lane `i`, which is how far that lane's
/// source byte moves left.
pub open spec fn lane_ok(data: Seq<u8>, base: int, m: u16, i: int) -> bool {
    data[base + i - 2 * escapes_below(m, i)] == 2 * escapes_below(m, i)
}

/// Setting one bit below lane 14 keeps the bitmap inside the table's domain
/// and changes exactly that bit.
pub proof fn lemma_set_bit(m: u16, i: u16)
    by (bit_vector)
    requires
        i < 14,
        m < 16384,
    ensures
        (m | (1u16 << i)) < 16384,
        forall|j: u16| #[trigger] bit(m | (1u16 << i), j) == (bit(m, j) || j == i),
{
}

/// The zero bitmap has no bit set.
pub proof fn lemma_no_bits_zero()
    by (bit_vector)
    ensures
        forall|j: u16| !(#[trigger] bit(0u16, j)),
{
}

/// A bitmap inside the table's domain has no bit set at lane 14 or above.
proof fn lemma_high_bits_clear(m: u16)
    by (bit_vector)
    requires
        m < 16384,
    ensures
        forall|j: u16| 14 <= j ==> !(#[trigger] bit(m, j)),
{
}

/// Setting a fresh bit at lane `i` adds one escape below every lane above
/// `i` and none below the lanes up to it.
pub proof fn lemma_escapes_below_set(m: u16, i: u16, k: int)
    requires
        i < 14,
        m < 16384,
        !bit(m, i),
        k <= 16,
    ensures
        escapes_below(m | (1u16 << i), k) == escapes_below(m, k) + if i < k {
            1nat
        } else {
            0nat
        },
    decreases k,
{
    lemma_set_bit(m, i);
    if k > 0 {
        lemma_escapes_below_set(m, i, k - 1);
    }
}

/// No escape begins in `[a, b)`, so the count below `b` equals the count
/// below `a`.
pub proof fn lemma_escapes_below_none(m: u16, a: int, b: int)
    requires
        0 <= a <= b <= 16,
        forall|j: u16| a <= j < b ==> !(#[trigger] bit(m, j)),
    ensures
        escapes_below(m, b) == escapes_below(m, a),
    decreases b - a,
{
    if b > a {
        lemma_escapes_below_none(m, a, b - 1);
    }
}

/// In a well-spaced bitmap, escapes begin at least three lanes apart, so at
/// most `(k + 2) / 3` of them begin below lane `k`.
proof fn lemma_spacing_bound(m: u16, k: int)
    requires
        well_spaced(m),
        0 <= k <= 16,
    ensures
        3 * escapes_below(m, k) <= k + 2,
    decreases k,
{
    if k == 0 {
    } else if bit(m, (k - 1) as u16) {
        if k >= 3 {
            assert(!bit(m, (k - 2) as u16)) by {
                if bit(m, (k - 2) as u16) {
                    if k - 2 < 14 {
                        assert(!bit(m, (k - 1) as u16));
                    } else {
                        lemma_high_bits_clear(m);
                    }
                }
            }
            assert(!bit(m, (k - 3) as u16)) by {
                if bit(m, (k - 3) as u16) {
                    if k - 3 < 14 {
                        assert(!bit(m, (k - 1) as u16));
                    } else {
                        lemma_high_bits_clear(m);
                    }
                }
            }
            lemma_spacing_bound(m, k - 3);
            assert(escapes_below(m, k) == escapes_below(m, k - 1) + 1);
            assert(escapes_below(m, k - 1) == escapes_below(m, k - 2));
            assert(escapes_below(m, k - 2) == escapes_below(m, k - 3));
        } else if k == 2 {
            assert(!bit(m, 0u16)) by {
                if bit(m, 0u16) {
                    assert(!bit(m, 1u16));
                }
            }
            assert(escapes_below(m, 2) == escapes_below(m, 1) + 1);
            assert(escapes_below(m, 1) == escapes_below(m, 0));
        } else {
            assert(escapes_below(m, 1) == escapes_below(m, 0) + 1);
        }
    } else {
        lemma_spacing_bound(m, k - 1);
        assert(escapes_below(m, k) == escapes_below(m, k - 1));
    }
}

/// At a kept lane of a well-spaced bitmap, at most a third of the lanes
/// below have begun an escape; in particular the output position
/// `i - 2*escapes_below(m, i)` is in range.
pub proof fn lemma_kept_bound(m: u16, i: int)
    requires
        well_spaced(m),
        kept(m, i),
        0 <= i <= 16,
    ensures
        3 * escapes_below(m, i) <= i,
{
    if i >= 2 {
        lemma_spacing_bound(m, i - 2);
        assert(escapes_below(m, i) == escapes_below(m, i - 1));
        assert(escapes_below(m, i - 1) == escapes_below(m, i - 2));
    } else if i == 1 {
        assert(escapes_below(m, 1) == escapes_below(m, 0));
    }
}

/// The compaction table: entry `m` (one per escape bitmap over the leading
/// 14 lanes) holds the 16 per-lane offsets that compact a block whose
/// validated escapes are the set bits of `m`.
pub struct CompactionTable {
    /// The 16384 entries of 16 offsets each, stored back to back.
    pub data: Vec<u8>,
}

impl CompactionTable {
    /// The table is complete and correct: for every well-spaced bitmap and
    /// every kept lane, the stored offset moves that lane's byte left by
    /// twice the number of escapes begun before it.
    pub open spec fn wf(self) -> bool {
        self.data@.len() == 16384 * 16 && forall|m: u16, i: int|
            #![trigger well_spaced(m), kept(m, i)]
            m < 16384 && well_spaced(m) && 0 <= i < 16 && kept(m, i) ==> 0 <= i - 2
                * escapes_below(m, i) < 16 && lane_ok(self.data@, m as int * 16, m, i)
    }

    /// Build the table by simulating every bitmap lane by lane: a running
    /// junk count grows by two at each escape, and each kept lane records
    /// the count as its offset.
    #[verifier::loop_isolation(false)]
    pub fn new() -> (t: CompactionTable)
        ensures
            t.wf(),
    {
        let mut data: Vec<u8> = Vec::new();
        let mut m: u16 = 0;
        while m < 16384
            invariant
                m <= 16384,
                data@.len() == m as int * 16,
                forall|m2: u16, i2: int|
                    #![trigger well_spaced(m2), kept(m2, i2)]
                    m2 < m && well_spaced(m2) && 0 <= i2 < 16 && kept(m2, i2) ==> 0 <= i2 - 2
                        * escapes_below(m2, i2) < 16 && lane_ok(data@, m2 as int * 16, m2, i2),
            decreases 16384 - m,
        {
            let mut entry: Vec<u8> = Vec::new();
            let mut i: usize = 0;
            let mut j: usize = 0;
            let mut junk: u8 = 0;
            while i < 16
                invariant
                    i <= 16,
                    j <= i,
                    junk == i - j,
                    entry@.len() == j,
                    well_spaced(m) ==> junk == 2 * escapes_below(m, i as int),
                    well_spaced(m) ==> kept(m, i as int),
                    well_spaced(m) ==> forall|i2: int|
                        0 <= i2 < i && #[trigger] kept(m, i2) ==> 0 <= i2 - 2 * escapes_below(
                            m,
                            i2,
                        ) < j && lane_ok(entry@, 0, m, i2),
                decreases 16 - i,
            {
                if (m >> (i as u16)) & 1u16 == 1u16 {
                    proof {
                        lemma_high_bits_clear(m);
                        assert(bit(m, i as u16));
                        assert(i < 14);
                        if well_spaced(m) {
                            assert(!bit(m, (i + 1) as u16) && !bit(m, (i + 2) as u16));
                            assert(escapes_below(m, i + 1) == escapes_below(m, i as int) + 1);
                            assert(escapes_below(m, i + 2) == escapes_below(m, i + 1));
                            assert(escapes_below(m, i + 3) == escapes_below(m, i + 2));
                        }
                    }
                    entry.push(junk);
                    junk = junk + 2;
                    j = j + 1;
                    i = i + 3;
                } else {
                    proof {
                        assert(!bit(m, i as u16));
                    }
                    entry.push(junk);
                    j = j + 1;
                    i = i + 1;
                }
            }
            let ghost j_done = j as int;
            while j < 16
                invariant
                    j <= 16,
                    j_done <= j,
                    entry@.len() == j,
                    well_spaced(m) ==> forall|i2: int|
                        0 <= i2 < 16 && #[trigger] kept(m, i2) ==> 0 <= i2 - 2 * escapes_below(
                            m,
                            i2,
                        ) < j_done && lane_ok(entry@, 0, m, i2),
                decreases 16 - j,
            {
                entry.push(junk);
                j = j + 1;
            }
            let ghost data_before = data@;
            let ghost entry_seq = entry@;
            data.append(&mut entry);
            proof {
                assert forall|m2: u16, i2: int|
                    m2 < m + 1 && #[trigger] well_spaced(m2) && 0 <= i2 < 16 && #[trigger] kept(
                        m2,
                        i2,
                    ) implies 0 <= i2 - 2 * escapes_below(m2, i2) < 16 && lane_ok(
                    data@,
                    m2 as int * 16,
                    m2,
                    i2,
                ) by {
                    if m2 < m {
                        assert(lane_ok(data_before, m2 as int * 16, m2, i2));
                        assert(data@[m2 as int * 16 + i2 - 2 * escapes_below(m2, i2)]
                            == data_before[m2 as int * 16 + i2 - 2 * escapes_below(m2, i2)]);
                    } else {
                        assert(lane_ok(entry_seq, 0, m2, i2));
                        assert(data@[m as int * 16 + i2 - 2 * escapes_below(m2, i2)]
                            == entry_seq[i2 - 2 * escapes_below(m2, i2)]);
                    }
                }
            }
            m = m + 1;
        }
        CompactionTable { data }
    }
}

} // verus!
