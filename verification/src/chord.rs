//! Identifiers on a Chord ring: the ring of `2^ring_bits` identifiers,
//! walked clockwise.

use vstd::arithmetic::power2::{lemma2_to64, lemma_pow2_strictly_increases, lemma_pow2_unfold, pow2};
use vstd::prelude::*;

verus! {

/// An identifier of a node in Chord.
pub type ChordId = u128;

/// Number of identifiers on a ring of `ring_bits` bits; all of `u128` for
/// 128 bits and more.
pub open spec fn ring_size(ring_bits: usize) -> nat {
    if ring_bits >= 128 {
        (u128::MAX + 1) as nat
    } else {
        pow2(ring_bits as nat)
    }
}

/// `2^128` is the number of values of `u128`, and a smaller power is smaller.
pub proof fn lemma_ring_size(ring_bits: usize)
    ensures
        1 <= ring_size(ring_bits) <= u128::MAX + 1,
        ring_bits < 128 ==> ring_size(ring_bits) <= 0x8000_0000_0000_0000_0000_0000_0000_0000,
{
    lemma_pow2_128();
    if ring_bits < 128 {
        vstd::arithmetic::power2::lemma_pow2_pos(ring_bits as nat);
        if ring_bits < 127 {
            lemma_pow2_strictly_increases(ring_bits as nat, 127);
        }
    }
}

/// The values of the two largest powers of two that matter here.
proof fn lemma_pow2_128()
    ensures
        pow2(127) == 0x8000_0000_0000_0000_0000_0000_0000_0000,
        pow2(128) == u128::MAX + 1,
{
    lemma2_to64();
    vstd::arithmetic::power2::lemma2_to64_rest();
    vstd::arithmetic::power2::lemma_pow2_adds(64, 63);
    vstd::arithmetic::power2::lemma_pow2_adds(64, 64);
    assert(pow2(63) == 0x8000_0000_0000_0000);
    assert(pow2(64) == 0x1_0000_0000_0000_0000);
    assert(0x1_0000_0000_0000_0000 * 0x8000_0000_0000_0000
        == 0x8000_0000_0000_0000_0000_0000_0000_0000) by (nonlinear_arith);
    assert(0x1_0000_0000_0000_0000int * 0x1_0000_0000_0000_0000int == u128::MAX + 1)
        by (nonlinear_arith);
}

/// Returns the minimal Chord identifier value for a given number of bits.
pub fn chord_id_min(_ring_bits: usize) -> (r: ChordId)
    ensures
        r == 0,
{
    0
}

/// Returns the maximal Chord identifier value for a given number of bits.
pub fn chord_id_max(ring_bits: usize) -> (r: ChordId)
    ensures
        r == ring_size(ring_bits) - 1,
{
    if ring_bits >= 128 {
        return u128::MAX;
    }
    let mut r: u128 = 0;
    let mut i: usize = 0;
    proof {
        lemma2_to64();
    }
    while i < ring_bits
        invariant
            i <= ring_bits < 128,
            r == pow2(i as nat) - 1,
        decreases ring_bits - i,
    {
        proof {
            lemma_pow2_unfold((i + 1) as nat);
            lemma_ring_size((i + 1) as usize);
        }
        r = r * 2 + 1;
        i = i + 1;
    }
    r
}

/// `base` moved clockwise by `delta`, on the ring.
pub open spec fn spec_advance_by(ring_bits: usize, base: ChordId, delta: ChordId) -> ChordId {
    let sum = if base + delta > u128::MAX {
        base + delta - (u128::MAX + 1)
    } else {
        base + delta
    };
    (sum % (ring_size(ring_bits) as int)) as u128
}

/// Returns a given chord identifier incremented by a given delta clockwise
/// in the identifier (ring) space with a given number of bits.
pub fn chord_id_advance_by(ring_bits: usize, base: &ChordId, delta: &ChordId) -> (r: ChordId)
    ensures
        r == spec_advance_by(ring_bits, *base, *delta),
{
    let sum = base.wrapping_add(*delta);
    let max = chord_id_max(ring_bits);
    proof {
        lemma_ring_size(ring_bits);
    }
    if max == u128::MAX {
        proof {
            vstd::arithmetic::div_mod::lemma_small_mod(sum as nat, ring_size(ring_bits));
        }
        sum
    } else {
        sum % (max + 1)
    }
}

/// How far clockwise `to` lies from `from`, on the ring.
pub open spec fn spec_distance(ring_bits: usize, from: ChordId, to: ChordId) -> ChordId {
    if to >= from {
        (to - from) as u128
    } else {
        (ring_size(ring_bits) - from + to) as u128
    }
}

/// Computes the distance between two Chord identifiers in the clockwise
/// direction in the identifier (ring) space with a given number of bits.
/// Both identifiers lie on the ring.
pub fn chord_id_distance(ring_bits: usize, from: &ChordId, to: &ChordId) -> (r: ChordId)
    requires
        *from < ring_size(ring_bits),
        *to < ring_size(ring_bits),
    ensures
        r == spec_distance(ring_bits, *from, *to),
        r < ring_size(ring_bits),
{
    if *to >= *from {
        *to - *from
    } else {
        (chord_id_max(ring_bits) - *from) + (*to - chord_id_min(ring_bits)) + 1
    }
}

/// One end of a range of identifiers.
#[derive(Debug, Clone, Copy, PartialEq, Eq, Structural)]
pub enum RingBound {
    Included(ChordId),
    Excluded(ChordId),
}

impl RingBound {
    /// The identifier at which the bound stands.
    pub open spec fn at(self) -> ChordId {
        match self {
            RingBound::Included(b) => b,
            RingBound::Excluded(b) => b,
        }
    }
}

/// Whether `id` lies behind the start of a range that does not wrap around.
pub open spec fn after_start(id: ChordId, start: RingBound) -> bool {
    match start {
        RingBound::Included(sb) => id >= sb,
        RingBound::Excluded(sb) => id > sb,
    }
}

/// Whether `id` lies before the end of a range that does not wrap around.
pub open spec fn before_end(id: ChordId, end: RingBound) -> bool {
    match end {
        RingBound::Included(eb) => id <= eb,
        RingBound::Excluded(eb) => id < eb,
    }
}

/// Whether `id` lies in the range from `start` clockwise to `end`. A range
/// whose ends stand at one identifier is that identifier where both are
/// included, the whole ring where only the end is, and empty where only the
/// start is.
pub open spec fn spec_in_range(ring_bits: usize, id: ChordId, start: RingBound, end: RingBound)
    -> bool {
    if start.at() == end.at() {
        match (start, end) {
            (RingBound::Included(sb), RingBound::Included(_)) => id == sb,
            (RingBound::Included(_), RingBound::Excluded(_)) => false,
            (RingBound::Excluded(_), _) => true,
        }
    } else if start.at() < end.at() {
        after_start(id, start) && before_end(id, end)
    } else {
        (after_start(id, start) && id <= ring_size(ring_bits) - 1) || before_end(id, end)
    }
}

/// Checks if a given identifier falls within a given range of Chord
/// identifiers, where the range is interpreted clockwise in the identifier
/// (ring) space with a given number of bits. A range with both ends
/// excluded at one identifier is not accepted.
pub fn chord_id_in_range(ring_bits: usize, id: &ChordId, start: RingBound, end: RingBound) -> (r:
    bool)
    requires
        !(start is Excluded && end is Excluded && start.at() == end.at()),
    ensures
        r == spec_in_range(ring_bits, *id, start, end),
{
    let id = *id;
    let max = chord_id_max(ring_bits);
    let min = chord_id_min(ring_bits);
    match start {
        RingBound::Included(sb) => match end {
            RingBound::Included(eb) => {
                if sb == eb {
                    id == sb
                } else if sb < eb {
                    id >= sb && id <= eb
                } else {
                    (id >= sb && id <= max) || (id >= min && id <= eb)
                }
            },
            RingBound::Excluded(eb) => {
                if sb == eb {
                    false
                } else if sb < eb {
                    id >= sb && id < eb
                } else {
                    (id >= sb && id <= max) || (id >= min && id < eb)
                }
            },
        },
        RingBound::Excluded(sb) => match end {
            RingBound::Included(eb) => {
                if sb == eb {
                    true
                } else if sb < eb {
                    id > sb && id <= eb
                } else {
                    (id > sb && id <= max) || (id >= min && id <= eb)
                }
            },
            RingBound::Excluded(eb) => {
                if sb < eb {
                    id > sb && id < eb
                } else {
                    (id > sb && id <= max) || (id >= min && id < eb)
                }
            },
        },
    }
}

/// On the ring, an identifier lies in the range from `start`, included, to
/// another identifier `end`, excluded, exactly if it is nearer to `start`
/// clockwise than `end` is.
pub proof fn lemma_in_range_is_nearer(ring_bits: usize, id: ChordId, start: ChordId, end: ChordId)
    requires
        id < ring_size(ring_bits),
        start < ring_size(ring_bits),
        end < ring_size(ring_bits),
        start != end,
    ensures
        spec_in_range(ring_bits, id, RingBound::Included(start), RingBound::Excluded(end))
            <==> spec_distance(ring_bits, start, id) < spec_distance(ring_bits, start, end),
{
    lemma_ring_size(ring_bits);
}

/// Moving clockwise by the distance leads from one identifier of the ring to
/// the other.
pub proof fn lemma_advance_by_distance(ring_bits: usize, from: ChordId, to: ChordId)
    requires
        from < ring_size(ring_bits),
        to < ring_size(ring_bits),
    ensures
        spec_advance_by(ring_bits, from, spec_distance(ring_bits, from, to)) == to,
{
    lemma_ring_size(ring_bits);
    let n = ring_size(ring_bits) as int;
    let d = spec_distance(ring_bits, from, to) as int;
    vstd::arithmetic::div_mod::lemma_small_mod(to as nat, n as nat);
    if to >= from {
        assert(from + d == to);
    } else {
        assert(from + d == n + to);
        if n != u128::MAX + 1 {
            vstd::arithmetic::div_mod::lemma_mod_add_multiples_vanish(to as int, n);
        }
    }
}

} // verus!
