//! The outcome reducer: partition refinement over the 20-bit outcome domain.
//!
//! A bet's acceptance pattern is a mask with one nibble per arena: the full
//! nibble where the bet leaves the arena open (any competitor satisfies it),
//! or exactly the chosen competitor's bit. A mask is "doable" when every
//! arena keeps at least one accepting bit. The reducer turns a weighted bet
//! list into a map from doable region masks to payouts such that the regions
//! split the space of concrete winner combinations exactly, and each
//! region's payout is the sum of the winnings of the bets its outcomes
//! satisfy.

use vstd::prelude::*;

use crate::math::nib;
use crate::math::nib_of_pick;
use crate::math::valid_sel;

verus! {

/// Every arena's nibble keeps at least one accepting bit.
pub open spec fn doable(m: u32) -> bool {
    forall|a: int| 0 <= a < 5 ==> nib(m, a) != 0
}

/// A nibble with exactly one bit set: one concrete competitor.
pub open spec fn single_bit_nib(n: u32) -> bool {
    n == 1 || n == 2 || n == 4 || n == 8
}

/// A concrete winner combination: one competitor bit per arena.
pub open spec fn outcome(w: u32) -> bool {
    forall|a: int| 0 <= a < 5 ==> single_bit_nib(#[trigger] nib(w, a))
}

/// The region `r` accepts the outcome `w`: in every arena, `w`'s winner bit
/// is among `r`'s accepted bits.
pub open spec fn hits(r: u32, w: u32) -> bool {
    forall|a: int| 0 <= a < 5 ==> nib(r, a) & nib(w, a) != 0
}

/// The cross-arena template for pick `p`: every arena open for 0, else the
/// chosen position's bit in every arena.
pub open spec fn spec_convert_pir_ib(p: u8) -> u32 {
    if p == 0 {
        0xFFFFF
    } else if p == 1 {
        0x88888
    } else if p == 2 {
        0x44444
    } else if p == 3 {
        0x22222
    } else {
        0x11111
    }
}

/// The mask isolating arena `a`'s nibble.
pub open spec fn spec_arena_mask(a: int) -> u32 {
    if a == 0 {
        0xF0000
    } else if a == 1 {
        0xF000
    } else if a == 2 {
        0xF00
    } else if a == 3 {
        0xF0
    } else {
        0xF
    }
}

/// What a bet accepts in one arena: everything, or one competitor's bit.
pub open spec fn accept_nib(p: u8) -> u32 {
    if p == 0 {
        0xF
    } else {
        nib_of_pick(p)
    }
}

/// A bet's acceptance pattern, arena by arena.
pub open spec fn bet_pattern(s: Seq<u8>) -> u32
    decreases s.len(),
{
    if s.len() == 0 {
        0
    } else {
        bet_pattern(s.drop_last()) | (spec_convert_pir_ib(s.last()) & spec_arena_mask(
            s.len() - 1,
        ))
    }
}

/// The total winnings the outcome `w` collects from a bet list: the sum of
/// the odds of every bet whose pattern accepts `w`.
pub open spec fn total_payout(bets: Seq<[u8; 5]>, odds: Seq<u32>, w: u32) -> int
    decreases bets.len(),
{
    if bets.len() == 0 {
        0
    } else {
        total_payout(bets.drop_last(), odds.drop_last(), w) + (if hits(
            bet_pattern(bets.last()@),
            w,
        ) {
            odds[bets.len() - 1] as int
        } else {
            0
        })
    }
}

/// The sum of a winnings list.
pub open spec fn sum_odds(odds: Seq<u32>) -> int
    decreases odds.len(),
{
    if odds.len() == 0 {
        0
    } else {
        sum_odds(odds.drop_last()) + odds.last()
    }
}

/// The payout the outcome `w` collects from a (pattern, winnings) list.
pub open spec fn pat_payout(m: Seq<(u32, u32)>, w: u32) -> int
    decreases m.len(),
{
    if m.len() == 0 {
        0
    } else {
        pat_payout(m.drop_last(), w) + (if hits(m.last().0, w) {
            m.last().1 as int
        } else {
            0
        })
    }
}

/// The sum of all stored winnings.
pub open spec fn sum_vals(m: Seq<(u32, u32)>) -> int
    decreases m.len(),
{
    if m.len() == 0 {
        0
    } else {
        sum_vals(m.drop_last()) + m.last().1
    }
}

/// All region masks of the map are doable.
pub open spec fn all_doable(m: Seq<(u32, u32)>) -> bool {
    forall|k: int| 0 <= k < m.len() ==> doable(#[trigger] m[k].0)
}

/// No two entries share a region mask.
pub open spec fn keys_unique(m: Seq<(u32, u32)>) -> bool {
    forall|k: int, l: int| 0 <= k < l < m.len() ==> m[k].0 != m[l].0
}

/// Some region accepts the outcome `w`.
pub open spec fn covers(m: Seq<(u32, u32)>, w: u32) -> bool {
    exists|k: int| 0 <= k < m.len() && hits(#[trigger] m[k].0, w)
}

/// No two regions accept the outcome `w`.
pub open spec fn disjoint_at(m: Seq<(u32, u32)>, w: u32) -> bool {
    forall|k: int, l: int|
        0 <= k < l < m.len() ==> !(hits(#[trigger] m[k].0, w) && hits(#[trigger] m[l].0, w))
}

/// Every outcome is accepted by some region.
pub open spec fn covers_all(m: Seq<(u32, u32)>) -> bool {
    forall|w: u32| outcome(w) ==> covers(m, w)
}

/// No outcome is accepted by two regions.
pub open spec fn disjoint_all(m: Seq<(u32, u32)>) -> bool {
    forall|w: u32| outcome(w) ==> disjoint_at(m, w)
}

/// The mask appears among the map's keys.
pub open spec fn key_present(m: Seq<(u32, u32)>, key: u32) -> bool {
    exists|k: int| 0 <= k < m.len() && #[trigger] m[k].0 == key
}

// ---------------------------------------------------------------------------
// Nibble-level facts, proved by bit blasting once and reused everywhere.
// ---------------------------------------------------------------------------

/// Bitwise AND distributes over the five nibbles.
proof fn lemma_nib_and(x: u32, y: u32)
    ensures
        forall|a: int| 0 <= a < 5 ==> nib(x & y, a) == (nib(x, a) & nib(y, a)),
{
    assert(nib(x & y, 0) == (nib(x, 0) & nib(y, 0)) && nib(x & y, 1) == (nib(x, 1) & nib(y, 1))
        && nib(x & y, 2) == (nib(x, 2) & nib(y, 2)) && nib(x & y, 3) == (nib(x, 3) & nib(y, 3))
        && nib(x & y, 4) == (nib(x, 4) & nib(y, 4))) by (bit_vector);
}

/// Membership facts for a single winner bit against a pattern intersection
/// and against the leftover of an intersection, at nibble level.
proof fn lemma_nib_facts(b: u32, d: u32, p: u32)
    by (bit_vector)
    requires
        b == 1 || b == 2 || b == 4 || b == 8,
    ensures
        (b & (p & d) != 0) <==> ((b & p != 0) && (b & d != 0)),
        ((p & d) & b != 0) <==> ((p & b != 0) && (d & b != 0)),
        (b & (d ^ (p & d)) != 0) <==> ((b & d != 0) && (b & p == 0)),
        ((d ^ (p & d)) & b != 0) <==> ((d & b != 0) && (p & b == 0)),
        (b & p != 0) <==> (p & b != 0),
        (b & d != 0) <==> (d & b != 0),
        b & 0xF != 0,
        0xF & b != 0,
        b & 0xFFFFF != 0,
        0xFFFFF & b != 0,
        0u32 & b == 0,
        b & 0u32 == 0,
        b & b != 0,
        ((d ^ (p & d)) == 0) ==> ((p & d) == d),
{
}

/// An intersection accepts an outcome exactly when both operands do.
proof fn lemma_hits_and(x: u32, y: u32, w: u32)
    requires
        outcome(w),
    ensures
        hits(x & y, w) <==> (hits(x, w) && hits(y, w)),
{
    lemma_nib_and(x, y);
    assert forall|a: int| 0 <= a < 5 implies ((nib(x & y, a) & nib(w, a) != 0) <==> (nib(x, a)
        & nib(w, a) != 0 && nib(y, a) & nib(w, a) != 0)) by {
        lemma_nib_facts(nib(w, a), nib(y, a), nib(x, a));
    }
}

/// A mask that accepts some outcome is doable.
proof fn lemma_hits_doable(m: u32, w: u32)
    requires
        outcome(w),
        hits(m, w),
    ensures
        doable(m),
{
    assert forall|a: int| 0 <= a < 5 implies nib(m, a) != 0 by {
        lemma_nib_facts(nib(w, a), nib(m, a), nib(m, a));
        if nib(m, a) == 0 {
            assert(0u32 & nib(w, a) == 0);
        }
    }
}

proof fn lemma_contains_push(s: Seq<u32>, e: u32, x: u32)
    ensures
        s.push(e).contains(x) <==> (s.contains(x) || x == e),
{
    if s.contains(x) {
        let j = choose|j: int| 0 <= j < s.len() && s[j] == x;
        assert(s.push(e)[j] == x);
    }
    if x == e {
        assert(s.push(e)[s.len() as int] == x);
    }
    if s.push(e).contains(x) {
        let j = choose|j: int| 0 <= j < s.push(e).len() && s.push(e)[j] == x;
        if j < s.len() {
            assert(s[j] == x);
        }
    }
}

/// How replacing one arena's nibble rewrites the five nibbles: both for the
/// blended key and for the XOR leftover of that arena.
proof fn lemma_nib_mix(k: u32, c: u32, i: int)
    requires
        0 <= i < 5,
    ensures
        forall|a: int|
            0 <= a < 5 ==> nib((k & !spec_arena_mask(i)) | (c & spec_arena_mask(i)), a) == (if a
                == i {
                nib(c, a)
            } else {
                nib(k, a)
            }),
        forall|a: int|
            0 <= a < 5 ==> nib(k ^ (c & spec_arena_mask(i)), a) == (if a == i {
                nib(k, a) ^ nib(c, a)
            } else {
                nib(k, a)
            }),
{
    if i == 0 {
        assert(nib((k & !0xF0000u32) | (c & 0xF0000), 0) == nib(c, 0) && nib(
            (k & !0xF0000u32) | (c & 0xF0000),
            1,
        ) == nib(k, 1) && nib((k & !0xF0000u32) | (c & 0xF0000), 2) == nib(k, 2) && nib(
            (k & !0xF0000u32) | (c & 0xF0000),
            3,
        ) == nib(k, 3) && nib((k & !0xF0000u32) | (c & 0xF0000), 4) == nib(k, 4) && nib(
            k ^ (c & 0xF0000),
            0,
        ) == (nib(k, 0) ^ nib(c, 0)) && nib(k ^ (c & 0xF0000), 1) == nib(k, 1) && nib(
            k ^ (c & 0xF0000),
            2,
        ) == nib(k, 2) && nib(k ^ (c & 0xF0000), 3) == nib(k, 3) && nib(k ^ (c & 0xF0000), 4)
            == nib(k, 4)) by (bit_vector);
    } else if i == 1 {
        assert(nib((k & !0xF000u32) | (c & 0xF000), 1) == nib(c, 1) && nib(
            (k & !0xF000u32) | (c & 0xF000),
            0,
        ) == nib(k, 0) && nib((k & !0xF000u32) | (c & 0xF000), 2) == nib(k, 2) && nib(
            (k & !0xF000u32) | (c & 0xF000),
            3,
        ) == nib(k, 3) && nib((k & !0xF000u32) | (c & 0xF000), 4) == nib(k, 4) && nib(
            k ^ (c & 0xF000),
            1,
        ) == (nib(k, 1) ^ nib(c, 1)) && nib(k ^ (c & 0xF000), 0) == nib(k, 0) && nib(
            k ^ (c & 0xF000),
            2,
        ) == nib(k, 2) && nib(k ^ (c & 0xF000), 3) == nib(k, 3) && nib(k ^ (c & 0xF000), 4) == nib(
            k,
            4,
        )) by (bit_vector);
    } else if i == 2 {
        assert(nib((k & !0xF00u32) | (c & 0xF00), 2) == nib(c, 2) && nib(
            (k & !0xF00u32) | (c & 0xF00),
            0,
        ) == nib(k, 0) && nib((k & !0xF00u32) | (c & 0xF00), 1) == nib(k, 1) && nib(
            (k & !0xF00u32) | (c & 0xF00),
            3,
        ) == nib(k, 3) && nib((k & !0xF00u32) | (c & 0xF00), 4) == nib(k, 4) && nib(
            k ^ (c & 0xF00),
            2,
        ) == (nib(k, 2) ^ nib(c, 2)) && nib(k ^ (c & 0xF00), 0) == nib(k, 0) && nib(
            k ^ (c & 0xF00),
            1,
        ) == nib(k, 1) && nib(k ^ (c & 0xF00), 3) == nib(k, 3) && nib(k ^ (c & 0xF00), 4) == nib(
            k,
            4,
        )) by (bit_vector);
    } else if i == 3 {
        assert(nib((k & !0xF0u32) | (c & 0xF0), 3) == nib(c, 3) && nib(
            (k & !0xF0u32) | (c & 0xF0),
            0,
        ) == nib(k, 0) && nib((k & !0xF0u32) | (c & 0xF0), 1) == nib(k, 1) && nib(
            (k & !0xF0u32) | (c & 0xF0),
            2,
        ) == nib(k, 2) && nib((k & !0xF0u32) | (c & 0xF0), 4) == nib(k, 4) && nib(
            k ^ (c & 0xF0),
            3,
        ) == (nib(k, 3) ^ nib(c, 3)) && nib(k ^ (c & 0xF0), 0) == nib(k, 0) && nib(
            k ^ (c & 0xF0),
            1,
        ) == nib(k, 1) && nib(k ^ (c & 0xF0), 2) == nib(k, 2) && nib(k ^ (c & 0xF0), 4) == nib(
            k,
            4,
        )) by (bit_vector);
    } else {
        assert(nib((k & !0xFu32) | (c & 0xF), 4) == nib(c, 4) && nib((k & !0xFu32) | (c & 0xF), 0)
            == nib(k, 0) && nib((k & !0xFu32) | (c & 0xF), 1) == nib(k, 1) && nib(
            (k & !0xFu32) | (c & 0xF),
            2,
        ) == nib(k, 2) && nib((k & !0xFu32) | (c & 0xF), 3) == nib(k, 3) && nib(
            k ^ (c & 0xF),
            4,
        ) == (nib(k, 4) ^ nib(c, 4)) && nib(k ^ (c & 0xF), 0) == nib(k, 0) && nib(
            k ^ (c & 0xF),
            1,
        ) == nib(k, 1) && nib(k ^ (c & 0xF), 2) == nib(k, 2) && nib(k ^ (c & 0xF), 3) == nib(
            k,
            3,
        )) by (bit_vector);
    }
}

/// An accepted outcome built from the lowest accepting bit of each arena.
pub open spec fn low_bit(n: u32) -> u32 {
    if n & 1 != 0 {
        1
    } else if n & 2 != 0 {
        2
    } else if n & 4 != 0 {
        4
    } else {
        8
    }
}

/// A canonical outcome accepted by a doable mask.
pub open spec fn witness_of(m: u32) -> u32 {
    (low_bit(nib(m, 0)) << 16) | (low_bit(nib(m, 1)) << 12) | (low_bit(nib(m, 2)) << 8) | (low_bit(
        nib(m, 3),
    ) << 4) | low_bit(nib(m, 4))
}

/// Every doable mask accepts at least one outcome.
proof fn lemma_witness(m: u32)
    requires
        doable(m),
    ensures
        outcome(witness_of(m)),
        hits(m, witness_of(m)),
{
    assert((nib(m, 0) != 0 && nib(m, 1) != 0 && nib(m, 2) != 0 && nib(m, 3) != 0 && nib(m, 4) != 0)
        ==> (single_bit_nib(nib(witness_of(m), 0)) && single_bit_nib(nib(witness_of(m), 1))
        && single_bit_nib(nib(witness_of(m), 2)) && single_bit_nib(nib(witness_of(m), 3))
        && single_bit_nib(nib(witness_of(m), 4)) && nib(m, 0) & nib(witness_of(m), 0) != 0 && nib(
        m,
        1,
    ) & nib(witness_of(m), 1) != 0 && nib(m, 2) & nib(witness_of(m), 2) != 0 && nib(m, 3) & nib(
        witness_of(m),
        3,
    ) != 0 && nib(m, 4) & nib(witness_of(m), 4) != 0)) by (bit_vector);
    assert forall|a: int| 0 <= a < 5 implies single_bit_nib(#[trigger] nib(witness_of(m), a))
        && nib(m, a) & nib(witness_of(m), a) != 0 by {
    }
}

/// Every doable region accepts at least one concrete winner combination.
pub proof fn lemma_region_witness(m: u32)
    requires
        doable(m),
    ensures
        exists|w: u32| outcome(w) && #[trigger] hits(m, w),
{
    lemma_witness(m);
    assert(outcome(witness_of(m)) && hits(m, witness_of(m)));
}

/// A bet that picks exactly the winner of arena `a` and leaves every other
/// arena open accepts the outcome.
pub proof fn lemma_bet_pattern_accepts(s: Seq<u8>, w: u32, a: int, pos: u8)
    requires
        valid_sel(s),
        outcome(w),
        0 <= a < 5,
        1 <= pos <= 4,
        s[a] == pos,
        forall|aa: int| 0 <= aa < 5 && aa != a ==> s[aa] == 0,
        nib(w, a) == nib_of_pick(pos),
    ensures
        hits(bet_pattern(s), w),
{
    lemma_bet_pattern_nibs(s);
    assert forall|aa: int| 0 <= aa < 5 implies nib(bet_pattern(s), aa) & nib(w, aa) != 0 by {
        lemma_nib_facts(nib(w, aa), 0xF, 0xF);
        if aa == a {
            assert(nib(bet_pattern(s), aa) == nib_of_pick(pos));
        } else {
            assert(nib(bet_pattern(s), aa) == 0xF);
        }
    }
}

// ---------------------------------------------------------------------------
// Executable helpers.
// ---------------------------------------------------------------------------

/// Returns whether every arena of the mask keeps at least one accepting bit.
pub fn ib_doable(binary: u32) -> (r: bool)
    ensures
        r == doable(binary),
{
    let r = binary & 0xF0000 != 0 && binary & 0xF000 != 0 && binary & 0xF00 != 0 && binary & 0xF0
        != 0 && binary & 0xF != 0;
    proof {
        assert((binary & 0xF0000 != 0 == (nib(binary, 0) != 0)) && (binary & 0xF000 != 0 == (nib(
            binary,
            1,
        ) != 0)) && (binary & 0xF00 != 0 == (nib(binary, 2) != 0)) && (binary & 0xF0 != 0 == (nib(
            binary,
            3,
        ) != 0)) && (binary & 0xF != 0 == (nib(binary, 4) != 0))) by (bit_vector);
    }
    r
}

/// Returns the mask isolating arena `i`'s nibble.
fn arena_mask(i: usize) -> (r: u32)
    requires
        i < 5,
    ensures
        r == spec_arena_mask(i as int),
{
    if i == 0 {
        0xF0000
    } else if i == 1 {
        0xF000
    } else if i == 2 {
        0xF00
    } else if i == 3 {
        0xF0
    } else {
        0xF
    }
}

/// Returns the cross-arena template for one pick.
fn convert_pir_ib(p: u8) -> (r: u32)
    requires
        p <= 4,
    ensures
        r == spec_convert_pir_ib(p),
{
    if p == 0 {
        0xFFFFF
    } else if p == 1 {
        0x88888
    } else if p == 2 {
        0x44444
    } else if p == 3 {
        0x22222
    } else {
        0x11111
    }
}

/// Each arena's nibble of a bet's pattern accepts exactly what the bet
/// accepts there: everything where it has no pick, one bit where it has.
proof fn lemma_bet_pattern_nibs(s: Seq<u8>)
    requires
        valid_sel(s),
    ensures
        forall|a: int| 0 <= a < 5 ==> nib(bet_pattern(s), a) == accept_nib(s[a]),
        doable(bet_pattern(s)),
{
    let t0 = spec_convert_pir_ib(s[0]) & spec_arena_mask(0);
    let t1 = spec_convert_pir_ib(s[1]) & spec_arena_mask(1);
    let t2 = spec_convert_pir_ib(s[2]) & spec_arena_mask(2);
    let t3 = spec_convert_pir_ib(s[3]) & spec_arena_mask(3);
    let t4 = spec_convert_pir_ib(s[4]) & spec_arena_mask(4);
    let m = bet_pattern(s);
    let s4 = s.drop_last();
    let s3 = s4.drop_last();
    let s2 = s3.drop_last();
    let s1 = s2.drop_last();
    let s0 = s1.drop_last();
    assert(s0 =~= Seq::<u8>::empty());
    assert(bet_pattern(s0) == 0);
    assert(bet_pattern(s1) == 0u32 | t0);
    assert(bet_pattern(s2) == bet_pattern(s1) | t1);
    assert(bet_pattern(s3) == bet_pattern(s2) | t2);
    assert(bet_pattern(s4) == bet_pattern(s3) | t3);
    assert(m == ((((0u32 | t0) | t1) | t2) | t3) | t4);
    let i0 = s[0];
    let i1 = s[1];
    let i2 = s[2];
    let i3 = s[3];
    let i4 = s[4];
    assert forall|a: int| 0 <= a < 5 implies nib(m, a) == accept_nib(s[a]) by {
        assert(nib(
            ((((0u32 | (spec_convert_pir_ib(i0) & spec_arena_mask(0))) | (spec_convert_pir_ib(i1)
                & spec_arena_mask(1))) | (spec_convert_pir_ib(i2) & spec_arena_mask(2))) | (
            spec_convert_pir_ib(i3) & spec_arena_mask(3))) | (spec_convert_pir_ib(i4)
                & spec_arena_mask(4)),
            0,
        ) == accept_nib(i0) && nib(
            ((((0u32 | (spec_convert_pir_ib(i0) & spec_arena_mask(0))) | (spec_convert_pir_ib(i1)
                & spec_arena_mask(1))) | (spec_convert_pir_ib(i2) & spec_arena_mask(2))) | (
            spec_convert_pir_ib(i3) & spec_arena_mask(3))) | (spec_convert_pir_ib(i4)
                & spec_arena_mask(4)),
            1,
        ) == accept_nib(i1) && nib(
            ((((0u32 | (spec_convert_pir_ib(i0) & spec_arena_mask(0))) | (spec_convert_pir_ib(i1)
                & spec_arena_mask(1))) | (spec_convert_pir_ib(i2) & spec_arena_mask(2))) | (
            spec_convert_pir_ib(i3) & spec_arena_mask(3))) | (spec_convert_pir_ib(i4)
                & spec_arena_mask(4)),
            2,
        ) == accept_nib(i2) && nib(
            ((((0u32 | (spec_convert_pir_ib(i0) & spec_arena_mask(0))) | (spec_convert_pir_ib(i1)
                & spec_arena_mask(1))) | (spec_convert_pir_ib(i2) & spec_arena_mask(2))) | (
            spec_convert_pir_ib(i3) & spec_arena_mask(3))) | (spec_convert_pir_ib(i4)
                & spec_arena_mask(4)),
            3,
        ) == accept_nib(i3) && nib(
            ((((0u32 | (spec_convert_pir_ib(i0) & spec_arena_mask(0))) | (spec_convert_pir_ib(i1)
                & spec_arena_mask(1))) | (spec_convert_pir_ib(i2) & spec_arena_mask(2))) | (
            spec_convert_pir_ib(i3) & spec_arena_mask(3))) | (spec_convert_pir_ib(i4)
                & spec_arena_mask(4)),
            4,
        ) == accept_nib(i4)) by (bit_vector)
            requires
                i0 <= 4 && i1 <= 4 && i2 <= 4 && i3 <= 4 && i4 <= 4,
        ;
    }
}

/// Returns the acceptance pattern of one selection.
fn bet_pattern_of(sel: &[u8; 5]) -> (r: u32)
    requires
        valid_sel(sel@),
    ensures
        r == bet_pattern(sel@),
        doable(r),
{
    let mut acc: u32 = 0;
    let mut a: usize = 0;
    while a < 5
        invariant
            a <= 5,
            valid_sel(sel@),
            acc == bet_pattern(sel@.take(a as int)),
        decreases 5 - a,
    {
        proof {
            assert(sel@.take(a + 1).drop_last() =~= sel@.take(a as int));
            assert(sel@.take(a + 1).last() == sel@[a as int]);
        }
        acc = acc | (convert_pir_ib(sel[a]) & arena_mask(a));
        a = a + 1;
    }
    proof {
        assert(sel@.take(5) =~= sel@);
        lemma_bet_pattern_nibs(sel@);
    }
    acc
}

/// Returns the position of `key` among the map's keys.
fn find_key(res: &Vec<(u32, u32)>, key: u32) -> (idx: usize)
    requires
        key_present(res@, key),
    ensures
        idx < res@.len(),
        res@[idx as int].0 == key,
{
    let mut i: usize = 0;
    while i < res.len()
        invariant
            i <= res@.len(),
            key_present(res@, key),
            forall|k: int| 0 <= k < i ==> res@[k].0 != key,
        decreases res@.len() - i,
    {
        if res[i].0 == key {
            return i;
        }
        i = i + 1;
    }
    proof {
        let k = choose|k: int| 0 <= k < res@.len() && #[trigger] res@[k].0 == key;
        assert(false);
    }
    0
}

// ---------------------------------------------------------------------------
// Sum and payout bookkeeping over the working sequences.
// ---------------------------------------------------------------------------

pub proof fn lemma_sum_odds_take_step(odds: Seq<u32>, i: int)
    requires
        0 <= i < odds.len(),
    ensures
        sum_odds(odds.take(i + 1)) == sum_odds(odds.take(i)) + odds[i],
{
    assert(odds.take(i + 1).drop_last() =~= odds.take(i));
}

pub proof fn lemma_sum_odds_nonneg(odds: Seq<u32>)
    ensures
        sum_odds(odds) >= 0,
    decreases odds.len(),
{
    if odds.len() > 0 {
        lemma_sum_odds_nonneg(odds.drop_last());
    }
}

pub proof fn lemma_sum_odds_take_le(odds: Seq<u32>, i: int)
    requires
        0 <= i <= odds.len(),
    ensures
        sum_odds(odds.take(i)) <= sum_odds(odds),
    decreases odds.len() - i,
{
    if i == odds.len() {
        assert(odds.take(i) =~= odds);
    } else {
        lemma_sum_odds_take_step(odds, i);
        lemma_sum_odds_take_le(odds, i + 1);
    }
}

proof fn lemma_sum_vals_take_step(m: Seq<(u32, u32)>, b: int)
    requires
        0 <= b < m.len(),
    ensures
        sum_vals(m.take(b + 1)) == sum_vals(m.take(b)) + m[b].1,
{
    assert(m.take(b + 1).drop_last() =~= m.take(b));
}

proof fn lemma_sum_vals_take_le(m: Seq<(u32, u32)>, b: int)
    requires
        0 <= b <= m.len(),
    ensures
        sum_vals(m.take(b)) <= sum_vals(m),
    decreases m.len() - b,
{
    if b == m.len() {
        assert(m.take(b) =~= m);
    } else {
        lemma_sum_vals_take_step(m, b);
        lemma_sum_vals_take_le(m, b + 1);
    }
}

proof fn lemma_pat_payout_take_step(m: Seq<(u32, u32)>, b: int, w: u32)
    requires
        0 <= b < m.len(),
    ensures
        pat_payout(m.take(b + 1), w) == pat_payout(m.take(b), w) + (if hits(m[b].0, w) {
            m[b].1 as int
        } else {
            0
        }),
{
    assert(m.take(b + 1).drop_last() =~= m.take(b));
}

proof fn lemma_pat_payout_push(m: Seq<(u32, u32)>, e: (u32, u32), w: u32)
    ensures
        pat_payout(m.push(e), w) == pat_payout(m, w) + (if hits(e.0, w) {
            e.1 as int
        } else {
            0
        }),
{
    assert(m.push(e).drop_last() =~= m);
}

proof fn lemma_pat_payout_update(m: Seq<(u32, u32)>, j: int, v: u32, w: u32)
    requires
        0 <= j < m.len(),
    ensures
        pat_payout(m.update(j, (m[j].0, v)), w) == pat_payout(m, w) + (if hits(m[j].0, w) {
            v - m[j].1
        } else {
            0
        }),
    decreases m.len(),
{
    let m2 = m.update(j, (m[j].0, v));
    if j == m.len() - 1 {
        assert(m2.drop_last() =~= m.drop_last());
        assert(m2.last() == (m[j].0, v));
    } else {
        lemma_pat_payout_update(m.drop_last(), j, v, w);
        assert(m2.drop_last() =~= m.drop_last().update(j, (m.drop_last()[j].0, v)));
        assert(m2.last() == m.last());
    }
}

proof fn lemma_sum_vals_update(m: Seq<(u32, u32)>, j: int, v: u32)
    requires
        0 <= j < m.len(),
    ensures
        sum_vals(m.update(j, (m[j].0, v))) == sum_vals(m) + v - m[j].1,
    decreases m.len(),
{
    let m2 = m.update(j, (m[j].0, v));
    if j == m.len() - 1 {
        assert(m2.drop_last() =~= m.drop_last());
        assert(m2.last() == (m[j].0, v));
    } else {
        lemma_sum_vals_update(m.drop_last(), j, v);
        assert(m2.drop_last() =~= m.drop_last().update(j, (m.drop_last()[j].0, v)));
        assert(m2.last() == m.last());
    }
}

proof fn lemma_sum_vals_push(m: Seq<(u32, u32)>, e: (u32, u32))
    ensures
        sum_vals(m.push(e)) == sum_vals(m) + e.1,
{
    assert(m.push(e).drop_last() =~= m);
}

proof fn lemma_pat_payout_le_sum(m: Seq<(u32, u32)>, w: u32)
    ensures
        0 <= pat_payout(m, w) <= sum_vals(m),
    decreases m.len(),
{
    if m.len() > 0 {
        lemma_pat_payout_le_sum(m.drop_last(), w);
    }
}

proof fn lemma_total_payout_take_step(bets: Seq<[u8; 5]>, odds: Seq<u32>, i: int, w: u32)
    requires
        0 <= i < bets.len(),
        bets.len() == odds.len(),
    ensures
        total_payout(bets.take(i + 1), odds.take(i + 1), w) == total_payout(
            bets.take(i),
            odds.take(i),
            w,
        ) + (if hits(bet_pattern(bets[i]@), w) {
            odds[i] as int
        } else {
            0
        }),
{
    assert(bets.take(i + 1).drop_last() =~= bets.take(i));
    assert(odds.take(i + 1).drop_last() =~= odds.take(i));
}

// ---------------------------------------------------------------------------
// The reducer itself.
// ---------------------------------------------------------------------------

/// Region values in the middle of folding in bet `b` of the merged list
/// `ms`: regions whose key still waits in `rest` hold the payout before the
/// bet, every other region already holds the payout after it.
pub open spec fn drained_values_ok(
    res: Seq<(u32, u32)>,
    rest: Seq<u32>,
    ms: Seq<(u32, u32)>,
    b: int,
) -> bool {
    forall|k: int, w: u32|
        0 <= k < res.len() && outcome(w) && #[trigger] hits(res[k].0, w) ==> res[k].1 == (
        if rest.contains(res[k].0) {
            pat_payout(ms.take(b), w)
        } else {
            pat_payout(ms.take(b + 1), w)
        })
}

/// Merges the bet list into one weighted entry per distinct acceptance
/// pattern, summing the winnings of bets that share a pattern.
fn merge_bets(bets: &[[u8; 5]], bet_odds: &[u32]) -> (r: Vec<(u32, u32)>)
    requires
        bets@.len() == bet_odds@.len(),
        forall|k: int| 0 <= k < bets@.len() ==> valid_sel(#[trigger] bets@[k]@),
        sum_odds(bet_odds@) <= u32::MAX,
    ensures
        keys_unique(r@),
        all_doable(r@),
        sum_vals(r@) == sum_odds(bet_odds@),
        forall|w: u32|
            outcome(w) ==> pat_payout(r@, w) == total_payout(bets@, bet_odds@, w),
{
    let n = bets.len();
    let mut merged: Vec<(u32, u32)> = Vec::new();
    let mut i: usize = 0;
    while i < n
        invariant
            i <= n,
            n == bets@.len(),
            bets@.len() == bet_odds@.len(),
            forall|k: int| 0 <= k < bets@.len() ==> valid_sel(#[trigger] bets@[k]@),
            sum_odds(bet_odds@) <= u32::MAX,
            keys_unique(merged@),
            all_doable(merged@),
            sum_vals(merged@) == sum_odds(bet_odds@.take(i as int)),
            forall|w: u32|
                outcome(w) ==> pat_payout(merged@, w) == total_payout(
                    bets@.take(i as int),
                    bet_odds@.take(i as int),
                    w,
                ),
        decreases n - i,
    {
        let pat = bet_pattern_of(&bets[i]);
        let o = bet_odds[i];
        proof {
            lemma_sum_odds_take_step(bet_odds@, i as int);
            lemma_sum_odds_take_le(bet_odds@, i + 1);
            lemma_sum_odds_nonneg(bet_odds@.take(i as int));
        }
        let found = find_key_opt(&merged, pat);
        let ghost pre = merged@;
        if let Some(j) = found {
            let v = merged[j].1;
            proof {
                assert(v <= sum_vals(pre)) by {
                    lemma_val_le_sum(pre, j as int);
                }
            }
            merged[j] = (pat, v + o);
            proof {
                assert(merged@ =~= pre.update(j as int, (pre[j as int].0, (v + o) as u32)));
                assert(forall|k: int| 0 <= k < merged@.len() ==> merged@[k].0 == pre[k].0);
                lemma_sum_vals_update(pre, j as int, (v + o) as u32);
                assert forall|w: u32| outcome(w) implies pat_payout(merged@, w) == total_payout(
                    bets@.take(i + 1),
                    bet_odds@.take(i + 1),
                    w,
                ) by {
                    lemma_pat_payout_update(pre, j as int, (v + o) as u32, w);
                    lemma_total_payout_take_step(bets@, bet_odds@, i as int, w);
                }
            }
        } else {
            merged.push((pat, o));
            proof {
                assert(keys_unique(merged@)) by {
                    assert forall|k: int, l: int|
                        0 <= k < l < merged@.len() implies merged@[k].0 != merged@[l].0 by {
                        if l == merged@.len() - 1 {
                            assert(merged@[l].0 == pat);
                            assert(pre[k].0 != pat);
                        }
                    }
                }
                lemma_sum_vals_push(pre, (pat, o));
                assert forall|w: u32| outcome(w) implies pat_payout(merged@, w) == total_payout(
                    bets@.take(i + 1),
                    bet_odds@.take(i + 1),
                    w,
                ) by {
                    lemma_pat_payout_push(pre, (pat, o), w);
                    lemma_total_payout_take_step(bets@, bet_odds@, i as int, w);
                }
            }
        }
        i = i + 1;
    }
    proof {
        assert(bets@.take(n as int) =~= bets@);
        assert(bet_odds@.take(n as int) =~= bet_odds@);
    }
    merged
}

proof fn lemma_val_le_sum(m: Seq<(u32, u32)>, k: int)
    requires
        0 <= k < m.len(),
    ensures
        m[k].1 <= sum_vals(m),
    decreases m.len(),
{
    if k == m.len() - 1 {
        lemma_sum_vals_nonneg(m.drop_last());
    } else {
        lemma_val_le_sum(m.drop_last(), k);
    }
}

proof fn lemma_sum_vals_nonneg(m: Seq<(u32, u32)>)
    ensures
        sum_vals(m) >= 0,
    decreases m.len(),
{
    if m.len() > 0 {
        lemma_sum_vals_nonneg(m.drop_last());
    }
}

/// Returns the position of `key` among the map's keys, if it is there.
fn find_key_opt(m: &Vec<(u32, u32)>, key: u32) -> (r: Option<usize>)
    ensures
        r matches Some(j) ==> j < m@.len() && m@[j as int].0 == key,
        r is None ==> forall|k: int| 0 <= k < m@.len() ==> m@[k].0 != key,
{
    let mut i: usize = 0;
    while i < m.len()
        invariant
            i <= m@.len(),
            forall|k: int| 0 <= k < i ==> m@[k].0 != key,
        decreases m@.len() - i,
    {
        if m[i].0 == key {
            return Some(i);
        }
        i = i + 1;
    }
    None
}

/// Collects the keys of every region the pattern `p` overlaps.
fn overlap_keys_of(res: &Vec<(u32, u32)>, p: u32) -> (dr: Vec<u32>)
    requires
        keys_unique(res@),
    ensures
        forall|j: int|
            0 <= j < dr@.len() ==> key_present(res@, #[trigger] dr@[j]) && doable(p & dr@[j]),
        forall|k: int|
            0 <= k < res@.len() && doable(p & (#[trigger] res@[k].0)) ==> dr@.contains(
                res@[k].0,
            ),
        forall|j: int, l: int| 0 <= j < l < dr@.len() ==> dr@[j] != dr@[l],
{
    let mut dr: Vec<u32> = Vec::new();
    let mut idx: usize = 0;
    while idx < res.len()
        invariant
            idx <= res@.len(),
            keys_unique(res@),
            forall|j: int|
                0 <= j < dr@.len() ==> key_present(res@, #[trigger] dr@[j]) && doable(
                    p & dr@[j],
                ),
            forall|j: int|
                0 <= j < dr@.len() ==> exists|k: int|
                    0 <= k < idx && (#[trigger] res@[k].0) == (#[trigger] dr@[j]),
            forall|k: int|
                0 <= k < idx && doable(p & (#[trigger] res@[k].0)) ==> dr@.contains(res@[k].0),
            forall|j: int, l: int| 0 <= j < l < dr@.len() ==> dr@[j] != dr@[l],
        decreases res@.len() - idx,
    {
        let key = res[idx].0;
        let ghost dro = dr@;
        if ib_doable(p & key) {
            dr.push(key);
            proof {
                assert(res@[idx as int].0 == key);
                assert(dr@ =~= dro.push(key));
                assert(dr@[dro.len() as int] == key);
                assert forall|j: int, l: int| 0 <= j < l < dr@.len() implies dr@[j]
                    != dr@[l] by {
                    if l == dr@.len() - 1 {
                        let k1 = choose|k: int|
                            0 <= k < idx && (#[trigger] res@[k].0) == (#[trigger] dro[j]);
                        assert(res@[k1].0 != res@[idx as int].0);
                    }
                }
                assert forall|k: int|
                    0 <= k <= idx && doable(p & (#[trigger] res@[k].0)) implies dr@.contains(
                    res@[k].0,
                ) by {
                    if k < idx {
                        let jx = choose|jj: int| 0 <= jj < dro.len() && dro[jj] == res@[k].0;
                        assert(dr@[jx] == res@[k].0);
                    } else {
                        assert(dr@[dro.len() as int] == res@[k].0);
                    }
                }
            }
        } else {
            proof {
                assert forall|k: int|
                    0 <= k <= idx && doable(p & (#[trigger] res@[k].0)) implies dr@.contains(
                    res@[k].0,
                ) by {
                    assert(k < idx || res@[k].0 == key);
                }
            }
        }
        idx = idx + 1;
    }
    dr
}

/// Splits the region `d` against the pattern `p` of merged bet `b`: the
/// intersection gets the bet's winnings added, and the rest of `d` is
/// re-emitted arena by arena with its old payout, keeping the map a
/// disjoint cover of all outcomes.
#[verifier::rlimit(100)]
fn split_region(
    res: &mut Vec<(u32, u32)>,
    p: u32,
    win: u32,
    d: u32,
    Ghost(ms): Ghost<Seq<(u32, u32)>>,
    Ghost(b): Ghost<int>,
    Ghost(rest): Ghost<Seq<u32>>,
)
    requires
        0 <= b < ms.len(),
        p == ms[b].0,
        win == ms[b].1,
        sum_vals(ms) <= u32::MAX,
        all_doable(old(res)@),
        keys_unique(old(res)@),
        covers_all(old(res)@),
        disjoint_all(old(res)@),
        doable(p & d),
        key_present(old(res)@, d),
        !rest.contains(d),
        forall|jj: int| 0 <= jj < rest.len() ==> key_present(old(res)@, #[trigger] rest[jj]),
        forall|k: int|
            0 <= k < old(res)@.len() ==> (#[trigger] old(res)@[k]).1 <= sum_vals(ms.take(b + 1)),
        drained_values_ok(old(res)@, rest.push(d), ms, b),
    ensures
        all_doable(final(res)@),
        keys_unique(final(res)@),
        covers_all(final(res)@),
        disjoint_all(final(res)@),
        forall|k: int|
            0 <= k < final(res)@.len() ==> (#[trigger] final(res)@[k]).1 <= sum_vals(
                ms.take(b + 1),
            ),
        drained_values_ok(final(res)@, rest, ms, b),
        forall|key: u32| key_present(old(res)@, key) && key != d ==> key_present(final(res)@, key),
{
    let ghost res0 = res@;
    let idx = find_key(res, d);
    let val = res[idx].1;
    let com = p & d;
    proof {
        lemma_nib_and(p, d);
        assert(doable(d)) by {
            assert(res0[idx as int].0 == d);
        }
        // the payout stored under d is the pre-bet payout of every outcome in d
        assert(rest.push(d).contains(d)) by {
            lemma_contains_push(rest, d, d);
        }
        assert forall|w: u32| outcome(w) && hits(d, w) implies pat_payout(ms.take(b), w)
            == val by {
            assert(hits(res0[idx as int].0, w));
        }
        // overflow bound for the combined payout
        lemma_witness(d);
        lemma_pat_payout_le_sum(ms.take(b), witness_of(d));
        lemma_sum_vals_take_step(ms, b);
        lemma_sum_vals_take_le(ms, b + 1);
        assert(val + win <= sum_vals(ms.take(b + 1)));
        res0.remove_ensures(idx as int);
    }
    res.remove(idx);
    let ghost res1 = res@;
    res.push((com, win + val));
    let ghost res2 = res@;
    proof {
        assert(res2 == res1.push((com, (win + val) as u32)));
        assert(res2[res1.len() as int] == (com, (win + val) as u32));
        // com is not a key of the remainder: it would overlap the removed d
        assert forall|k: int| 0 <= k < res1.len() implies res1[k].0 != com by {
            let k0: int = if k < idx {
                k
            } else {
                k + 1
            };
            assert(res1[k] == res0[k0]);
            if res1[k].0 == com {
                lemma_witness(com);
                let w1 = witness_of(com);
                lemma_hits_and(p, d, w1);
                assert(hits(res0[k0].0, w1) && hits(res0[idx as int].0, w1));
                assert(!disjoint_at(res0, w1));
            }
        }
        assert(all_doable(res2)) by {
            assert forall|k: int| 0 <= k < res2.len() implies doable(#[trigger] res2[k].0) by {
                if k < res1.len() {
                    let k0: int = if k < idx {
                        k
                    } else {
                        k + 1
                    };
                    assert(res2[k] == res0[k0]);
                }
            }
        }
        assert(keys_unique(res2)) by {
            assert forall|k: int, l: int| 0 <= k < l < res2.len() implies res2[k].0
                != res2[l].0 by {
                if l < res1.len() {
                    let k0: int = if k < idx {
                        k
                    } else {
                        k + 1
                    };
                    let l0: int = if l < idx {
                        l
                    } else {
                        l + 1
                    };
                    assert(res2[k] == res0[k0] && res2[l] == res0[l0]);
                }
            }
        }
        // coverage: everything is covered except the part of d outside com
        assert forall|w: u32| outcome(w) && !(hits(d, w) && !hits(com, w)) implies covers(
            res2,
            w,
        ) by {
            let k0 = choose|k: int| 0 <= k < res0.len() && hits(#[trigger] res0[k].0, w);
            if k0 == idx {
                assert(hits(com, w));
                assert(hits(res2[res1.len() as int].0, w));
            } else {
                let k: int = if k0 < idx {
                    k0
                } else {
                    k0 - 1
                };
                assert(res2[k] == res0[k0]);
                assert(hits(res2[k].0, w));
            }
        }
        assert forall|w: u32| outcome(w) && hits(d, w) && !hits(com, w) implies !covers(
            res2,
            w,
        ) by {
            if covers(res2, w) {
                let k = choose|k: int| 0 <= k < res2.len() && hits(#[trigger] res2[k].0, w);
                if k == res1.len() {
                    assert(hits(com, w));
                } else {
                    let k0: int = if k < idx {
                        k
                    } else {
                        k + 1
                    };
                    assert(res2[k] == res0[k0]);
                    assert(hits(res0[k0].0, w) && hits(res0[idx as int].0, w));
                    assert(!disjoint_at(res0, w));
                }
            }
        }
        assert forall|w: u32| outcome(w) implies disjoint_at(res2, w) by {
            assert forall|k: int, l: int|
                0 <= k < l < res2.len() implies !(hits(#[trigger] res2[k].0, w) && hits(
                #[trigger] res2[l].0,
                w,
            )) by {
                let k0: int = if k < idx {
                    k
                } else {
                    k + 1
                };
                if l < res1.len() {
                    let l0: int = if l < idx {
                        l
                    } else {
                        l + 1
                    };
                    assert(res2[k] == res0[k0] && res2[l] == res0[l0]);
                } else {
                    // l is the intersection entry: its outcomes lie inside d
                    assert(res2[k] == res0[k0]);
                    if hits(res2[k].0, w) && hits(com, w) {
                        lemma_hits_and(p, d, w);
                        assert(hits(res0[k0].0, w) && hits(res0[idx as int].0, w));
                        assert(!disjoint_at(res0, w));
                    }
                }
            }
        }
        // com is not among the waiting keys either
        assert(!rest.contains(com)) by {
            if rest.contains(com) {
                assert(key_present(res0, com));
                let kc = choose|k: int| 0 <= k < res0.len() && #[trigger] res0[k].0 == com;
                assert(kc != idx);
                lemma_witness(com);
                let w1 = witness_of(com);
                lemma_hits_and(p, d, w1);
                assert(hits(res0[kc].0, w1) && hits(res0[idx as int].0, w1));
                assert(!disjoint_at(res0, w1));
            }
        }
        assert(drained_values_ok(res2, rest, ms, b)) by {
            assert forall|k: int, w: u32|
                0 <= k < res2.len() && outcome(w) && #[trigger] hits(res2[k].0, w) implies res2[k].1
                == (if rest.contains(res2[k].0) {
                pat_payout(ms.take(b), w)
            } else {
                pat_payout(ms.take(b + 1), w)
            }) by {
                if k < res1.len() {
                    let k0: int = if k < idx {
                        k
                    } else {
                        k + 1
                    };
                    assert(res2[k] == res0[k0]);
                    lemma_contains_push(rest, d, res0[k0].0);
                    assert(res0[k0].0 != d) by {
                        if res0[k0].0 == d {
                            assert(k0 != idx);
                            assert(res0[idx as int].0 == d);
                        }
                    }
                } else {
                    // the intersection entry: the bet pays out on all of it
                    assert(res2[k].0 == com);
                    lemma_hits_and(p, d, w);
                    assert(hits(p, w) && hits(d, w));
                    lemma_pat_payout_take_step(ms, b, w);
                    assert(pat_payout(ms.take(b + 1), w) == pat_payout(ms.take(b), w) + win);
                }
            }
        }
        assert forall|k: int| 0 <= k < res2.len() implies (#[trigger] res2[k]).1 <= sum_vals(
            ms.take(b + 1),
        ) by {
            if k < res1.len() {
                let k0: int = if k < idx {
                    k
                } else {
                    k + 1
                };
                assert(res2[k] == res0[k0]);
            }
        }
        assert forall|key: u32| key_present(res0, key) && key != d implies key_present(
            res2,
            key,
        ) by {
            let k0 = choose|k: int| 0 <= k < res0.len() && #[trigger] res0[k].0 == key;
            assert(k0 != idx);
            let k: int = if k0 < idx {
                k0
            } else {
                k0 - 1
            };
            assert(res2[k] == res0[k0]);
        }
    }
    // walk the arenas, emitting what this bet's constraint excludes
    let mut kcur = d;
    let mut i: usize = 0;
    while i < 5
        invariant
            i <= 5,
            com == p & d,
            doable(com),
            doable(d),
            0 <= b < ms.len(),
            p == ms[b].0,
            win == ms[b].1,
            sum_vals(ms) <= u32::MAX,
            forall|a: int| 0 <= a < 5 ==> #[trigger] nib(com, a) == (nib(p, a) & nib(d, a)),
            forall|a: int|
                0 <= a < 5 ==> #[trigger] nib(kcur, a) == (if a < i {
                    nib(com, a)
                } else {
                    nib(d, a)
                }),
            all_doable(res@),
            keys_unique(res@),
            forall|w: u32| outcome(w) ==> disjoint_at(res@, w),
            forall|w: u32|
                outcome(w) && !(hits(kcur, w) && !hits(com, w)) ==> covers(res@, w),
            forall|w: u32| outcome(w) && hits(kcur, w) && !hits(com, w) ==> !covers(res@, w),
            forall|w: u32| outcome(w) && hits(d, w) ==> pat_payout(ms.take(b), w) == val,
            !rest.contains(d),
            forall|jj: int| 0 <= jj < rest.len() ==> key_present(res0, #[trigger] rest[jj]),
            drained_values_ok(res@, rest, ms, b),
            forall|k: int|
                0 <= k < res@.len() ==> (#[trigger] res@[k]).1 <= sum_vals(ms.take(b + 1)),
            forall|key: u32| key_present(res0, key) && key != d ==> key_present(res@, key),
            val <= sum_vals(ms.take(b)),
            sum_vals(ms.take(b)) <= sum_vals(ms.take(b + 1)),
            disjoint_all(res0),
            keys_unique(res0),
            forall|k: int| 0 <= k < res0.len() ==> doable(#[trigger] res0[k].0),
            res0[idx as int].0 == d,
            idx < res0.len(),
        decreases 5 - i,
    {
        let ar = arena_mask(i);
        let tst = kcur ^ (com & ar);
        let ghost pre = res@;
        let ghost kold = kcur;
        proof {
            lemma_nib_mix(kcur, com, i as int);
        }
        if ib_doable(tst) {
            proof {
                // what the leftover accepts, arena by arena
                assert forall|w: u32| outcome(w) implies (hits(tst, w) <==> (hits(kold, w)
                    && (nib(w, i as int) & nib(com, i as int) == 0))) by {
                    assert forall|a: int| 0 <= a < 5 implies ((nib(tst, a) & nib(w, a) != 0)
                        <==> (if a == i {
                        nib(kold, a) & nib(w, a) != 0 && nib(w, a) & nib(com, a) == 0
                    } else {
                        nib(kold, a) & nib(w, a) != 0
                    })) by {
                        lemma_nib_facts(nib(w, a), nib(d, a), nib(p, a));
                        if a == i {
                            assert(nib(tst, a) == nib(kold, a) ^ nib(com, a));
                            assert(nib(kold, a) == nib(d, a));
                        }
                    }
                    if hits(tst, w) {
                        assert(nib(w, i as int) & nib(com, i as int) == 0);
                    }
                }
                // a leftover outcome is in d, outside p and outside com
                assert forall|w: u32| outcome(w) && hits(tst, w) implies hits(d, w) && !hits(
                    p,
                    w,
                ) && !hits(com, w) && hits(kold, w) by {
                    assert forall|a: int| 0 <= a < 5 implies nib(d, a) & nib(w, a) != 0 by {
                        lemma_nib_facts(nib(w, a), nib(d, a), nib(p, a));
                        assert(nib(kold, a) & nib(w, a) != 0);
                        if a < i {
                            assert(nib(kold, a) == nib(com, a));
                        }
                    }
                    lemma_nib_facts(nib(w, i as int), nib(d, i as int), nib(p, i as int));
                    assert(nib(p, i as int) & nib(w, i as int) == 0);
                }
                // the leftover is uncovered so far, hence a fresh key
                assert forall|k: int| 0 <= k < pre.len() implies pre[k].0 != tst by {
                    if pre[k].0 == tst {
                        lemma_witness(tst);
                        let w1 = witness_of(tst);
                        assert(hits(tst, w1));
                        assert(hits(kold, w1) && !hits(com, w1));
                        assert(!covers(pre, w1));
                        assert(hits(pre[k].0, w1));
                    }
                }
                assert(!rest.contains(tst)) by {
                    if rest.contains(tst) {
                        assert(key_present(res0, tst));
                        let kc = choose|k: int|
                            0 <= k < res0.len() && #[trigger] res0[k].0 == tst;
                        lemma_witness(tst);
                        let w1 = witness_of(tst);
                        assert(hits(tst, w1));
                        assert(hits(d, w1));
                        if kc == idx {
                            // then tst is d itself, which rest cannot hold
                            assert(tst == d);
                        } else {
                            assert(hits(res0[kc].0, w1) && hits(res0[idx as int].0, w1));
                            assert(!disjoint_at(res0, w1));
                        }
                    }
                }
            }
            res.push((tst, val));
            proof {
                assert(res@ == pre.push((tst, val)));
                assert(res@[pre.len() as int] == (tst, val));
                assert(all_doable(res@)) by {
                    assert forall|k: int| 0 <= k < res@.len() implies doable(
                        #[trigger] res@[k].0,
                    ) by {
                        if k < pre.len() {
                            assert(res@[k] == pre[k]);
                        }
                    }
                }
                assert(keys_unique(res@)) by {
                    assert forall|k: int, l: int| 0 <= k < l < res@.len() implies res@[k].0
                        != res@[l].0 by {
                        if l < pre.len() {
                            assert(res@[k] == pre[k] && res@[l] == pre[l]);
                        } else {
                            assert(res@[k] == pre[k]);
                        }
                    }
                }
                assert forall|w: u32| outcome(w) implies disjoint_at(res@, w) by {
                    assert forall|k: int, l: int|
                        0 <= k < l < res@.len() implies !(hits(#[trigger] res@[k].0, w)
                        && hits(#[trigger] res@[l].0, w)) by {
                        if l < pre.len() {
                            assert(res@[k] == pre[k] && res@[l] == pre[l]);
                        } else {
                            assert(res@[k] == pre[k]);
                            if hits(pre[k].0, w) && hits(tst, w) {
                                assert(hits(kold, w) && !hits(com, w));
                                assert(!covers(pre, w));
                            }
                        }
                    }
                }
                assert(drained_values_ok(res@, rest, ms, b)) by {
                    assert forall|k: int, w: u32|
                        0 <= k < res@.len() && outcome(w) && #[trigger] hits(res@[k].0, w) implies
                        res@[k].1 == (if rest.contains(res@[k].0) {
                        pat_payout(ms.take(b), w)
                    } else {
                        pat_payout(ms.take(b + 1), w)
                    }) by {
                        if k < pre.len() {
                            assert(res@[k] == pre[k]);
                        } else {
                            assert(res@[k].0 == tst);
                            assert(hits(d, w) && !hits(p, w));
                            lemma_pat_payout_take_step(ms, b, w);
                            assert(pat_payout(ms.take(b + 1), w) == pat_payout(ms.take(b), w));
                        }
                    }
                }
                assert forall|k: int| 0 <= k < res@.len() implies (#[trigger] res@[k]).1
                    <= sum_vals(ms.take(b + 1)) by {
                    if k < pre.len() {
                        assert(res@[k] == pre[k]);
                    }
                }
                assert forall|key: u32| key_present(res0, key) && key != d implies key_present(
                    res@,
                    key,
                ) by {
                    let k0 = choose|k: int| 0 <= k < pre.len() && #[trigger] pre[k].0 == key;
                    assert(res@[k0] == pre[k0]);
                }
                assert forall|jj: int| 0 <= jj < rest.len() implies key_present(
                    res@,
                    #[trigger] rest[jj],
                ) by {
                    let k0 = choose|k: int| 0 <= k < pre.len() && #[trigger] pre[k].0 == rest[jj];
                    assert(res@[k0] == pre[k0]);
                }
            }
            kcur = (kcur & !ar) | (com & ar);
            proof {
                // coverage with the shrunken floating piece
                assert forall|w: u32|
                    outcome(w) && !(hits(kcur, w) && !hits(com, w)) implies covers(res@, w) by {
                    if !(hits(kold, w) && !hits(com, w)) {
                        assert(covers(pre, w));
                        let k0 = choose|k: int| 0 <= k < pre.len() && hits(#[trigger] pre[k].0, w);
                        assert(hits(res@[k0].0, w));
                    } else {
                        // the old piece splits into the new piece and the leftover
                        if nib(w, i as int) & nib(com, i as int) == 0 {
                            assert(hits(tst, w));
                            assert(hits(res@[pre.len() as int].0, w));
                        } else {
                            assert forall|a: int| 0 <= a < 5 implies nib(kcur, a) & nib(w, a)
                                != 0 by {
                                if a != i {
                                    assert(nib(kcur, a) == nib(kold, a));
                                } else {
                                    assert(nib(kcur, a) == nib(com, a));
                                    lemma_nib_facts(nib(w, a), nib(com, a), nib(com, a));
                                }
                            }
                            // the premise excludes a piece that keeps both
                            // the winner and the bet's rejection of it
                            assert(hits(kcur, w));
                        }
                    }
                }
                assert forall|w: u32|
                    outcome(w) && hits(kcur, w) && !hits(com, w) implies !covers(res@, w) by {
                    assert(hits(kold, w)) by {
                        assert forall|a: int| 0 <= a < 5 implies nib(kold, a) & nib(w, a)
                            != 0 by {
                            if a == i {
                                lemma_nib_facts(nib(w, a), nib(d, a), nib(p, a));
                                assert(nib(kcur, a) == nib(com, a));
                            } else {
                                assert(nib(kcur, a) == nib(kold, a));
                            }
                        }
                    }
                    assert(!covers(pre, w));
                    if covers(res@, w) {
                        let k = choose|k: int| 0 <= k < res@.len() && hits(#[trigger] res@[k].0, w);
                        if k < pre.len() {
                            assert(hits(pre[k].0, w));
                        } else {
                            assert(hits(tst, w));
                            assert(nib(w, i as int) & nib(com, i as int) == 0);
                            assert(nib(kcur, i as int) == nib(com, i as int));
                            assert(nib(kcur, i as int) & nib(w, i as int) != 0);
                            lemma_nib_facts(nib(w, i as int), nib(com, i as int), nib(
                                com,
                                i as int,
                            ));
                        }
                    }
                }
                assert forall|a: int|
                    0 <= a < 5 implies #[trigger] nib(kcur, a) == (if a < i + 1 {
                    nib(com, a)
                } else {
                    nib(d, a)
                }) by {
                    if a != i {
                        assert(nib(kcur, a) == nib(kold, a));
                    }
                }
            }
        } else {
            proof {
                // the leftover is empty: this arena of d is already inside p
                assert(nib(tst, i as int) == 0) by {
                    if nib(tst, i as int) != 0 {
                        assert forall|a: int| 0 <= a < 5 implies nib(tst, a) != 0 by {
                            if a != i {
                                assert(nib(tst, a) == nib(kold, a));
                                if a < i {
                                    assert(nib(kold, a) == nib(com, a));
                                }
                            }
                        }
                        assert(doable(tst));
                    }
                }
                assert(nib(kcur, i as int) == nib(com, i as int)) by {
                    assert(nib(tst, i as int) == (nib(kold, i as int) ^ nib(com, i as int)));
                    assert(nib(kold, i as int) == nib(d, i as int));
                    lemma_nib_facts(1, nib(d, i as int), nib(p, i as int));
                }
                assert forall|a: int|
                    0 <= a < 5 implies #[trigger] nib(kcur, a) == (if a < i + 1 {
                    nib(com, a)
                } else {
                    nib(d, a)
                }) by {}
            }
        }
        i = i + 1;
    }
    proof {
        // the floating piece has shrunk to the intersection, which is mapped
        assert forall|w: u32| outcome(w) implies covers(res@, w) by {
            if hits(kcur, w) && !hits(com, w) {
                assert forall|a: int| 0 <= a < 5 implies nib(com, a) & nib(w, a) != 0 by {
                    assert(nib(kcur, a) == nib(com, a));
                }
                assert(hits(com, w));
            }
        }
    }
}

proof fn lemma_skip_shift(s: Seq<u32>, j: int)
    requires
        0 <= j < s.len(),
    ensures
        forall|x: u32| s.skip(j).contains(x) <==> (s.skip(j + 1).contains(x) || x == s[j]),
{
    assert forall|x: u32| s.skip(j).contains(x) implies (s.skip(j + 1).contains(x) || x
        == s[j]) by {
        let l = choose|l: int| 0 <= l < s.skip(j).len() && #[trigger] s.skip(j)[l] == x;
        if l > 0 {
            assert(s.skip(j + 1)[l - 1] == x);
        }
    }
    assert forall|x: u32| (s.skip(j + 1).contains(x) || x == s[j]) implies s.skip(j).contains(
        x,
    ) by {
        if s.skip(j + 1).contains(x) {
            let l = choose|l: int| 0 <= l < s.skip(j + 1).len() && #[trigger] s.skip(j + 1)[l] == x;
            assert(s.skip(j)[l + 1] == x);
        } else {
            assert(s.skip(j)[0] == x);
        }
    }
}

/// Reduces a weighted bet list to a disjoint, exhaustive partition of the
/// outcome domain. Each returned pair maps a doable region mask to the total
/// winnings a winner in that region collects; the regions are pairwise
/// disjoint, cover every concrete winner combination, and every outcome's
/// region carries exactly the sum of the odds of the bets it satisfies.
pub fn expand_ib_object(bets: &[[u8; 5]], bet_odds: &[u32]) -> (r: Vec<(u32, u32)>)
    requires
        bets@.len() == bet_odds@.len(),
        forall|k: int| 0 <= k < bets@.len() ==> valid_sel(#[trigger] bets@[k]@),
        sum_odds(bet_odds@) <= u32::MAX,
    ensures
        all_doable(r@),
        keys_unique(r@),
        covers_all(r@),
        disjoint_all(r@),
        forall|k: int, w: u32|
            0 <= k < r@.len() && outcome(w) && #[trigger] hits(r@[k].0, w) ==> r@[k].1
                == total_payout(bets@, bet_odds@, w),
{
    let merged = merge_bets(bets, bet_odds);
    let ghost ms = merged@;
    let mut res: Vec<(u32, u32)> = Vec::new();
    res.push((0xFFFFF, 0));
    proof {
        assert(nib(0xFFFFFu32, 0) == 0xF && nib(0xFFFFFu32, 1) == 0xF && nib(0xFFFFFu32, 2) == 0xF
            && nib(0xFFFFFu32, 3) == 0xF && nib(0xFFFFFu32, 4) == 0xF) by (bit_vector);
        assert(doable(0xFFFFFu32));
        assert forall|w: u32| outcome(w) implies hits(0xFFFFFu32, w) by {
            assert forall|a: int| 0 <= a < 5 implies nib(0xFFFFFu32, a) & nib(w, a) != 0 by {
                lemma_nib_facts(nib(w, a), 0xF, 0xF);
            }
        }
        assert(res@[0] == (0xFFFFFu32, 0u32));
        assert forall|w: u32| outcome(w) implies covers(res@, w) by {
            assert(hits(res@[0].0, w));
        }
        assert(ms.take(0) =~= Seq::<(u32, u32)>::empty());
        lemma_sum_odds_nonneg(bet_odds@);
    }
    let mut b: usize = 0;
    while b < merged.len()
        invariant
            ms == merged@,
            b <= ms.len(),
            bets@.len() == bet_odds@.len(),
            keys_unique(ms),
            all_doable(ms),
            sum_vals(ms) == sum_odds(bet_odds@),
            sum_odds(bet_odds@) <= u32::MAX,
            0 <= sum_odds(bet_odds@),
            forall|w: u32|
                outcome(w) ==> pat_payout(ms, w) == total_payout(bets@, bet_odds@, w),
            all_doable(res@),
            keys_unique(res@),
            covers_all(res@),
            disjoint_all(res@),
            forall|k: int, w: u32|
                0 <= k < res@.len() && outcome(w) && #[trigger] hits(res@[k].0, w) ==> res@[k].1
                    == pat_payout(ms.take(b as int), w),
            forall|k: int|
                0 <= k < res@.len() ==> (#[trigger] res@[k]).1 <= sum_vals(ms.take(b as int)),
        decreases ms.len() - b,
    {
        let p = merged[b].0;
        let win = merged[b].1;
        let drained = overlap_keys_of(&res, p);
        proof {
            lemma_sum_vals_take_step(ms, b as int);
            // regions the pattern misses entirely keep their payout through this bet
            assert(drained_values_ok(res@, drained@.skip(0), ms, b as int)) by {
                assert(drained@.skip(0) =~= drained@);
                assert forall|k: int, w: u32|
                    0 <= k < res@.len() && outcome(w) && #[trigger] hits(res@[k].0, w) implies
                    res@[k].1 == (if drained@.contains(res@[k].0) {
                    pat_payout(ms.take(b as int), w)
                } else {
                    pat_payout(ms.take(b + 1), w)
                }) by {
                    if !drained@.contains(res@[k].0) {
                        assert(!hits(p, w)) by {
                            if hits(p, w) {
                                lemma_hits_and(p, res@[k].0, w);
                                lemma_hits_doable(p & res@[k].0, w);
                            }
                        }
                        lemma_pat_payout_take_step(ms, b as int, w);
                    }
                }
            }
            assert forall|k: int| 0 <= k < res@.len() implies (#[trigger] res@[k]).1 <= sum_vals(
                ms.take(b + 1),
            ) by {}
        }
        let mut j: usize = 0;
        while j < drained.len()
            invariant
                ms == merged@,
                0 <= b < ms.len(),
                j <= drained@.len(),
                p == ms[b as int].0,
                win == ms[b as int].1,
                sum_vals(ms) <= u32::MAX,
                all_doable(res@),
                keys_unique(res@),
                covers_all(res@),
                disjoint_all(res@),
                drained_values_ok(res@, drained@.skip(j as int), ms, b as int),
                forall|k: int|
                    0 <= k < res@.len() ==> (#[trigger] res@[k]).1 <= sum_vals(ms.take(b + 1)),
                forall|jj: int, ll: int|
                    0 <= jj < ll < drained@.len() ==> drained@[jj] != drained@[ll],
                forall|jj: int| 0 <= jj < drained@.len() ==> doable(p & (#[trigger] drained@[jj])),
                forall|jj: int|
                    j <= jj < drained@.len() ==> key_present(res@, #[trigger] drained@[jj]),
            decreases drained@.len() - j,
        {
            let d = drained[j];
            proof {
                lemma_skip_shift(drained@, j as int);
                assert(!drained@.skip(j + 1).contains(d)) by {
                    if drained@.skip(j + 1).contains(d) {
                        let l = choose|l: int|
                            0 <= l < drained@.skip(j + 1).len() && #[trigger] drained@.skip(
                                j + 1,
                            )[l] == d;
                        assert(drained@[j + 1 + l] == d);
                        assert(drained@[j as int] == d);
                    }
                }
                assert(drained_values_ok(res@, drained@.skip(j + 1).push(d), ms, b as int)) by {
                    assert forall|k: int, w: u32|
                        0 <= k < res@.len() && outcome(w) && #[trigger] hits(res@[k].0, w) implies
                        res@[k].1 == (if drained@.skip(j + 1).push(d).contains(res@[k].0) {
                        pat_payout(ms.take(b as int), w)
                    } else {
                        pat_payout(ms.take(b + 1), w)
                    }) by {
                        lemma_contains_push(drained@.skip(j + 1), d, res@[k].0);
                    }
                }
                assert forall|jj: int|
                    0 <= jj < drained@.skip(j + 1).len() implies key_present(
                    res@,
                    #[trigger] drained@.skip(j + 1)[jj],
                ) by {
                    assert(drained@.skip(j + 1)[jj] == drained@[j + 1 + jj]);
                }
            }
            split_region(
                &mut res,
                p,
                win,
                d,
                Ghost(ms),
                Ghost(b as int),
                Ghost(drained@.skip(j + 1)),
            );
            j = j + 1;
            proof {
                assert forall|jj: int|
                    j <= jj < drained@.len() implies key_present(
                    res@,
                    #[trigger] drained@[jj],
                ) by {
                    assert(drained@[jj] != d);
                }
            }
        }
        b = b + 1;
        proof {
            assert(drained@.skip(drained@.len() as int) =~= Seq::<u32>::empty());
            assert forall|k: int, w: u32|
                0 <= k < res@.len() && outcome(w) && #[trigger] hits(res@[k].0, w) implies
                res@[k].1 == pat_payout(ms.take(b as int), w) by {
                assert(!drained@.skip(drained@.len() as int).contains(res@[k].0));
            }
        }
    }
    proof {
        assert(ms.take(ms.len() as int) =~= ms);
    }
    res
}

} // verus!
