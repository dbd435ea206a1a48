//! Bit encoding of competitor selections.
//!
//! A selection picks at most one of four competitors in each of five arenas
//! (0 means "no pick"). Its canonical form is a 20-bit mask of five nibbles,
//! one per arena, arena 0 in the most significant nibble. Within a nibble,
//! competitor position `p` (1-indexed) occupies bit `4 - p`; an all-zero
//! nibble means no competitor was picked in that arena.

use vstd::prelude::*;

verus! {
/// Smallest stake the game accepts on a single bet.
pub const BET_AMOUNT_MIN: u32 = 1;

/// Largest stake the game accepts on a single bet; also the offset of the
/// stake-amount text encoding.
pub const BET_AMOUNT_MAX: u32 = 70304;

/// Arena `a`'s nibble of the mask `m` (arena 0 is the most significant).
pub open spec fn nib(m: u32, a: int) -> u32 {
    if a == 0 {
        (m >> 16) & 0xF
    } else if a == 1 {
        (m >> 12) & 0xF
    } else if a == 2 {
        (m >> 8) & 0xF
    } else if a == 3 {
        (m >> 4) & 0xF
    } else {
        m & 0xF
    }
}

/// The nibble encoding competitor position `p`: position 1 maps to bit 3,
/// position 4 to bit 0, and 0 ("no pick") to the empty nibble.
pub open spec fn nib_of_pick(p: u8) -> u32 {
    if p == 1 {
        8
    } else if p == 2 {
        4
    } else if p == 3 {
        2
    } else if p == 4 {
        1
    } else {
        0
    }
}

/// The position a nibble decodes to: `4 - trailing_zeros` of its lowest set
/// bit, or 0 for the empty nibble.
pub open spec fn nib_index(n: u32) -> u8 {
    if n & 1 != 0 {
        4
    } else if n & 2 != 0 {
        3
    } else if n & 4 != 0 {
        2
    } else if n & 8 != 0 {
        1
    } else {
        0
    }
}

/// The single-bit mask of competitor `index` in arena `arena`.
pub open spec fn spec_pirate_binary(index: u8, arena: u8) -> u32 {
    if arena == 0 {
        nib_of_pick(index) << 16
    } else if arena == 1 {
        nib_of_pick(index) << 12
    } else if arena == 2 {
        nib_of_pick(index) << 8
    } else if arena == 3 {
        nib_of_pick(index) << 4
    } else {
        nib_of_pick(index)
    }
}

/// A selection: one value per arena, each 0 (no pick) or a competitor
/// position 1 through 4.
pub open spec fn valid_sel(s: Seq<u8>) -> bool {
    s.len() == 5 && forall|a: int| 0 <= a < 5 ==> s[a] <= 4
}

/// A selection that actually picks somebody somewhere.
pub open spec fn nonzero_sel(s: Seq<u8>) -> bool {
    exists|a: int| 0 <= a < 5 && s[a] != 0
}

/// The mask of a selection: the OR of its per-arena competitor masks.
pub open spec fn sel_mask(s: Seq<u8>) -> u32
    decreases s.len(),
{
    if s.len() == 0 {
        0
    } else {
        sel_mask(s.drop_last()) | spec_pirate_binary(s.last(), (s.len() - 1) as u8)
    }
}

/// The selection a mask decodes to, per arena.
pub open spec fn mask_sel(m: u32) -> Seq<u8> {
    Seq::new(5, |a: int| nib_index(nib(m, a)))
}

/// Returns the single-bit mask for competitor `index` (1-4) of arena
/// `arena`; 0 when `index` is 0 or out of range.
pub fn pirate_binary(index: u8, arena: u8) -> (r: u32)
    requires
        arena <= 4,
    ensures
        r == spec_pirate_binary(index, arena),
{
    if 1 <= index && index <= 4 {
        let r = 0x80000u32 >> (((index - 1) + arena * 4) as u32);
        proof {
            assert(r == spec_pirate_binary(index, arena)) by (bit_vector)
                requires
                    1 <= index <= 4 && arena <= 4 && r == 0x80000u32 >> (((index - 1) + arena
                        * 4) as u32),
            ;
        }
        r
    } else {
        proof {
            assert(spec_pirate_binary(index, arena) == 0) by (bit_vector)
                requires
                    index == 0 || index > 4,
            ;
        }
        0
    }
}

/// Returns the mask of a whole selection, ORing each arena's competitor bit.
pub fn pirates_binary(bets_indices: [u8; 5]) -> (r: u32)
    ensures
        r == sel_mask(bets_indices@),
{
    let mut total: u32 = 0;
    let mut arena: usize = 0;
    while arena < 5
        invariant
            arena <= 5,
            total == sel_mask(bets_indices@.take(arena as int)),
        decreases 5 - arena,
    {
        proof {
            assert(bets_indices@.take(arena + 1).drop_last() =~= bets_indices@.take(arena as int));
            assert(bets_indices@.take(arena + 1).last() == bets_indices@[arena as int]);
        }
        total = total | pirate_binary(bets_indices[arena], arena as u8);
        arena = arena + 1;
    }
    proof {
        assert(bets_indices@.take(5) =~= bets_indices@);
    }
    total
}

/// Returns the position encoded in arena `arena`'s nibble of `binary`.
fn nibble_index_at(binary: u32, arena: usize) -> (r: u8)
    requires
        arena <= 4,
    ensures
        r == nib_index(nib(binary, arena as int)),
{
    let nibble = if arena == 0 {
        (binary >> 16) & 0xF
    } else if arena == 1 {
        (binary >> 12) & 0xF
    } else if arena == 2 {
        (binary >> 8) & 0xF
    } else if arena == 3 {
        (binary >> 4) & 0xF
    } else {
        binary & 0xF
    };
    if nibble & 1 != 0 {
        4
    } else if nibble & 2 != 0 {
        3
    } else if nibble & 4 != 0 {
        2
    } else if nibble & 8 != 0 {
        1
    } else {
        0
    }
}

/// Decodes a mask back into a selection: for each arena, the position of the
/// lowest set bit of its nibble (as `4 - trailing_zeros`), or 0 if the
/// nibble is empty.
pub fn binary_to_indices(binary: u32) -> (r: [u8; 5])
    ensures
        r@ == mask_sel(binary),
{
    let mut indices: [u8; 5] = [0u8; 5];
    let mut arena: usize = 0;
    while arena < 5
        invariant
            arena <= 5,
            indices@.len() == 5,
            forall|a: int| 0 <= a < arena ==> indices@[a] == nib_index(nib(binary, a)),
        decreases 5 - arena,
    {
        indices[arena] = nibble_index_at(binary, arena);
        arena = arena + 1;
    }
    proof {
        assert(indices@ =~= mask_sel(binary));
    }
    indices
}

/// Each arena's nibble of a selection's mask is exactly the picked
/// competitor's bit (or empty where nothing was picked).
pub proof fn lemma_sel_mask_nibs(s: Seq<u8>)
    requires
        valid_sel(s),
    ensures
        forall|a: int| 0 <= a < 5 ==> nib(sel_mask(s), a) == nib_of_pick(s[a]),
{
    let i0 = s[0];
    let i1 = s[1];
    let i2 = s[2];
    let i3 = s[3];
    let i4 = s[4];
    let m = sel_mask(s);
    let s4 = s.drop_last();
    let s3 = s4.drop_last();
    let s2 = s3.drop_last();
    let s1 = s2.drop_last();
    let s0 = s1.drop_last();
    assert(s0 =~= Seq::<u8>::empty());
    assert(sel_mask(s0) == 0);
    assert(sel_mask(s1) == 0u32 | spec_pirate_binary(i0, 0));
    assert(sel_mask(s2) == sel_mask(s1) | spec_pirate_binary(i1, 1));
    assert(sel_mask(s3) == sel_mask(s2) | spec_pirate_binary(i2, 2));
    assert(sel_mask(s4) == sel_mask(s3) | spec_pirate_binary(i3, 3));
    assert(m == ((((0u32 | spec_pirate_binary(i0, 0)) | spec_pirate_binary(i1, 1))
        | spec_pirate_binary(i2, 2)) | spec_pirate_binary(i3, 3)) | spec_pirate_binary(i4, 4));
    assert forall|a: int| 0 <= a < 5 implies nib(m, a) == nib_of_pick(s[a]) by {
        assert(nib(
            ((((0u32 | spec_pirate_binary(i0, 0)) | spec_pirate_binary(i1, 1))
                | spec_pirate_binary(i2, 2)) | spec_pirate_binary(i3, 3)) | spec_pirate_binary(
                i4,
                4,
            ),
            0,
        ) == nib_of_pick(i0) && nib(
            ((((0u32 | spec_pirate_binary(i0, 0)) | spec_pirate_binary(i1, 1))
                | spec_pirate_binary(i2, 2)) | spec_pirate_binary(i3, 3)) | spec_pirate_binary(
                i4,
                4,
            ),
            1,
        ) == nib_of_pick(i1) && nib(
            ((((0u32 | spec_pirate_binary(i0, 0)) | spec_pirate_binary(i1, 1))
                | spec_pirate_binary(i2, 2)) | spec_pirate_binary(i3, 3)) | spec_pirate_binary(
                i4,
                4,
            ),
            2,
        ) == nib_of_pick(i2) && nib(
            ((((0u32 | spec_pirate_binary(i0, 0)) | spec_pirate_binary(i1, 1))
                | spec_pirate_binary(i2, 2)) | spec_pirate_binary(i3, 3)) | spec_pirate_binary(
                i4,
                4,
            ),
            3,
        ) == nib_of_pick(i3) && nib(
            ((((0u32 | spec_pirate_binary(i0, 0)) | spec_pirate_binary(i1, 1))
                | spec_pirate_binary(i2, 2)) | spec_pirate_binary(i3, 3)) | spec_pirate_binary(
                i4,
                4,
            ),
            4,
        ) == nib_of_pick(i4)) by (bit_vector)
            requires
                i0 <= 4 && i1 <= 4 && i2 <= 4 && i3 <= 4 && i4 <= 4,
        ;
    }
}

/// Decoding a nibble that encodes a pick gives the pick back.
pub proof fn lemma_nib_roundtrip(p: u8)
    requires
        p <= 4,
    ensures
        nib_index(nib_of_pick(p)) == p,
{
    assert(8u32 & 1 == 0 && 8u32 & 2 == 0 && 8u32 & 4 == 0 && 8u32 & 8 != 0 && 4u32 & 1 == 0
        && 4u32 & 2 == 0 && 4u32 & 4 != 0 && 2u32 & 1 == 0 && 2u32 & 2 != 0 && 1u32 & 1 != 0
        && 0u32 & 1 == 0 && 0u32 & 2 == 0 && 0u32 & 4 == 0 && 0u32 & 8 == 0) by (bit_vector);
}

/// Round trip: decoding the mask of any valid selection gives the selection
/// back.
pub proof fn lemma_mask_roundtrip(s: Seq<u8>)
    requires
        valid_sel(s),
    ensures
        mask_sel(sel_mask(s)) =~= s,
{
    lemma_sel_mask_nibs(s);
    assert forall|a: int| 0 <= a < 5 implies mask_sel(sel_mask(s))[a] == s[a] by {
        lemma_nib_roundtrip(s[a]);
    }
}

} // verus!
