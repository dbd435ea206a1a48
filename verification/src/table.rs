//! The search-space table: all 3,124 non-empty selections, enumerated in
//! ascending base-5 order, with the joint payout multiplier and the largest
//! stake that keeps the payout under the 1,000,000-unit cap.

use vstd::prelude::*;

use crate::math::lemma_mask_roundtrip;
use crate::math::nonzero_sel;
use crate::math::pirates_binary;
use crate::math::sel_mask;
use crate::math::valid_sel;

verus! {
/// The selection at table index `i`: the base-5 digits of `i + 1`, most
/// significant digit first (the all-zero tuple is skipped).
pub open spec fn table_sel(i: int) -> Seq<u8> {
    let v = i + 1;
    seq![
        ((v / 625) % 5) as u8,
        ((v / 125) % 5) as u8,
        ((v / 25) % 5) as u8,
        ((v / 5) % 5) as u8,
        (v % 5) as u8,
    ]
}

/// The base-5 value of a selection, most significant arena first.
pub open spec fn sel_code(s: Seq<u8>) -> int {
    s[0] * 625 + s[1] * 125 + s[2] * 25 + s[3] * 5 + s[4]
}

/// The joint payout multiplier of the first `a` arenas: the product of the
/// chosen competitors' odds, an unselected arena contributing factor 1.
pub open spec fn sel_odds_upto(s: Seq<u8>, odds: [[u8; 5]; 5], a: int) -> int
    decreases a,
{
    if a <= 0 {
        1
    } else {
        sel_odds_upto(s, odds, a - 1) * (if s[a - 1] == 0 {
            1
        } else {
            odds[a - 1]@[s[a - 1] as int] as int
        })
    }
}

/// The joint payout multiplier of a selection.
pub open spec fn sel_odds(s: Seq<u8>, odds: [[u8; 5]; 5]) -> int {
    sel_odds_upto(s, odds, 5)
}

/// The largest stake whose payout stays at or under 1,000,000 units:
/// 1,000,000 divided by the multiplier, rounded up.
pub open spec fn max_safe_stake(total_odds: int) -> int {
    (1_000_000 + total_odds - 1) / total_odds
}

/// The table's integer columns, index-aligned: the selection masks, joint
/// payout multipliers, and maximum safe stakes of all 3,124 non-empty
/// selections.
pub struct RoundDictData {
    pub bins: Vec<u32>,
    pub odds: Vec<u32>,
    pub maxbets: Vec<u32>,
}

/// Table indices carry valid, non-empty selections whose base-5 value is
/// the index plus one.
pub proof fn lemma_table_sel_code(i: int)
    requires
        0 <= i < 3124,
    ensures
        valid_sel(table_sel(i)),
        nonzero_sel(table_sel(i)),
        sel_code(table_sel(i)) == i + 1,
{
    let v = i + 1;
    let s = table_sel(i);
    let d0 = (v / 625) % 5;
    let r0 = v % 625;
    vstd::arithmetic::div_mod::lemma_fundamental_div_mod(v, 625);
    vstd::arithmetic::div_mod::lemma_fundamental_div_mod(v, 125);
    vstd::arithmetic::div_mod::lemma_fundamental_div_mod(v, 25);
    vstd::arithmetic::div_mod::lemma_fundamental_div_mod(v, 5);
    assert(v / 625 < 5);
    assert((v / 625) % 5 == v / 625) by {
        vstd::arithmetic::div_mod::lemma_small_mod((v / 625) as nat, 5);
    }
    assert(sel_code(s) == v) by {
        assert(s[0] == v / 625 && s[1] == (v / 125) % 5 && s[2] == (v / 25) % 5 && s[3] == (v / 5)
            % 5 && s[4] == v % 5);
        assert(625 * (v / 625) + 125 * ((v / 125) % 5) + 25 * ((v / 25) % 5) + 5 * ((v / 5) % 5) + v
            % 5 == v) by (nonlinear_arith)
            requires
                1 <= v < 3125,
        ;
    }
    assert(nonzero_sel(s)) by {
        if s[0] == 0 && s[1] == 0 && s[2] == 0 && s[3] == 0 && s[4] == 0 {
            assert(sel_code(s) == 0);
        }
    }
}

/// A valid non-empty selection stands at table index `sel_code - 1`.
pub proof fn lemma_sel_table_index(s: Seq<u8>)
    requires
        valid_sel(s),
        nonzero_sel(s),
    ensures
        1 <= sel_code(s) <= 3124,
        table_sel(sel_code(s) - 1) =~= s,
{
    let v = sel_code(s);
    assert(1 <= v <= 3124);
    vstd::arithmetic::div_mod::lemma_fundamental_div_mod_converse(
        v,
        625,
        s[0] as int,
        s[1] * 125 + s[2] * 25 + s[3] * 5 + s[4],
    );
    vstd::arithmetic::div_mod::lemma_fundamental_div_mod_converse(
        v,
        125,
        s[0] * 5 + s[1],
        s[2] * 25 + s[3] * 5 + s[4],
    );
    vstd::arithmetic::div_mod::lemma_fundamental_div_mod_converse(
        v,
        25,
        s[0] * 25 + s[1] * 5 + s[2],
        s[3] * 5 + s[4],
    );
    vstd::arithmetic::div_mod::lemma_fundamental_div_mod_converse(
        v,
        5,
        s[0] * 125 + s[1] * 25 + s[2] * 5 + s[3],
        s[4] as int,
    );
    vstd::arithmetic::div_mod::lemma_small_mod(s[0] as nat, 5);
    vstd::arithmetic::div_mod::lemma_fundamental_div_mod_converse(
        s[0] * 5 + s[1],
        5,
        s[0] as int,
        s[1] as int,
    );
    vstd::arithmetic::div_mod::lemma_fundamental_div_mod_converse(
        s[0] * 25 + s[1] * 5 + s[2],
        5,
        s[0] * 5 + s[1],
        s[2] as int,
    );
    vstd::arithmetic::div_mod::lemma_fundamental_div_mod_converse(
        s[0] * 125 + s[1] * 25 + s[2] * 5 + s[3],
        5,
        s[0] * 25 + s[1] * 5 + s[2],
        s[3] as int,
    );
}

/// Completeness of the table enumeration: all 3,124 indices carry distinct
/// masks, and every valid non-empty selection's mask appears.
pub proof fn lemma_table_complete()
    ensures
        forall|i: int|
            0 <= i < 3124 ==> valid_sel(#[trigger] table_sel(i)) && nonzero_sel(table_sel(i)),
        forall|i: int, j: int|
            0 <= i < j < 3124 ==> sel_mask(#[trigger] table_sel(i)) != sel_mask(
                #[trigger] table_sel(j),
            ),
        forall|s: Seq<u8>|
            valid_sel(s) && nonzero_sel(s) ==> exists|i: int|
                0 <= i < 3124 && sel_mask(#[trigger] table_sel(i)) == sel_mask(s),
{
    assert forall|i: int| 0 <= i < 3124 implies valid_sel(#[trigger] table_sel(i)) && nonzero_sel(
        table_sel(i),
    ) by {
        lemma_table_sel_code(i);
    }
    assert forall|i: int, j: int| 0 <= i < j < 3124 implies sel_mask(#[trigger] table_sel(i))
        != sel_mask(#[trigger] table_sel(j)) by {
        lemma_table_sel_code(i);
        lemma_table_sel_code(j);
        if sel_mask(table_sel(i)) == sel_mask(table_sel(j)) {
            lemma_mask_roundtrip(table_sel(i));
            lemma_mask_roundtrip(table_sel(j));
            assert(table_sel(i) =~= table_sel(j));
            assert(sel_code(table_sel(i)) == sel_code(table_sel(j)));
        }
    }
    assert forall|s: Seq<u8>| valid_sel(s) && nonzero_sel(s) implies exists|i: int|
        0 <= i < 3124 && sel_mask(#[trigger] table_sel(i)) == sel_mask(s) by {
        lemma_sel_table_index(s);
        let i = sel_code(s) - 1;
        assert(table_sel(i) =~= s);
        assert(0 <= i < 3124 && sel_mask(table_sel(i)) == sel_mask(s));
    }
}

/// Builds the table for a round's payout-multiplier matrix (row = arena,
/// columns 1-4 = per-competitor odds, column 0 unused). Entry `i` describes
/// the selection with base-5 value `i + 1`; the all-zero selection is
/// skipped, leaving exactly 3,124 entries in ascending mask-code order.
pub fn make_round_dicts(odds: [[u8; 5]; 5]) -> (r: RoundDictData)
    requires
        forall|a: int, p: int| 0 <= a < 5 && 1 <= p < 5 ==> 2 <= #[trigger] odds[a]@[p] <= 13,
    ensures
        r.bins@.len() == 3124,
        r.odds@.len() == 3124,
        r.maxbets@.len() == 3124,
        forall|i: int| 0 <= i < 3124 ==> #[trigger] r.bins@[i] == sel_mask(table_sel(i)),
        forall|i: int| 0 <= i < 3124 ==> #[trigger] r.odds@[i] == sel_odds(table_sel(i), odds),
        forall|i: int|
            0 <= i < 3124 ==> #[trigger] r.maxbets@[i] == max_safe_stake(
                sel_odds(table_sel(i), odds),
            ),
{
    let mut bins: Vec<u32> = Vec::new();
    let mut odds_vec: Vec<u32> = Vec::new();
    let mut maxbets: Vec<u32> = Vec::new();
    let mut i: usize = 0;
    while i < 3124
        invariant
            i <= 3124,
            bins@.len() == i,
            odds_vec@.len() == i,
            maxbets@.len() == i,
            forall|a: int, p: int| 0 <= a < 5 && 1 <= p < 5 ==> 2 <= #[trigger] odds[a]@[p] <= 13,
            forall|k: int| 0 <= k < i ==> #[trigger] bins@[k] == sel_mask(table_sel(k)),
            forall|k: int| 0 <= k < i ==> #[trigger] odds_vec@[k] == sel_odds(table_sel(k), odds),
            forall|k: int|
                0 <= k < i ==> #[trigger] maxbets@[k] == max_safe_stake(
                    sel_odds(table_sel(k), odds),
                ),
        decreases 3124 - i,
    {
        let v = (i + 1) as u32;
        let nums: [u8; 5] = [
            ((v / 625) % 5) as u8,
            ((v / 125) % 5) as u8,
            ((v / 25) % 5) as u8,
            ((v / 5) % 5) as u8,
            (v % 5) as u8,
        ];
        proof {
            assert(nums@ =~= table_sel(i as int));
        }
        let total_bin = pirates_binary(nums);
        let mut total_odds: u32 = 1;
        let mut a: usize = 0;
        while a < 5
            invariant
                a <= 5,
                nums@ == table_sel(i as int),
                forall|aa: int, p: int|
                    0 <= aa < 5 && 1 <= p < 5 ==> 2 <= #[trigger] odds[aa]@[p] <= 13,
                forall|aa: int| 0 <= aa < 5 ==> #[trigger] nums@[aa] <= 4,
                total_odds == sel_odds_upto(nums@, odds, a as int),
                1 <= total_odds <= 371293,
                total_odds <= spec_pow13(a as int),
            decreases 5 - a,
        {
            let pick = nums[a];
            if pick != 0 {
                let f = odds[a][pick as usize];
                proof {
                    assert(spec_pow13(a as int) * 13 == spec_pow13(a + 1));
                    assert(total_odds * f <= spec_pow13(a as int) * 13) by (nonlinear_arith)
                        requires
                            1 <= total_odds <= spec_pow13(a as int) && 1 <= f <= 13,
                    ;
                    assert(spec_pow13(a + 1) <= spec_pow13(5)) by {
                        lemma_pow13_bounds();
                    }
                    assert(spec_pow13(5) == 371293) by {
                        lemma_pow13_bounds();
                    }
                    assert(total_odds * f >= 1) by (nonlinear_arith)
                        requires
                            total_odds >= 1 && f >= 1,
                    ;
                }
                total_odds = total_odds * (f as u32);
            } else {
                proof {
                    assert(spec_pow13(a as int) <= spec_pow13(a + 1)) by {
                        lemma_pow13_bounds();
                    }
                }
            }
            a = a + 1;
        }
        let q = 1_000_000u32 / total_odds;
        let maxbet = if 1_000_000u32 % total_odds > 0 {
            q + 1
        } else {
            q
        };
        proof {
            vstd::arithmetic::div_mod::lemma_fundamental_div_mod(1_000_000, total_odds as int);
            assert(maxbet == max_safe_stake(total_odds as int)) by (nonlinear_arith)
                requires
                    1 <= total_odds <= 371293,
                    1_000_000int == (total_odds as int) * (1_000_000int / (total_odds as int))
                        + 1_000_000int % (total_odds as int),
                    q == 1_000_000int / (total_odds as int),
                    maxbet == if 1_000_000int % (total_odds as int) > 0 {
                        q + 1
                    } else {
                        q as int
                    },
            ;
        }
        bins.push(total_bin);
        odds_vec.push(total_odds);
        maxbets.push(maxbet);
        i = i + 1;
    }
    RoundDictData { bins, odds: odds_vec, maxbets }
}

/// Powers of 13, used to bound the joint multiplier.
pub open spec fn spec_pow13(a: int) -> int
    decreases a,
{
    if a <= 0 {
        1
    } else {
        13 * spec_pow13(a - 1)
    }
}

proof fn lemma_pow13_bounds()
    ensures
        spec_pow13(0) == 1,
        spec_pow13(1) == 13,
        spec_pow13(2) == 169,
        spec_pow13(3) == 2197,
        spec_pow13(4) == 28561,
        spec_pow13(5) == 371293,
{
    assert(spec_pow13(0) == 1);
    assert(spec_pow13(1) == 13);
    assert(spec_pow13(2) == 169);
    assert(spec_pow13(3) == 2197);
    assert(spec_pow13(4) == 28561);
    assert(spec_pow13(5) == 371293);
}

} // verus!
