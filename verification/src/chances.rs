//! The integer skeleton of the win-amount distribution.
//!
//! The reducer's partition is grouped by payout value into an ascending
//! table: one entry per distinct payout, carrying every region that pays it.
//! A caller derives the probability columns by weighing each region with the
//! round's probability matrix; the grouping, ordering and the bust and
//! guaranteed-win decisions are all integer logic and live here.

use vstd::prelude::*;

use crate::math::valid_sel;
use crate::reducer::all_doable;
use crate::reducer::bet_pattern;
use crate::reducer::covers;
use crate::reducer::disjoint_at;
use crate::reducer::doable;
use crate::reducer::expand_ib_object;
use crate::reducer::hits;
use crate::reducer::keys_unique;
use crate::reducer::outcome;
use crate::reducer::sum_odds;
use crate::reducer::total_payout;

verus! {

/// Some region of the map pays exactly `v`.
pub open spec fn some_region_pays(regions: Seq<(u32, u32)>, v: u32) -> bool {
    exists|k: int| 0 <= k < regions.len() && (#[trigger] regions[k]).1 == v
}

/// Collects the distinct payout values of the region map, in strictly
/// ascending order.
fn sorted_payouts(regions: &Vec<(u32, u32)>) -> (ps: Vec<u32>)
    ensures
        forall|i: int, j: int| 0 <= i < j < ps@.len() ==> ps@[i] < ps@[j],
        forall|k: int| 0 <= k < regions@.len() ==> ps@.contains(#[trigger] regions@[k].1),
        forall|i: int| 0 <= i < ps@.len() ==> some_region_pays(regions@, #[trigger] ps@[i]),
{
    let mut ps: Vec<u32> = Vec::new();
    let mut k: usize = 0;
    while k < regions.len()
        invariant
            k <= regions@.len(),
            forall|i: int, j: int| 0 <= i < j < ps@.len() ==> ps@[i] < ps@[j],
            forall|kk: int| 0 <= kk < k ==> ps@.contains(#[trigger] regions@[kk].1),
            forall|i: int| 0 <= i < ps@.len() ==> some_region_pays(regions@, #[trigger] ps@[i]),
        decreases regions@.len() - k,
    {
        let v = regions[k].1;
        let mut pos: usize = 0;
        while pos < ps.len() && ps[pos] < v
            invariant
                pos <= ps@.len(),
                forall|i: int| 0 <= i < pos ==> ps@[i] < v,
            decreases ps@.len() - pos,
        {
            pos = pos + 1;
        }
        let ghost pre = ps@;
        if pos == ps.len() || ps[pos] > v {
            ps.insert(pos, v);
            proof {
                pre.insert_ensures(pos as int, v);
                assert(ps@ == pre.insert(pos as int, v));
                assert forall|i: int, j: int| 0 <= i < j < ps@.len() implies ps@[i] < ps@[j] by {
                    if i < pos && j == pos {
                        assert(ps@[i] == pre[i] && ps@[j] == v);
                    } else if i == pos && j > pos {
                        assert(ps@[i] == v && ps@[j] == pre[j - 1]);
                        assert(pre[pos as int] > v || pos == pre.len());
                        assert(pre[j - 1] >= pre[pos as int] || pos as int > j - 1);
                    } else if i < pos && j > pos {
                        assert(ps@[i] == pre[i] && ps@[j] == pre[j - 1]);
                    } else if i > pos && j > pos {
                        assert(ps@[i] == pre[i - 1] && ps@[j] == pre[j - 1]);
                    }
                }
                assert(ps@[pos as int] == v);
                assert forall|kk: int| 0 <= kk < k + 1 implies ps@.contains(
                    #[trigger] regions@[kk].1,
                ) by {
                    if kk < k {
                        let i0 = choose|i: int| 0 <= i < pre.len() && pre[i] == regions@[kk].1;
                        if i0 < pos {
                            assert(ps@[i0] == regions@[kk].1);
                        } else {
                            assert(ps@[i0 + 1] == regions@[kk].1);
                        }
                    } else {
                        assert(ps@[pos as int] == regions@[kk].1);
                    }
                }
                assert forall|i: int| 0 <= i < ps@.len() implies some_region_pays(
                    regions@,
                    #[trigger] ps@[i],
                ) by {
                    if i < pos {
                        assert(ps@[i] == pre[i]);
                    } else if i == pos {
                        assert(regions@[k as int].1 == ps@[i]);
                    } else {
                        assert(ps@[i] == pre[i - 1]);
                    }
                }
            }
        } else {
            proof {
                assert(ps@[pos as int] == v);
            }
        }
        k = k + 1;
    }
    ps
}

/// Builds the ascending payout table of a bet list: one entry per distinct
/// payout, listing every region of the reduced partition that pays it. The
/// listed regions, over all entries, split the outcome space exactly, and a
/// winner falling in a region collects exactly the entry's payout.
#[verifier::rlimit(100)]
pub fn win_table(bets: &[[u8; 5]], bet_odds: &[u32]) -> (r: Vec<(u32, Vec<u32>)>)
    requires
        bets@.len() == bet_odds@.len(),
        forall|k: int| 0 <= k < bets@.len() ==> valid_sel(#[trigger] bets@[k]@),
        sum_odds(bet_odds@) <= u32::MAX,
    ensures
        forall|g1: int, g2: int| 0 <= g1 < g2 < r@.len() ==> r@[g1].0 < r@[g2].0,
        forall|g: int| 0 <= g < r@.len() ==> (#[trigger] r@[g]).1@.len() > 0,
        forall|g: int, mi: int|
            0 <= g < r@.len() && 0 <= mi < r@[g].1@.len() ==> doable(#[trigger] r@[g].1@[mi]),
        forall|g: int, mi: int, w: u32|
            0 <= g < r@.len() && 0 <= mi < r@[g].1@.len() && outcome(w) && #[trigger] hits(
                r@[g].1@[mi],
                w,
            ) ==> r@[g].0 == total_payout(bets@, bet_odds@, w),
        forall|w: u32|
            outcome(w) ==> exists|g: int, mi: int|
                0 <= g < r@.len() && 0 <= mi < r@[g].1@.len() && #[trigger] hits(r@[g].1@[mi], w),
        forall|g1: int, mi1: int, g2: int, mi2: int, w: u32|
            0 <= g1 < r@.len() && 0 <= mi1 < r@[g1].1@.len() && 0 <= g2 < r@.len() && 0 <= mi2
                < r@[g2].1@.len() && !(g1 == g2 && mi1 == mi2) && outcome(w) ==> !(#[trigger] hits(
                r@[g1].1@[mi1],
                w,
            ) && #[trigger] hits(r@[g2].1@[mi2], w)),
{
    let regions = expand_ib_object(bets, bet_odds);
    let ghost rs = regions@;
    let ps = sorted_payouts(&regions);
    let mut out: Vec<(u32, Vec<u32>)> = Vec::new();
    let mut g: usize = 0;
    while g < ps.len()
        invariant
            g <= ps@.len(),
            rs == regions@,
            all_doable(rs),
            keys_unique(rs),
            forall|w: u32| outcome(w) ==> covers(rs, w),
            forall|w: u32| outcome(w) ==> disjoint_at(rs, w),
            forall|k: int, w: u32|
                0 <= k < rs.len() && outcome(w) && #[trigger] hits(rs[k].0, w) ==> rs[k].1
                    == total_payout(bets@, bet_odds@, w),
            forall|i: int, j: int| 0 <= i < j < ps@.len() ==> ps@[i] < ps@[j],
            forall|k: int| 0 <= k < rs.len() ==> ps@.contains(#[trigger] rs[k].1),
            forall|i: int| 0 <= i < ps@.len() ==> some_region_pays(rs, #[trigger] ps@[i]),
            out@.len() == g,
            forall|gg: int| 0 <= gg < g ==> (#[trigger] out@[gg]).0 == ps@[gg],
            forall|gg: int, mi: int|
                0 <= gg < g && 0 <= mi < out@[gg].1@.len() ==> exists|k: int|
                    0 <= k < rs.len() && #[trigger] rs[k] == ((#[trigger] out@[gg].1@[mi]),
                    out@[gg].0),
            forall|gg: int, k: int|
                0 <= gg < g && 0 <= k < rs.len() && (#[trigger] rs[k]).1 == (
                #[trigger] out@[gg]).0 ==> out@[gg].1@.contains(rs[k].0),
            forall|gg: int| 0 <= gg < g ==> (#[trigger] out@[gg]).1@.len() > 0,
            forall|gg: int, m1: int, m2: int|
                0 <= gg < g && 0 <= m1 < m2 < out@[gg].1@.len() ==> (#[trigger] out@[gg].1@[m1])
                    != (#[trigger] out@[gg].1@[m2]),
        decreases ps@.len() - g,
    {
        let v = ps[g];
        let mut masks: Vec<u32> = Vec::new();
        let mut k: usize = 0;
        while k < regions.len()
            invariant
                k <= rs.len(),
                rs == regions@,
                keys_unique(rs),
                forall|mi: int|
                    0 <= mi < masks@.len() ==> exists|kk: int|
                        0 <= kk < k && #[trigger] rs[kk] == ((#[trigger] masks@[mi]), v),
                forall|kk: int|
                    0 <= kk < k && (#[trigger] rs[kk]).1 == v ==> masks@.contains(rs[kk].0),
                forall|m1: int, m2: int| 0 <= m1 < m2 < masks@.len() ==> masks@[m1] != masks@[m2],
            decreases rs.len() - k,
        {
            let ghost pre = masks@;
            if regions[k].1 == v {
                masks.push(regions[k].0);
                proof {
                    assert(masks@[pre.len() as int] == rs[k as int].0);
                    assert forall|m1: int, m2: int|
                        0 <= m1 < m2 < masks@.len() implies masks@[m1] != masks@[m2] by {
                        if m2 == pre.len() {
                            let kk = choose|kk: int|
                                0 <= kk < k && #[trigger] rs[kk] == ((pre[m1]), v);
                            assert(rs[kk].0 != rs[k as int].0);
                        } else {
                            assert(masks@[m1] == pre[m1] && masks@[m2] == pre[m2]);
                        }
                    }
                    assert forall|kk: int|
                        0 <= kk < k + 1 && (#[trigger] rs[kk]).1 == v implies masks@.contains(
                        rs[kk].0,
                    ) by {
                        if kk < k {
                            let mi = choose|mi: int| 0 <= mi < pre.len() && pre[mi] == rs[kk].0;
                            assert(masks@[mi] == rs[kk].0);
                        } else {
                            assert(masks@[pre.len() as int] == rs[kk].0);
                        }
                    }
                }
            }
            k = k + 1;
        }
        proof {
            // the payout value came from some region, so its group is not empty
            assert(some_region_pays(rs, ps@[g as int]));
            let k0 = choose|kk: int| 0 <= kk < rs.len() && (#[trigger] rs[kk]).1 == ps@[g as int];
            assert(masks@.contains(rs[k0].0));
        }
        out.push((v, masks));
        g = g + 1;
    }
    proof {
        let r = out@;
        assert forall|g1: int, g2: int| 0 <= g1 < g2 < r.len() implies r[g1].0 < r[g2].0 by {}
        assert forall|gg: int, mi: int|
            0 <= gg < r.len() && 0 <= mi < r[gg].1@.len() implies doable(
            #[trigger] r[gg].1@[mi],
        ) by {
            let k0 = choose|k: int|
                0 <= k < rs.len() && #[trigger] rs[k] == ((r[gg].1@[mi]), r[gg].0);
            assert(doable(rs[k0].0));
        }
        assert forall|gg: int, mi: int, w: u32|
            0 <= gg < r.len() && 0 <= mi < r[gg].1@.len() && outcome(w) && #[trigger] hits(
            r[gg].1@[mi],
            w,
        ) implies r[gg].0 == total_payout(bets@, bet_odds@, w) by {
            let k0 = choose|k: int|
                0 <= k < rs.len() && #[trigger] rs[k] == ((r[gg].1@[mi]), r[gg].0);
            assert(hits(rs[k0].0, w));
        }
        assert forall|w: u32| outcome(w) implies exists|gg: int, mi: int|
            0 <= gg < r.len() && 0 <= mi < r[gg].1@.len() && #[trigger] hits(
            r[gg].1@[mi],
            w,
        ) by {
            let k0 = choose|k: int| 0 <= k < rs.len() && hits(#[trigger] rs[k].0, w);
            let i0 = choose|i: int| 0 <= i < ps@.len() && ps@[i] == rs[k0].1;
            assert(out@[i0].0 == ps@[i0]);
            assert(out@[i0].1@.contains(rs[k0].0));
            let mi = choose|mi: int| 0 <= mi < out@[i0].1@.len() && out@[i0].1@[mi] == rs[k0].0;
            assert(hits(r[i0].1@[mi], w));
        }
        assert forall|g1: int, mi1: int, g2: int, mi2: int, w: u32|
            0 <= g1 < r.len() && 0 <= mi1 < r[g1].1@.len() && 0 <= g2 < r.len() && 0 <= mi2
                < r[g2].1@.len() && !(g1 == g2 && mi1 == mi2) && outcome(w) implies !(
        #[trigger] hits(r[g1].1@[mi1], w) && #[trigger] hits(r[g2].1@[mi2], w)) by {
            let k1 = choose|k: int|
                0 <= k < rs.len() && #[trigger] rs[k] == ((r[g1].1@[mi1]), r[g1].0);
            let k2 = choose|k: int|
                0 <= k < rs.len() && #[trigger] rs[k] == ((r[g2].1@[mi2]), r[g2].0);
            if hits(r[g1].1@[mi1], w) && hits(r[g2].1@[mi2], w) {
                assert(hits(rs[k1].0, w) && hits(rs[k2].0, w));
                assert(k1 == k2) by {
                    if k1 != k2 {
                        assert(!disjoint_at(rs, w));
                    }
                }
                assert(r[g1].0 == r[g2].0);
                assert(g1 == g2) by {
                    if g1 < g2 {
                        assert(r[g1].0 < r[g2].0);
                    }
                    if g2 < g1 {
                        assert(r[g2].0 < r[g1].0);
                    }
                }
                assert(r[g1].1@[mi1] == r[g1].1@[mi2]);
                // a group lists each region once, so the positions coincide
                assert(mi1 == mi2) by {
                    if mi1 < mi2 {
                        assert(r[g1].1@[mi1] != r[g1].1@[mi2]);
                    }
                    if mi2 < mi1 {
                        assert(r[g1].1@[mi2] != r[g1].1@[mi1]);
                    }
                }
            }
        }
    }
    out
}

proof fn lemma_total_payout_nonneg(bets: Seq<[u8; 5]>, odds: Seq<u32>, w: u32)
    requires
        bets.len() == odds.len(),
    ensures
        total_payout(bets, odds, w) >= 0,
    decreases bets.len(),
{
    if bets.len() > 0 {
        lemma_total_payout_nonneg(bets.drop_last(), odds.drop_last(), w);
    }
}

/// An outcome accepted by bet `i` collects at least that bet's winnings.
proof fn lemma_total_payout_lower(bets: Seq<[u8; 5]>, odds: Seq<u32>, i: int, w: u32)
    requires
        bets.len() == odds.len(),
        0 <= i < bets.len(),
        hits(bet_pattern(bets[i]@), w),
    ensures
        total_payout(bets, odds, w) >= odds[i],
    decreases bets.len(),
{
    if i == bets.len() - 1 {
        lemma_total_payout_nonneg(bets.drop_last(), odds.drop_last(), w);
    } else {
        lemma_total_payout_lower(bets.drop_last(), odds.drop_last(), i, w);
    }
}

/// Whether the bets can collect winnings: the total payout of every
/// concrete winner combination.
pub open spec fn no_bust(bets: Seq<[u8; 5]>, odds: Seq<u32>) -> bool {
    forall|w: u32| outcome(w) ==> total_payout(bets, odds, w) > 0
}

/// Returns whether the bet set cannot bust: every possible winner
/// combination satisfies at least one bet with non-zero winnings.
pub fn is_bustproof(bets: &[[u8; 5]], bet_odds: &[u32]) -> (r: bool)
    requires
        bets@.len() == bet_odds@.len(),
        forall|k: int| 0 <= k < bets@.len() ==> valid_sel(#[trigger] bets@[k]@),
        sum_odds(bet_odds@) <= u32::MAX,
    ensures
        r == no_bust(bets@, bet_odds@),
{
    let regions = expand_ib_object(bets, bet_odds);
    let ghost rs = regions@;
    let mut k: usize = 0;
    while k < regions.len()
        invariant
            k <= rs.len(),
            rs == regions@,
            all_doable(rs),
            forall|w: u32| outcome(w) ==> covers(rs, w),
            forall|kk: int, w: u32|
                0 <= kk < rs.len() && outcome(w) && #[trigger] hits(rs[kk].0, w) ==> rs[kk].1
                    == total_payout(bets@, bet_odds@, w),
            forall|kk: int| 0 <= kk < k ==> (#[trigger] rs[kk]).1 > 0,
        decreases rs.len() - k,
    {
        if regions[k].1 == 0 {
            proof {
                // a zero-payout region holds an outcome that wins nothing
                crate::reducer::lemma_region_witness(rs[k as int].0);
                let w0 = choose|w: u32| outcome(w) && #[trigger] hits(rs[k as int].0, w);
                assert(total_payout(bets@, bet_odds@, w0) == 0);
            }
            return false;
        }
        k = k + 1;
    }
    proof {
        assert forall|w: u32| outcome(w) implies total_payout(bets@, bet_odds@, w) > 0 by {
            let k0 = choose|kk: int| 0 <= kk < rs.len() && hits(#[trigger] rs[kk].0, w);
            assert(rs[k0].1 > 0);
        }
    }
    true
}

/// The guaranteed-win condition: the set cannot bust, every bet carries a
/// stake, and even the worst winning outcome returns strictly more than the
/// largest single stake.
pub open spec fn guaranteed_win(
    bets: Seq<[u8; 5]>,
    odds: Seq<u32>,
    amounts: Seq<Option<u32>>,
) -> bool {
    &&& bets.len() > 0
    &&& no_bust(bets, odds)
    &&& forall|i: int| 0 <= i < amounts.len() ==> (#[trigger] amounts[i]) is Some
    &&& forall|i: int, j: int|
        0 <= i < amounts.len() && 0 <= j < amounts.len() ==> (amounts[i]->0 as int) < (
        odds[j] as int) * (amounts[j]->0 as int)
}

/// Returns whether the staked bet set is guaranteed to profit: it cannot
/// bust, every stake is set, and the smallest possible win exceeds the
/// largest stake. An empty set is never a guaranteed win.
pub fn is_guaranteed_win(bets: &[[u8; 5]], bet_odds: &[u32], amounts: &Vec<Option<u32>>) -> (r:
    bool)
    requires
        bets@.len() == bet_odds@.len(),
        amounts@.len() == bets@.len(),
        forall|k: int| 0 <= k < bets@.len() ==> valid_sel(#[trigger] bets@[k]@),
        sum_odds(bet_odds@) <= u32::MAX,
    ensures
        r == guaranteed_win(bets@, bet_odds@, amounts@),
{
    let n = bets.len();
    if n == 0 {
        return false;
    }
    let mut highest: u32 = 0;
    let mut i: usize = 0;
    while i < n
        invariant
            i <= n,
            n == amounts@.len(),
            forall|k: int| 0 <= k < i ==> (#[trigger] amounts@[k]) is Some,
            forall|k: int| 0 <= k < i ==> (#[trigger] amounts@[k])->0 <= highest,
            i > 0 ==> exists|k: int| 0 <= k < i && ((#[trigger] amounts@[k])->0) == highest,
            i == 0 ==> highest == 0,
        decreases n - i,
    {
        match amounts[i] {
            Some(v) => {
                if v > highest {
                    highest = v;
                }
                proof {
                    if (amounts@[i as int])->0 == highest {
                        assert(exists|k: int|
                            0 <= k <= i && ((#[trigger] amounts@[k])->0) == highest);
                    }
                }
            },
            None => {
                return false;
            },
        }
        i = i + 1;
    }
    // the lowest winning return must beat the highest stake
    let mut j: usize = 0;
    while j < n
        invariant
            j <= n,
            n == amounts@.len(),
            n == bets@.len(),
            n == bet_odds@.len(),
            forall|k: int| 0 <= k < n ==> (#[trigger] amounts@[k]) is Some,
            forall|k: int| 0 <= k < n ==> (#[trigger] amounts@[k])->0 <= highest,
            exists|k: int| 0 <= k < n && ((#[trigger] amounts@[k])->0) == highest,
            forall|k: int, l: int|
                0 <= k < n && 0 <= l < j ==> (amounts@[k]->0 as int) < (bet_odds@[l] as int) * (
                amounts@[l]->0 as int),
        decreases n - j,
    {
        let stake = match amounts[j] {
            Some(v) => v,
            None => 0,
        };
        proof {
            assert((bet_odds@[j as int] as int) * (stake as int) <= 0xFFFF_FFFFint
                * 0xFFFF_FFFFint) by (nonlinear_arith)
                requires
                    bet_odds@[j as int] <= 0xFFFF_FFFFu32 && stake <= 0xFFFF_FFFFu32,
            ;
        }
        let winnings = (bet_odds[j] as u64) * (stake as u64);
        if (highest as u64) >= winnings {
            proof {
                let k0 = choose|k: int|
                    0 <= k < n && ((#[trigger] amounts@[k])->0) == highest;
                assert((amounts@[k0]->0 as int) >= (bet_odds@[j as int] as int) * (
                amounts@[j as int]->0 as int));
            }
            return false;
        }
        proof {
            assert forall|k: int, l: int|
                0 <= k < n && 0 <= l < j + 1 implies (amounts@[k]->0 as int) < (
            bet_odds@[l] as int) * (amounts@[l]->0 as int) by {
                if l == j {
                    assert((amounts@[k]->0 as int) <= highest);
                }
            }
        }
        j = j + 1;
    }
    is_bustproof(bets, bet_odds)
}

/// The units a bet list wins against a winning combination: the sum of the
/// odds of every bet whose mask is contained in the winners' mask.
pub open spec fn spec_won_units(bins: Seq<u32>, odds: Seq<u32>, w: u32) -> int
    decreases bins.len(),
{
    if bins.len() == 0 {
        0
    } else {
        spec_won_units(bins.drop_last(), odds.drop_last(), w) + (if bins.last() & w
            == bins.last() {
            odds[bins.len() - 1] as int
        } else {
            0
        })
    }
}

proof fn lemma_won_units_bound(bins: Seq<u32>, odds: Seq<u32>, w: u32)
    requires
        bins.len() == odds.len(),
    ensures
        0 <= spec_won_units(bins, odds, w) <= sum_odds(odds),
    decreases bins.len(),
{
    if bins.len() > 0 {
        lemma_won_units_bound(bins.drop_last(), odds.drop_last(), w);
    }
}

/// Returns the units won by the given bets when `winners_binary` is the
/// winning combination's mask: each bet whose picks all won pays its odds.
/// With no winners yet (mask zero) no non-empty bet can match, so the
/// result is zero.
pub fn won_units(bet_binaries: &Vec<u32>, bet_odds: &Vec<u32>, winners_binary: u32) -> (r: u32)
    requires
        bet_binaries@.len() == bet_odds@.len(),
        sum_odds(bet_odds@) <= u32::MAX,
    ensures
        r == spec_won_units(bet_binaries@, bet_odds@, winners_binary),
{
    let n = bet_binaries.len();
    let mut total: u32 = 0;
    let mut i: usize = 0;
    while i < n
        invariant
            i <= n,
            n == bet_binaries@.len(),
            n == bet_odds@.len(),
            sum_odds(bet_odds@) <= u32::MAX,
            total == spec_won_units(
                bet_binaries@.take(i as int),
                bet_odds@.take(i as int),
                winners_binary,
            ),
            total <= sum_odds(bet_odds@.take(i as int)),
        decreases n - i,
    {
        proof {
            assert(bet_binaries@.take(i + 1).drop_last() =~= bet_binaries@.take(i as int));
            assert(bet_odds@.take(i + 1).drop_last() =~= bet_odds@.take(i as int));
            lemma_sum_odds_step(bet_odds@, i as int);
        }
        let bin = bet_binaries[i];
        if bin & winners_binary == bin {
            total = total + bet_odds[i];
        }
        i = i + 1;
    }
    proof {
        assert(bet_binaries@.take(n as int) =~= bet_binaries@);
        assert(bet_odds@.take(n as int) =~= bet_odds@);
    }
    total
}

proof fn lemma_sum_odds_step(odds: Seq<u32>, i: int)
    requires
        0 <= i < odds.len(),
    ensures
        sum_odds(odds.take(i + 1)) == sum_odds(odds.take(i)) + odds[i],
        sum_odds(odds.take(i + 1)) <= sum_odds(odds),
        sum_odds(odds.take(i)) >= 0,
{
    crate::reducer::lemma_sum_odds_take_step(odds, i);
    crate::reducer::lemma_sum_odds_take_le(odds, i + 1);
    crate::reducer::lemma_sum_odds_nonneg(odds.take(i));
}

/// Staking all four competitors of one arena, with equal returns, can never
/// bust and always returns more than the largest stake: the guaranteed-win
/// construction. The bets must pick only in arena `a`, one per competitor,
/// with positive odds of at least 2 and stakes chosen so that every bet's
/// return `odds * stake` is the same.
pub proof fn lemma_single_arena_guaranteed_win(
    a: int,
    bets: Seq<[u8; 5]>,
    odds: Seq<u32>,
    amounts: Seq<Option<u32>>,
)
    requires
        0 <= a < 5,
        bets.len() == 4,
        odds.len() == 4,
        amounts.len() == 4,
        forall|i: int|
            0 <= i < 4 ==> valid_sel(#[trigger] bets[i]@) && bets[i]@[a] == i + 1,
        forall|i: int, aa: int| 0 <= i < 4 && 0 <= aa < 5 && aa != a ==> bets[i]@[aa] == 0,
        forall|i: int| 0 <= i < 4 ==> (#[trigger] odds[i]) >= 2,
        forall|i: int|
            0 <= i < 4 ==> (#[trigger] amounts[i]) is Some && amounts[i]->0 >= 1,
        forall|i: int, j: int|
            0 <= i < 4 && 0 <= j < 4 ==> (odds[i] as int) * (amounts[i]->0 as int) == (
            odds[j] as int) * (amounts[j]->0 as int),
    ensures
        guaranteed_win(bets, odds, amounts),
{
    // no bust: every outcome's winner in arena `a` is one of the four bets
    assert forall|w: u32| outcome(w) implies total_payout(bets, odds, w) > 0 by {
        let bit = crate::math::nib(w, a);
        let pos: u8 = if bit == 8 {
            1
        } else if bit == 4 {
            2
        } else if bit == 2 {
            3
        } else {
            4
        };
        let i = pos - 1;
        assert(crate::math::nib_of_pick(pos) == bit);
        assert(hits(bet_pattern(bets[i as int]@), w)) by {
            crate::reducer::lemma_bet_pattern_accepts(bets[i as int]@, w, a, pos);
        }
        lemma_total_payout_lower(bets, odds, i as int, w);
    }
    // equal returns beat every stake: each stake is at most half the return
    assert forall|i: int, j: int| 0 <= i < amounts.len() && 0 <= j < amounts.len() implies (
    amounts[i]->0 as int) < (odds[j] as int) * (amounts[j]->0 as int) by {
        let si = amounts[i]->0 as int;
        let c = (odds[i] as int) * (amounts[i]->0 as int);
        assert(2 * si <= c) by (nonlinear_arith)
            requires
                c == (odds[i] as int) * si && odds[i] >= 2 && si >= 1,
        ;
        assert(c == (odds[j] as int) * (amounts[j]->0 as int));
    }
}

} // verus!
