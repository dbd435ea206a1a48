//! A round's raw data and its validation rules.

use vstd::prelude::*;

use crate::oddschange::OddsChange;

verus! {

/// One round of the game, as served by the round-data feed: the pirate IDs
/// per arena, the opening and current odds matrices, and optional winners,
/// foods, timestamps and odds-change history.
#[allow(non_snake_case)]
pub struct RoundData {
    pub foods: Option<[[u8; 10]; 5]>,
    pub round: u16,
    pub start: Option<String>,
    pub pirates: [[u8; 4]; 5],
    pub currentOdds: [[u8; 5]; 5],
    pub openingOdds: [[u8; 5]; 5],
    pub customOdds: Option<[[u8; 5]; 5]>,
    pub winners: Option<[u8; 5]>,
    pub timestamp: Option<String>,
    pub changes: Option<Vec<OddsChange>>,
    pub lastChange: Option<String>,
}

/// The intermediate shape of a round parsed from a URL query string, whose
/// nested arrays still sit in JSON text.
#[allow(non_snake_case)]
pub struct RoundDataRaw {
    pub foods: Option<String>,
    pub round: u16,
    pub start: Option<String>,
    pub pirates: String,
    pub openingOdds: String,
    pub currentOdds: String,
    pub winners: Option<String>,
    pub timestamp: Option<String>,
    pub lastChange: Option<String>,
}

/// Every pirate ID is between 1 and 20 and no ID appears twice.
pub open spec fn pirates_ok(pirates: [[u8; 4]; 5]) -> bool {
    &&& forall|a: int, i: int|
        0 <= a < 5 && 0 <= i < 4 ==> 1 <= (#[trigger] pirates[a]@[i]) <= 20
    &&& forall|a1: int, i1: int, a2: int, i2: int|
        0 <= a1 < 5 && 0 <= i1 < 4 && 0 <= a2 < 5 && 0 <= i2 < 4 && !(a1 == a2 && i1 == i2)
            ==> (#[trigger] pirates[a1]@[i1]) != (#[trigger] pirates[a2]@[i2])
}

/// An odds matrix is well formed: column 0 is the placeholder 1, every
/// competitor's odds lie between 2 and 13.
pub open spec fn odds_matrix_ok(odds: [[u8; 5]; 5]) -> bool {
    &&& forall|a: int| 0 <= a < 5 ==> (#[trigger] odds[a]@[0]) == 1
    &&& forall|a: int, p: int| 0 <= a < 5 && 1 <= p < 5 ==> 2 <= (#[trigger] odds[a]@[p]) <= 13
}

/// Every food ID is between 1 and 40.
pub open spec fn foods_ok(foods: [[u8; 10]; 5]) -> bool {
    forall|a: int, i: int| 0 <= a < 5 && 0 <= i < 10 ==> 1 <= (#[trigger] foods[a]@[i]) <= 40
}

/// Winners are either all 0 (round still open) or all 1 through 4.
pub open spec fn winners_ok(winners: [u8; 5]) -> bool {
    (forall|i: int| 0 <= i < 5 ==> (#[trigger] winners@[i]) == 0) != (forall|i: int|
        0 <= i < 5 ==> 1 <= (#[trigger] winners@[i]) <= 4)
}

/// The conditions a round must meet before anything is computed from it.
pub open spec fn round_data_ok(rd: &RoundData) -> bool {
    &&& rd.round > 0
    &&& pirates_ok(rd.pirates)
    &&& odds_matrix_ok(rd.currentOdds)
    &&& odds_matrix_ok(rd.openingOdds)
    &&& (rd.foods matches Some(f) ==> foods_ok(f))
    &&& (rd.winners matches Some(w) ==> winners_ok(w))
}

fn check_odds_matrix(odds: &[[u8; 5]; 5], first_msg: &str, range_msg: &str) -> (r: Result<
    (),
    String,
>)
    ensures
        r is Ok <==> odds_matrix_ok(*odds),
{
    let mut a: usize = 0;
    while a < 5
        invariant
            a <= 5,
            forall|aa: int| 0 <= aa < a ==> (#[trigger] odds@[aa]@[0]) == 1,
            forall|aa: int, p: int|
                0 <= aa < a && 1 <= p < 5 ==> 2 <= (#[trigger] odds@[aa]@[p]) <= 13,
        decreases 5 - a,
    {
        if odds[a][0] != 1 {
            return Err(String::from_str(first_msg));
        }
        let mut p: usize = 1;
        while p < 5
            invariant
                1 <= p <= 5,
                a < 5,
                forall|pp: int| 1 <= pp < p ==> 2 <= (#[trigger] odds@[a as int]@[pp]) <= 13,
            decreases 5 - p,
        {
            if odds[a][p] < 2 || odds[a][p] > 13 {
                return Err(String::from_str(range_msg));
            }
            p = p + 1;
        }
        a = a + 1;
    }
    Ok(())
}

/// Checks a round before it is used: the round number is positive, pirate
/// IDs are unique and in range, both odds matrices carry the placeholder
/// column and in-range odds, food IDs are in range, and winners are either
/// all unset or all set.
pub fn validate_round_data(round_data: &RoundData) -> (r: Result<(), String>)
    ensures
        r is Ok <==> round_data_ok(round_data),
{
    if round_data.round == 0 {
        return Err(String::from_str("Round number must be greater than 0."));
    }
    let mut a: usize = 0;
    while a < 5
        invariant
            a <= 5,
            forall|aa: int, i: int|
                0 <= aa < a && 0 <= i < 4 ==> 1 <= (#[trigger] round_data.pirates[aa]@[i]) <= 20,
            forall|a1: int, i1: int, a2: int, i2: int|
                0 <= a1 < a && 0 <= i1 < 4 && 0 <= a2 < a && 0 <= i2 < 4 && !(a1 == a2 && i1 == i2)
                    ==> (#[trigger] round_data.pirates[a1]@[i1]) != (
                #[trigger] round_data.pirates[a2]@[i2]),
        decreases 5 - a,
    {
        let mut i: usize = 0;
        while i < 4
            invariant
                i <= 4,
                a < 5,
                forall|aa: int, ii: int|
                    0 <= aa < a && 0 <= ii < 4 ==> 1 <= (#[trigger] round_data.pirates[aa]@[ii])
                        <= 20,
                forall|ii: int|
                    0 <= ii < i ==> 1 <= (#[trigger] round_data.pirates[a as int]@[ii]) <= 20,
                forall|a1: int, i1: int, a2: int, i2: int|
                    0 <= a1 < 5 && 0 <= i1 < 4 && 0 <= a2 < 5 && 0 <= i2 < 4 && !(a1 == a2 && i1
                        == i2) && (a1 < a || (a1 == a && i1 < i)) && (a2 < a || (a2 == a && i2 < i))
                        ==> (#[trigger] round_data.pirates[a1]@[i1]) != (
                    #[trigger] round_data.pirates[a2]@[i2]),
            decreases 4 - i,
        {
            let id = round_data.pirates[a][i];
            if id < 1 || id > 20 {
                return Err(String::from_str("Pirate IDs must be between 1 and 20."));
            }
            // scan every earlier position for a duplicate
            let mut a2: usize = 0;
            while a2 < 5
                invariant
                    a2 <= 5,
                    a < 5,
                    i < 4,
                    id == round_data.pirates[a as int]@[i as int],
                    forall|aa: int, ii: int|
                        0 <= aa < a2 && 0 <= ii < 4 && (aa < a || (aa == a && ii < i)) ==> (
                        #[trigger] round_data.pirates[aa]@[ii]) != id,
                decreases 5 - a2,
            {
                let mut i2: usize = 0;
                while i2 < 4
                    invariant
                        i2 <= 4,
                        a2 < 5,
                        a < 5,
                        i < 4,
                        id == round_data.pirates[a as int]@[i as int],
                        forall|ii: int|
                            0 <= ii < i2 && (a2 < a || (a2 == a && ii < i)) ==> (
                            #[trigger] round_data.pirates[a2 as int]@[ii]) != id,
                    decreases 4 - i2,
                {
                    if (a2 < a || (a2 == a && i2 < i)) && round_data.pirates[a2][i2] == id {
                        return Err(String::from_str("Pirates must be unique."));
                    }
                    i2 = i2 + 1;
                }
                a2 = a2 + 1;
            }
            i = i + 1;
            proof {
                assert forall|a1: int, i1: int, a2: int, i2: int|
                    0 <= a1 < 5 && 0 <= i1 < 4 && 0 <= a2 < 5 && 0 <= i2 < 4 && !(a1 == a2 && i1
                        == i2) && (a1 < a || (a1 == a && i1 < i)) && (a2 < a || (a2 == a && i2 < i))
                        implies (#[trigger] round_data.pirates[a1]@[i1]) != (
                #[trigger] round_data.pirates[a2]@[i2]) by {
                    if a1 == a && i1 == i - 1 {
                        assert(round_data.pirates[a2]@[i2] != id);
                    } else if a2 == a && i2 == i - 1 {
                        assert(round_data.pirates[a1]@[i1] != id);
                    }
                }
            }
        }
        a = a + 1;
    }
    match check_odds_matrix(
        &round_data.currentOdds,
        "First integer in each arena in currentOdds must be 1.",
        "Odds must be between 2 and 13.",
    ) {
        Err(e) => {
            return Err(e);
        },
        Ok(u) => u,
    }
    match check_odds_matrix(
        &round_data.openingOdds,
        "First integer in each arena in openingOdds must be 1.",
        "Odds must be between 2 and 13.",
    ) {
        Err(e) => {
            return Err(e);
        },
        Ok(u) => u,
    }
    if let Some(foods) = &round_data.foods {
        let mut a: usize = 0;
        while a < 5
            invariant
                a <= 5,
                round_data.foods matches Some(f) && f == *foods,
                forall|aa: int, i: int|
                    0 <= aa < a && 0 <= i < 10 ==> 1 <= (#[trigger] foods[aa]@[i]) <= 40,
            decreases 5 - a,
        {
            let mut i: usize = 0;
            while i < 10
                invariant
                    i <= 10,
                    a < 5,
                    round_data.foods matches Some(f) && f == *foods,
                    forall|ii: int|
                        0 <= ii < i ==> 1 <= (#[trigger] foods[a as int]@[ii]) <= 40,
                decreases 10 - i,
            {
                let food = foods[a][i];
                if food < 1 || food > 40 {
                    return Err(String::from_str("Food integers must be between 1 and 40."));
                }
                i = i + 1;
            }
            a = a + 1;
        }
    }
    if let Some(winners) = &round_data.winners {
        let mut all_zero = true;
        let mut all_one_to_four = true;
        let mut i: usize = 0;
        while i < 5
            invariant
                i <= 5,
                round_data.winners matches Some(w) && w == *winners,
                all_zero <==> (forall|ii: int| 0 <= ii < i ==> (#[trigger] winners@[ii]) == 0),
                all_one_to_four <==> (forall|ii: int|
                    0 <= ii < i ==> 1 <= (#[trigger] winners@[ii]) <= 4),
            decreases 5 - i,
        {
            let x = winners[i];
            if x != 0 {
                all_zero = false;
            }
            if x < 1 || x > 4 {
                all_one_to_four = false;
            }
            i = i + 1;
        }
        if all_zero == all_one_to_four {
            return Err(String::from_str("Winners must either be all 0, or all 1-4."));
        }
    }
    Ok(())
}

} // verus!
