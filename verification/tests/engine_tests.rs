use neofoodclub::chances::is_bustproof;
use neofoodclub::chances::won_units;
use neofoodclub::chances::is_guaranteed_win;
use neofoodclub::chances::win_table;
use neofoodclub::math::binary_to_indices;
use neofoodclub::math::pirate_binary;
use neofoodclub::math::pirates_binary;
use neofoodclub::reducer::expand_ib_object;
use neofoodclub::reducer::ib_doable;
use neofoodclub::table::make_round_dicts;

// ---------------------------------------------------------------------------
// Bit encoding
// ---------------------------------------------------------------------------

#[test]
fn test_pirate_binary() {
    let bin = pirate_binary(3, 2);
    assert_eq!(bin, 0x200);
}

#[test]
fn test_pirates_binary() {
    let bin = pirates_binary([0, 1, 2, 3, 4]);
    assert_eq!(bin, 0x08421);
}

#[test]
fn test_binary_to_indices() {
    let indices = binary_to_indices(1);
    assert_eq!(indices, [0, 0, 0, 0, 4]);
}

#[test]
fn test_selection_mask_example() {
    // a single first-arena pick sits in the top nibble
    assert_eq!(pirates_binary([1, 0, 0, 0, 0]), 0x80000);
    assert_eq!(binary_to_indices(0x80000), [1, 0, 0, 0, 0]);
}

#[test]
fn test_mask_roundtrip_all_selections() {
    for code in 1u32..3125 {
        let sel = [
            ((code / 625) % 5) as u8,
            ((code / 125) % 5) as u8,
            ((code / 25) % 5) as u8,
            ((code / 5) % 5) as u8,
            (code % 5) as u8,
        ];
        assert_eq!(binary_to_indices(pirates_binary(sel)), sel);
    }
}

// ---------------------------------------------------------------------------
// Search-space table
// ---------------------------------------------------------------------------

fn flat_odds() -> [[u8; 5]; 5] {
    [[1, 2, 3, 4, 5]; 5]
}

#[test]
fn test_table_has_all_selections() {
    let table = make_round_dicts(flat_odds());
    assert_eq!(table.bins.len(), 3124);
    assert_eq!(table.odds.len(), 3124);
    assert_eq!(table.maxbets.len(), 3124);

    let mut sorted = table.bins.clone();
    sorted.sort_unstable();
    sorted.dedup();
    assert_eq!(sorted.len(), 3124);

    // the set of masks is exactly the masks of all non-empty selections
    for code in 1u32..3125 {
        let sel = [
            ((code / 625) % 5) as u8,
            ((code / 125) % 5) as u8,
            ((code / 25) % 5) as u8,
            ((code / 5) % 5) as u8,
            (code % 5) as u8,
        ];
        let mask = pirates_binary(sel);
        assert!(sorted.binary_search(&mask).is_ok());
    }
}

#[test]
fn test_table_odds_and_maxbets() {
    let odds = [
        [1, 11, 3, 2, 4],
        [1, 13, 2, 5, 13],
        [1, 13, 2, 5, 2],
        [1, 2, 8, 5, 5],
        [1, 13, 3, 2, 4],
    ];
    let table = make_round_dicts(odds);
    for i in 0..3124usize {
        let sel = binary_to_indices(table.bins[i]);
        let mut expected: u32 = 1;
        for a in 0..5 {
            if sel[a] != 0 {
                expected *= odds[a][sel[a] as usize] as u32;
            }
        }
        assert_eq!(table.odds[i], expected);
        assert_eq!(table.maxbets[i], 1_000_000u32.div_ceil(expected));
    }
}

// ---------------------------------------------------------------------------
// The reducer: partition invariant over all 1,024 winner combinations
// ---------------------------------------------------------------------------

/// All 1,024 concrete winner combinations.
fn all_outcomes() -> Vec<u32> {
    let mut out = Vec::new();
    for a in 1u8..5 {
        for b in 1u8..5 {
            for c in 1u8..5 {
                for d in 1u8..5 {
                    for e in 1u8..5 {
                        out.push(pirates_binary([a, b, c, d, e]));
                    }
                }
            }
        }
    }
    out
}

/// What an outcome would pay: the sum of odds over bets it satisfies.
fn expected_payout(bets: &[[u8; 5]], bet_odds: &[u32], w: u32) -> u32 {
    let mut total = 0;
    for (sel, odds) in bets.iter().zip(bet_odds.iter()) {
        let mask = pirates_binary(*sel);
        // the bet wins when every picked arena matches the outcome
        if mask & w == mask {
            total += odds;
        }
    }
    total
}

#[test]
fn test_partition_invariant() {
    let bets: Vec<[u8; 5]> = vec![
        [1, 0, 0, 0, 0],
        [1, 2, 0, 0, 0],
        [0, 2, 3, 0, 0],
        [4, 0, 0, 1, 2],
        [1, 0, 0, 0, 0],
    ];
    let bet_odds: Vec<u32> = vec![2, 6, 13, 24, 5];
    let regions = expand_ib_object(&bets, &bet_odds);

    let outcomes = all_outcomes();
    assert_eq!(outcomes.len(), 1024);
    for &w in &outcomes {
        let mut matches = 0;
        let mut payout = 0;
        for &(key, value) in &regions {
            assert!(ib_doable(key));
            if key & w == w {
                matches += 1;
                payout = value;
            }
        }
        // each winner combination belongs to exactly one region
        assert_eq!(matches, 1);
        assert_eq!(payout, expected_payout(&bets, &bet_odds, w));
    }
}

#[test]
fn test_empty_bet_list_reduces_to_wildcard() {
    let regions = expand_ib_object(&[], &[]);
    assert_eq!(regions, vec![(0xFFFFF, 0)]);
}

// ---------------------------------------------------------------------------
// The distribution skeleton and its derived values
// ---------------------------------------------------------------------------

/// The probability that the winning combination falls in a region: the
/// per-arena sums of the accepted competitors' probabilities, multiplied.
fn region_probability(region: u32, probabilities: &[[f64; 5]; 5]) -> f64 {
    let mut total = 1.0;
    for a in 0..5 {
        let nibble = (region >> (4 * (4 - a))) & 0xF;
        let mut ar = 0.0;
        for p in 1..5usize {
            if nibble & (0x8 >> (p - 1)) != 0 {
                ar += probabilities[a][p];
            }
        }
        total *= ar;
    }
    total
}

/// One row of the chance table: payout, probability, cumulative, survival.
fn chance_rows(
    bets: &[[u8; 5]],
    bet_odds: &[u32],
    probabilities: &[[f64; 5]; 5],
) -> Vec<(u32, f64, f64, f64)> {
    let table = win_table(bets, bet_odds);
    let mut rows = Vec::new();
    let mut cumulative = 0.0;
    let mut tail = 1.0;
    for (value, masks) in table {
        let probability: f64 = masks
            .iter()
            .map(|m| region_probability(*m, probabilities))
            .sum();
        cumulative += probability;
        rows.push((value, probability, cumulative, tail));
        tail -= probability;
    }
    rows
}

fn example_matrix() -> [[f64; 5]; 5] {
    [[1.0, 0.4, 0.3, 0.2, 0.1]; 5]
}

#[test]
fn test_single_bet_chance_table() {
    // one bet on the first competitor of arena 0, with payout multiplier 2,
    // against a matrix where that competitor wins with probability 0.4
    let bets = vec![[1u8, 0, 0, 0, 0]];
    let bet_odds = vec![2u32];
    let rows = chance_rows(&bets, &bet_odds, &example_matrix());

    assert_eq!(rows.len(), 2);
    assert_eq!(rows[0].0, 0);
    assert!((rows[0].1 - 0.6).abs() < 1e-9);
    assert_eq!(rows[1].0, 2);
    assert!((rows[1].1 - 0.4).abs() < 1e-9);
}

#[test]
fn test_chance_table_normalization_and_monotonicity() {
    let bets: Vec<[u8; 5]> = vec![
        [1, 0, 0, 0, 0],
        [1, 2, 0, 0, 0],
        [0, 2, 3, 0, 0],
        [4, 0, 0, 1, 2],
        [2, 2, 2, 2, 2],
        [0, 0, 0, 0, 3],
    ];
    let bet_odds: Vec<u32> = vec![2, 6, 13, 24, 5, 4];
    let rows = chance_rows(&bets, &bet_odds, &example_matrix());

    // probabilities sum to 1
    let total: f64 = rows.iter().map(|r| r.1).sum();
    assert!((total - 1.0).abs() < 1e-9);

    // values ascend, cumulative never falls, survival never rises
    for pair in rows.windows(2) {
        assert!(pair[0].0 < pair[1].0);
        assert!(pair[0].2 <= pair[1].2 + 1e-12);
        assert!(pair[1].3 <= pair[0].3 + 1e-12);
    }
    assert!((rows.last().unwrap().2 - 1.0).abs() < 1e-9);
    assert!((rows.first().unwrap().3 - 1.0).abs() < 1e-9);
}

#[test]
fn test_empty_bet_list_distribution() {
    // betting nothing busts with certainty
    let rows = chance_rows(&[], &[], &example_matrix());
    assert_eq!(rows.len(), 1);
    assert_eq!(rows[0].0, 0);
    assert!((rows[0].1 - 1.0).abs() < 1e-9);
    assert!((rows[0].2 - 1.0).abs() < 1e-9);
    assert!((rows[0].3 - 1.0).abs() < 1e-9);
}

#[test]
fn test_guaranteed_win_single_arena() {
    // all four competitors of arena 1, staked for equal returns
    let bets: Vec<[u8; 5]> = vec![
        [0, 1, 0, 0, 0],
        [0, 2, 0, 0, 0],
        [0, 3, 0, 0, 0],
        [0, 4, 0, 0, 0],
    ];
    let bet_odds: Vec<u32> = vec![2, 4, 8, 8];
    let amounts = vec![Some(400u32), Some(200), Some(100), Some(100)];

    assert!(is_bustproof(&bets, &bet_odds));
    assert!(is_guaranteed_win(&bets, &bet_odds, &amounts));

    // the zero payout is absent from the win table
    let table = win_table(&bets, &bet_odds);
    assert!(table.iter().all(|(value, _)| *value > 0));
}

#[test]
fn test_won_units() {
    let bins = vec![
        pirates_binary([3, 0, 0, 0, 0]),
        pirates_binary([3, 2, 0, 0, 0]),
        pirates_binary([1, 0, 0, 0, 0]),
        pirates_binary([0, 0, 3, 2, 2]),
    ];
    let odds = vec![2u32, 6, 13, 24];
    let winners = pirates_binary([3, 2, 3, 2, 2]);

    // the first, second and fourth bets all match the winners
    assert_eq!(won_units(&bins, &odds, winners), 2 + 6 + 24);
    // no winners yet: nothing is won
    assert_eq!(won_units(&bins, &odds, 0), 0);
}

#[test]
fn test_not_guaranteed_win() {
    // a single bet can always bust
    let bets = vec![[1u8, 0, 0, 0, 0]];
    let bet_odds = vec![2u32];
    assert!(!is_bustproof(&bets, &bet_odds));
    assert!(!is_guaranteed_win(&bets, &bet_odds, &vec![Some(100)]));

    // missing stakes are never a guaranteed win
    let bets4: Vec<[u8; 5]> = vec![
        [0, 1, 0, 0, 0],
        [0, 2, 0, 0, 0],
        [0, 3, 0, 0, 0],
        [0, 4, 0, 0, 0],
    ];
    let bet_odds4: Vec<u32> = vec![2, 4, 8, 8];
    assert!(!is_guaranteed_win(
        &bets4,
        &bet_odds4,
        &vec![Some(400), None, Some(100), Some(100)]
    ));

    // unequal returns lose to the largest stake
    assert!(!is_guaranteed_win(
        &bets4,
        &bet_odds4,
        &vec![Some(400), Some(200), Some(100), Some(50)]
    ));
}
