use neofoodclub::oddschange::arena_name;
use neofoodclub::oddschange::OddsChange;
use neofoodclub::pirates::pirate_name;
use neofoodclub::pirates::PartialPirate;
use neofoodclub::pirates::PartialPirateThings;
use neofoodclub::pirates::Pirate;
use neofoodclub::round_data::validate_round_data;
use neofoodclub::round_data::RoundData;

fn get_base_round_data() -> RoundData {
    RoundData {
        round: 9300,
        pirates: [
            [1, 2, 3, 4],
            [5, 6, 7, 8],
            [9, 10, 11, 12],
            [13, 14, 15, 16],
            [17, 18, 19, 20],
        ],
        currentOdds: [
            [1, 2, 3, 4, 5],
            [1, 6, 7, 8, 9],
            [1, 2, 3, 4, 5],
            [1, 6, 7, 8, 9],
            [1, 2, 3, 4, 5],
        ],
        openingOdds: [
            [1, 2, 3, 4, 5],
            [1, 6, 7, 8, 9],
            [1, 2, 3, 4, 5],
            [1, 6, 7, 8, 9],
            [1, 2, 3, 4, 5],
        ],
        foods: None,
        winners: None,
        customOdds: None,
        start: None,
        timestamp: None,
        changes: None,
        lastChange: None,
    }
}

#[test]
fn test_validate_base_round_data() {
    assert!(validate_round_data(&get_base_round_data()).is_ok());
}

#[test]
fn test_validate_round_zero() {
    let mut data = get_base_round_data();
    data.round = 0;
    let err = validate_round_data(&data).unwrap_err();
    assert_eq!(err, "Round number must be greater than 0.");
}

#[test]
fn test_validate_duplicate_pirates() {
    let mut data = get_base_round_data();
    data.pirates[0][0] = 5; // now 5 is in two places
    let err = validate_round_data(&data).unwrap_err();
    assert_eq!(err, "Pirates must be unique.");
}

#[test]
fn test_validate_invalid_pirate_id() {
    let mut data = get_base_round_data();
    data.pirates[0][0] = 21;
    let err = validate_round_data(&data).unwrap_err();
    assert_eq!(err, "Pirate IDs must be between 1 and 20.");
}

#[test]
fn test_validate_current_odds_first_element_not_1() {
    let mut data = get_base_round_data();
    data.currentOdds[0][0] = 2;
    let err = validate_round_data(&data).unwrap_err();
    assert_eq!(err, "First integer in each arena in currentOdds must be 1.");
}

#[test]
fn test_validate_current_odds_out_of_range() {
    let mut data = get_base_round_data();
    data.currentOdds[0][1] = 14;
    let err = validate_round_data(&data).unwrap_err();
    assert_eq!(err, "Odds must be between 2 and 13.");
}

#[test]
fn test_validate_opening_odds_first_element_not_1() {
    let mut data = get_base_round_data();
    data.openingOdds[0][0] = 2;
    let err = validate_round_data(&data).unwrap_err();
    assert_eq!(err, "First integer in each arena in openingOdds must be 1.");
}

#[test]
fn test_validate_opening_odds_out_of_range() {
    let mut data = get_base_round_data();
    data.openingOdds[0][1] = 1;
    let err = validate_round_data(&data).unwrap_err();
    assert_eq!(err, "Odds must be between 2 and 13.");
}

#[test]
fn test_validate_invalid_food_id() {
    let mut data = get_base_round_data();
    data.foods = Some([[41; 10]; 5]);
    let err = validate_round_data(&data).unwrap_err();
    assert_eq!(err, "Food integers must be between 1 and 40.");
}

#[test]
fn test_validate_invalid_winners() {
    let mut data = get_base_round_data();
    data.winners = Some([1, 2, 3, 4, 0]);
    let err = validate_round_data(&data).unwrap_err();
    assert_eq!(err, "Winners must either be all 0, or all 1-4.");
}

#[test]
fn test_validate_all_zero_winners() {
    let mut data = get_base_round_data();
    data.winners = Some([0; 5]);
    assert!(validate_round_data(&data).is_ok());
    data.winners = Some([3, 2, 3, 2, 2]);
    assert!(validate_round_data(&data).is_ok());
}

#[test]
fn test_arena_names() {
    assert_eq!(arena_name(0), "Shipwreck");
    assert_eq!(arena_name(1), "Lagoon");
    assert_eq!(arena_name(2), "Treasure");
    assert_eq!(arena_name(3), "Hidden");
    assert_eq!(arena_name(4), "Harpoon");
}

#[test]
fn test_odds_change_accessors() {
    let change = OddsChange {
        t: "2023-05-06T00:17:30+00:00".to_owned(),
        new_odds: 7,
        old_odds: 5,
        arena: 1,
        pirate: 3,
    };
    assert_eq!(change.arena(), "Lagoon");
    assert_eq!(change.arena_index(), 1);
    assert_eq!(change.pirate_index(), 3);
}

#[test]
fn test_pirate_names() {
    assert_eq!(pirate_name(1), "Dan");
    assert_eq!(pirate_name(2), "Sproggie");
    assert_eq!(pirate_name(20), "Tailhook");
}

#[test]
fn test_partial_pirate_get_image() {
    let pirate = PartialPirate { id: 1 };
    assert_eq!(pirate.get_name(), "Dan");
    assert_eq!(
        pirate.get_image(),
        "http://images.neopets.com/pirates/fc/fc_pirate_1.gif"
    );
}

#[test]
fn test_pirate_binary_method() {
    let pirate = Pirate {
        id: 6,
        arena_id: 2,
        index: 3,
        current_odds: 4,
        opening_odds: 5,
        pfa: None,
        nfa: None,
        fa: None,
        is_winner: false,
    };
    assert_eq!(pirate.binary(), 0x200);
}
