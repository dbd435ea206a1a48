use neofoodclub::bets::BetAmounts;
use neofoodclub::codec::amounts_hash_to_bet_amounts;
use neofoodclub::codec::bet_amounts_to_amounts_hash;
use neofoodclub::codec::bets_hash_regex_check;
use neofoodclub::codec::bets_hash_to_bet_binaries;
use neofoodclub::codec::bets_hash_to_bet_indices;
use neofoodclub::codec::bets_hash_to_bets_count;
use neofoodclub::codec::bets_hash_value;
use neofoodclub::codec::bets_indices_to_bet_binaries;
use neofoodclub::math::BET_AMOUNT_MAX;
use neofoodclub::math::BET_AMOUNT_MIN;

#[test]
fn test_bets_hash_to_bet_indices_cases() {
    let bin = bets_hash_to_bet_indices("").unwrap();
    assert_eq!(bin, Vec::<[u8; 5]>::new());

    let bin = bets_hash_to_bet_indices("f").unwrap();
    assert_eq!(bin, [[1, 0, 0, 0, 0]]);

    let bin = bets_hash_to_bet_indices("faa").unwrap();
    assert_eq!(bin, [[1, 0, 0, 0, 0]]);

    let bin = bets_hash_to_bet_indices("faafaafaafaafaafaa").unwrap();
    assert_eq!(
        bin,
        [
            [1, 0, 0, 0, 0],
            [0, 1, 0, 0, 0],
            [0, 0, 1, 0, 0],
            [0, 0, 0, 1, 0],
            [0, 0, 0, 0, 1],
            [1, 0, 0, 0, 0]
        ]
    );

    let bin = bets_hash_to_bet_indices("jmbcoemycobmbhofmdcoamyck").unwrap();
    assert_eq!(
        bin,
        [
            [1, 4, 2, 2, 0],
            [1, 0, 2, 2, 4],
            [0, 4, 2, 2, 4],
            [4, 0, 2, 2, 4],
            [0, 1, 2, 2, 0],
            [1, 1, 2, 2, 4],
            [1, 0, 2, 2, 0],
            [3, 0, 2, 2, 4],
            [0, 0, 2, 2, 4],
            [4, 0, 2, 2, 0]
        ]
    );
}

#[test]
fn test_bets_hash_to_bets_count() {
    let bets_hash = "aukacfukycuulacauutcbukdc";
    let bets = bets_hash_to_bets_count(bets_hash);

    assert_eq!(bets.unwrap(), 10);
}

#[test]
fn test_bets_hash_to_bets_count_cases() {
    assert_eq!(bets_hash_to_bets_count("faa").unwrap(), 1);
    assert_eq!(bets_hash_to_bets_count("faafaafaafaafaafaa").unwrap(), 6);
    assert_eq!(
        bets_hash_to_bets_count("jmbcoemycobmbhofmdcoamyck").unwrap(),
        10
    );
    assert_eq!(
        bets_hash_to_bets_count("dgpqsxgtqsigqqsngrqsegpvsdgfqqsgsqsdgk").unwrap(),
        15
    );
}

#[test]
fn test_bets_hash_invalid_characters() {
    assert!(bets_hash_regex_check("abcz").is_err());
    assert!(bets_hash_to_bets_count("🎲").is_err());
    assert!(bets_hash_to_bet_indices("ABC").is_err());
    assert!(bets_hash_to_bet_binaries("a-a").is_err());
    assert!(bets_hash_regex_check("aay").is_ok());
}

#[test]
fn test_bets_hash_to_bet_binaries_cases() {
    let bins = bets_hash_to_bet_binaries("faa").unwrap();
    assert_eq!(bins, vec![0x80000]);

    let bins = bets_hash_to_bet_binaries("faafaafaafaafaafaa").unwrap();
    assert_eq!(bins, vec![0x80000, 0x8000, 0x800, 0x80, 0x8, 0x80000]);

    let bins = bets_hash_to_bet_binaries("ltqvqwgimhqtvrnywrwvijwnn").unwrap();
    assert_eq!(
        bins,
        vec![
            0x48212, 0x81828, 0x14888, 0x24484, 0x28211, 0x82442, 0x11142, 0x41418, 0x82811,
            0x44242
        ]
    );
}

#[test]
fn test_bets_hash_value_roundtrip() {
    // re-encoding a decoded hash reproduces it exactly
    let hash = bets_hash_value(vec![[1, 0, 0, 0, 0]]);
    assert_eq!(hash, "faa");

    let decoded = bets_hash_to_bet_indices("faa").unwrap();
    assert_eq!(decoded, [[1, 0, 0, 0, 0]]);
    assert_eq!(bets_hash_value(decoded), "faa");

    let crazy = "ltqvqwgimhqtvrnywrwvijwnn";
    let decoded = bets_hash_to_bet_indices(crazy).unwrap();
    assert_eq!(bets_hash_value(decoded), crazy);
}

#[test]
fn test_bets_indices_to_bet_binaries() {
    let bins = bets_indices_to_bet_binaries(vec![
        [1, 0, 0, 0, 0],
        [0, 1, 0, 0, 0],
        [0, 0, 1, 0, 0],
        [0, 0, 0, 1, 0],
        [0, 0, 0, 0, 1],
        [1, 0, 0, 0, 0],
    ]);
    assert_eq!(bins, vec![0x80000, 0x8000, 0x800, 0x80, 0x8, 0x80000]);
}

#[test]
fn test_amounts_hash_encoding_cases() {
    let hash = bet_amounts_to_amounts_hash(&vec![
        Some(50),
        Some(100),
        Some(150),
        Some(200),
        Some(250),
    ]);
    assert_eq!(hash, "AaYAbWAcUAdSAeQ");

    let hash = bet_amounts_to_amounts_hash(&vec![
        None,
        Some(50),
        Some(100),
        Some(150),
        Some(200),
        Some(250),
    ]);
    assert_eq!(hash, "AaaAaYAbWAcUAdSAeQ");

    let hash = bet_amounts_to_amounts_hash(&vec![None; 10]);
    assert_eq!(hash, "AaaAaaAaaAaaAaaAaaAaaAaaAaaAaa");
}

#[test]
fn test_amounts_hash_decoding_cases() {
    let amounts = amounts_hash_to_bet_amounts("AaYAbWAcUAdSAeQ").unwrap();
    assert_eq!(
        amounts,
        vec![Some(50), Some(100), Some(150), Some(200), Some(250)]
    );

    let amounts = amounts_hash_to_bet_amounts("EmxCoKCoKCglDKUCYqEXkByWBpqzGO").unwrap();
    assert_eq!(
        amounts,
        vec![
            Some(11463),
            Some(6172),
            Some(6172),
            Some(5731),
            Some(10030),
            Some(8024),
            Some(13374),
            Some(4000),
            Some(3500),
            None
        ]
    );
}

#[test]
fn test_amounts_hash_invalid() {
    // out-of-alphabet characters are rejected
    assert!(amounts_hash_to_bet_amounts("🎲").is_err());
    assert!(amounts_hash_to_bet_amounts("Aa!").is_err());
    // a length that is not a multiple of three is rejected
    assert!(amounts_hash_to_bet_amounts("Aa").is_err());
    assert!(amounts_hash_to_bet_amounts("AaaA").is_err());
}

#[test]
fn test_bet_amounts_hash_encoding_and_decoding() {
    for amount in BET_AMOUNT_MIN..BET_AMOUNT_MAX {
        let amounts = vec![Some(amount); 10];
        let hash = bet_amounts_to_amounts_hash(&amounts);
        assert_eq!(
            amounts_hash_to_bet_amounts(&hash).unwrap(),
            vec![Some(amount); 10]
        );
    }
}

#[test]
fn test_bet_amounts_hash_encoding_and_decoding_none() {
    // amount too low, returns None
    let amounts = vec![Some(BET_AMOUNT_MIN - 1); 10];
    let hash = bet_amounts_to_amounts_hash(&amounts);
    assert_eq!(
        amounts_hash_to_bet_amounts(&hash).unwrap(),
        vec![None; 10]
    );
}

#[test]
fn test_amounts_hash_offset_boundary() {
    // the offset value itself encodes like an absent stake and decodes absent
    let amounts = vec![Some(BET_AMOUNT_MAX)];
    let hash = bet_amounts_to_amounts_hash(&amounts);
    assert_eq!(hash, "Aaa");
    assert_eq!(amounts_hash_to_bet_amounts(&hash).unwrap(), vec![None]);
}

#[test]
fn test_betamounts_to_vec_with_hash() {
    let amounts = BetAmounts::AmountHash("EmxCoKCoKCglDKUCYqEXkByWBpqzGO".to_owned());
    assert_eq!(
        amounts.to_vec(),
        Some(vec![
            Some(11463),
            Some(6172),
            Some(6172),
            Some(5731),
            Some(10030),
            Some(8024),
            Some(13374),
            Some(4000),
            Some(3500),
        ])
    );
}

#[test]
fn test_betamounts_from_amount() {
    assert_eq!(BetAmounts::from_amount(8000, 0), BetAmounts::Empty);
    assert_eq!(BetAmounts::from_amount(0, 10), BetAmounts::Empty);
    assert_eq!(BetAmounts::from_amount(70305, 10), BetAmounts::Empty);
    assert_eq!(
        BetAmounts::from_amount(8000, 3),
        BetAmounts::Amounts(vec![Some(8000); 3])
    );
}

#[test]
fn test_bets_set_bet_amounts_zero_length() {
    assert_eq!(BetAmounts::from_amount(8000, 0), BetAmounts::Empty);
}
