use top_cards::{deck_matches_criteria, Card, CardCriterion, Deck};

fn create_test_deck(mainboard: Vec<(&str, u32)>, sideboard: Vec<(&str, u32)>) -> Deck {
    Deck {
        player: Some("TestPlayer".to_string()),
        result: Some("1st".to_string()),
        url: Some("https://example.com/deck/123".to_string()),
        mainboard: Some(
            mainboard
                .into_iter()
                .map(|(name, count)| Card { name: name.to_string(), count })
                .collect(),
        ),
        sideboard: Some(
            sideboard
                .into_iter()
                .map(|(name, count)| Card { name: name.to_string(), count })
                .collect(),
        ),
    }
}

fn criterion(name: &str, count: Option<u32>) -> CardCriterion {
    CardCriterion { name: name.to_string(), count }
}

#[test]
fn test_deck_matches_single_card_present() {
    let deck = create_test_deck(vec![("Lightning Bolt", 4), ("Mountain", 20)], vec![]);
    let criteria = vec![criterion("Lightning Bolt", None)];

    let result = deck_matches_criteria(&deck, &criteria, false, false);
    assert!(result.is_some());
    let matches = result.unwrap();
    assert_eq!(matches.len(), 1);
    assert_eq!(matches[0].found_main, 4);
}

#[test]
fn test_deck_matches_single_card_missing() {
    let deck = create_test_deck(vec![("Mountain", 20)], vec![]);
    let criteria = vec![criterion("Lightning Bolt", None)];

    let result = deck_matches_criteria(&deck, &criteria, false, false);
    assert!(result.is_none());
}

#[test]
fn test_deck_matches_with_count_satisfied() {
    let deck = create_test_deck(vec![("Lightning Bolt", 4)], vec![]);
    let criteria = vec![criterion("Lightning Bolt", Some(4))];

    let result = deck_matches_criteria(&deck, &criteria, false, false);
    assert!(result.is_some());
}

#[test]
fn test_deck_matches_with_count_not_satisfied() {
    let deck = create_test_deck(vec![("Lightning Bolt", 2)], vec![]);
    let criteria = vec![criterion("Lightning Bolt", Some(4))];

    let result = deck_matches_criteria(&deck, &criteria, false, false);
    assert!(result.is_none());
}

#[test]
fn test_deck_matches_exact_count_satisfied() {
    let deck = create_test_deck(vec![("Lightning Bolt", 2)], vec![]);
    let criteria = vec![criterion("Lightning Bolt", Some(2))];

    let result = deck_matches_criteria(&deck, &criteria, true, false);
    assert!(result.is_some());
}

#[test]
fn test_deck_matches_exact_count_not_satisfied() {
    let deck = create_test_deck(vec![("Lightning Bolt", 4)], vec![]);
    let criteria = vec![criterion("Lightning Bolt", Some(2))];

    // exact, so 4 != 2
    let result = deck_matches_criteria(&deck, &criteria, true, false);
    assert!(result.is_none());
}

#[test]
fn test_deck_matches_sideboard_included() {
    let deck = create_test_deck(vec![("Mountain", 20)], vec![("Blood Moon", 2)]);
    let criteria = vec![criterion("Blood Moon", None)];

    // Without sideboard
    let result = deck_matches_criteria(&deck, &criteria, false, false);
    assert!(result.is_none());

    // With sideboard
    let result = deck_matches_criteria(&deck, &criteria, false, true);
    assert!(result.is_some());
    let matches = result.unwrap();
    assert_eq!(matches[0].found_side, 2);
}

#[test]
fn test_deck_matches_multiple_criteria_all_match() {
    let deck = create_test_deck(
        vec![("Lightning Bolt", 4), ("Ragavan, Nimble Pilferer", 4)],
        vec![],
    );
    let criteria = vec![
        criterion("Lightning Bolt", Some(4)),
        criterion("Ragavan, Nimble Pilferer", Some(4)),
    ];

    let result = deck_matches_criteria(&deck, &criteria, false, false);
    assert!(result.is_some());
    let matches = result.unwrap();
    assert_eq!(matches.len(), 2);
}

#[test]
fn test_deck_matches_multiple_criteria_one_missing() {
    let deck = create_test_deck(vec![("Lightning Bolt", 4)], vec![]);
    let criteria = vec![
        criterion("Lightning Bolt", Some(4)),
        criterion("Ragavan, Nimble Pilferer", Some(4)),
    ];

    let result = deck_matches_criteria(&deck, &criteria, false, false);
    assert!(result.is_none());
}

#[test]
fn test_deck_matches_case_insensitive() {
    let deck = create_test_deck(vec![("Lightning Bolt", 4)], vec![]);
    let criteria = vec![criterion("LIGHTNING BOLT", None)];

    let result = deck_matches_criteria(&deck, &criteria, false, false);
    assert!(result.is_some());
}

#[test]
fn and_semantics_reports_each_criterion() {
    let deck = create_test_deck(
        vec![("Lightning Bolt", 4), ("Ragavan, Nimble Pilferer", 4)],
        vec![("Lightning Bolt", 1)],
    );
    let criteria = vec![
        criterion("Lightning Bolt", Some(4)),
        criterion("Ragavan, Nimble Pilferer", Some(4)),
    ];
    let matches = deck_matches_criteria(&deck, &criteria, false, false).unwrap();
    assert_eq!(matches[0].name, "Lightning Bolt");
    assert_eq!(matches[0].requested, Some(4));
    assert_eq!(matches[0].found_main, 4);
    assert_eq!(matches[0].found_side, 1);
    assert_eq!(matches[1].found_main, 4);
    assert_eq!(matches[1].found_side, 0);

    let without_ragavan = create_test_deck(vec![("Lightning Bolt", 4)], vec![]);
    assert!(deck_matches_criteria(&without_ragavan, &criteria, false, false).is_none());
}

#[test]
fn exact_mode_two_copies() {
    let criteria = vec![criterion("Lightning Bolt", Some(2))];
    let four = create_test_deck(vec![("Lightning Bolt", 4)], vec![]);
    let two = create_test_deck(vec![("Lightning Bolt", 2)], vec![]);
    assert!(deck_matches_criteria(&four, &criteria, true, false).is_none());
    assert!(deck_matches_criteria(&two, &criteria, true, false).is_some());
}

#[test]
fn duplicate_lines_are_summed_case_insensitively() {
    let deck = create_test_deck(vec![("Lightning Bolt", 2), ("lightning bolt", 2)], vec![]);
    let criteria = vec![criterion("Lightning Bolt", Some(4))];
    let matches = deck_matches_criteria(&deck, &criteria, true, false).unwrap();
    assert_eq!(matches[0].found_main, 4);
}

#[test]
fn sideboard_counts_add_up_when_included() {
    let deck = create_test_deck(vec![("Blood Moon", 1)], vec![("Blood Moon", 2)]);
    let criteria = vec![criterion("Blood Moon", Some(3))];
    assert!(deck_matches_criteria(&deck, &criteria, true, false).is_none());
    assert!(deck_matches_criteria(&deck, &criteria, true, true).is_some());
}

#[test]
fn absent_boards_and_no_criteria() {
    let deck = Deck { player: None, result: None, url: None, mainboard: None, sideboard: None };
    assert_eq!(deck_matches_criteria(&deck, &[], false, false).map(|m| m.len()), Some(0));
    let criteria = vec![criterion("Island", None)];
    assert!(deck_matches_criteria(&deck, &criteria, false, true).is_none());
    // A required count of zero is met by a deck without the card, in either mode.
    let zero = vec![criterion("Island", Some(0))];
    assert!(deck_matches_criteria(&deck, &zero, true, false).is_some());
}
