use pazaak::cards::{Card, SpecialType};
use pazaak::deck_file::{deck_from_lines, DeckError};
use pazaak::parse::parse_value;

fn lines(texts: &[&str]) -> Vec<String> {
    texts.iter().map(|t| t.to_string()).collect()
}

#[test]
fn plain_cards_are_whole_numbers() {
    for (text, value) in [("5", 5), ("+5", 5), ("-3", -3), ("0", 0), ("10", 10), ("007", 7), ("-127", -127)] {
        let card = Card::from_string(text).unwrap();
        assert_eq!(card.value, value);
        assert_eq!(card.values_list, vec![value]);
        assert_eq!(card.special_type, SpecialType::Plain);
    }
}

#[test]
fn cards_with_two_values_start_unresolved() {
    let card = Card::from_string("+1/-1").unwrap();
    assert_eq!(card.special_type, SpecialType::Flip);
    assert_eq!(card.values_list, vec![1, -1]);
    assert_eq!(card.value, 0);
    let card = Card::from_string("12/3").unwrap();
    assert_eq!(card.values_list, vec![12, 3]);
}

#[test]
fn tiebreakers_end_in_a_letter() {
    let card = Card::from_string("+1/-1T").unwrap();
    assert_eq!(card.special_type, SpecialType::TieBreaker);
    assert_eq!(card.values_list, vec![1, -1]);
    assert_eq!(card.value, 0);
    let card = Card::from_string("+1/-1-2T").unwrap();
    assert_eq!(card.special_type, SpecialType::TieBreaker);
    assert_eq!(card.values_list, vec![1, -2]);
}

#[test]
fn inverting_cards_list_two_values() {
    let card = Card::from_string("2&4").unwrap();
    assert_eq!(card.special_type, SpecialType::Invert);
    assert_eq!(card.values_list, vec![2, 4]);
    assert_eq!(card.value, 0);
}

#[test]
fn the_echo_card_is_a_letter() {
    let card = Card::from_string("D").unwrap();
    assert_eq!(card.special_type, SpecialType::Double);
    assert_eq!(card.values_list, vec![0]);
    assert_eq!(card.value, 0);
}

#[test]
fn other_texts_are_no_cards() {
    for text in ["", " 5", "5 ", "five", "+", "-", "1/2/3", "+10/-10", "2&", "&4", "-2&4", "d", "DD", "T", "1T", "5\n", "1.5"] {
        assert!(Card::from_string(text).is_none());
    }
}

#[test]
fn values_out_of_range_are_no_cards() {
    for text in ["128", "-128", "-129", "1000", "99999999999999999999", "200&4", "2&400", "300/1", "300/1T"] {
        assert!(Card::from_string(text).is_none());
    }
    assert!(Card::from_string("127").is_some());
    assert!(Card::from_string("127&127").is_some());
}

#[test]
fn digits_of_other_scripts_are_no_values() {
    assert!(Card::from_string("\u{0663}").is_none());
    assert_eq!(parse_value("\u{0663}"), None);
}

#[test]
fn values_are_read_with_or_without_a_sign() {
    assert_eq!(parse_value("0"), Some(0));
    assert_eq!(parse_value("-0"), Some(0));
    assert_eq!(parse_value("+0"), Some(0));
    assert_eq!(parse_value("42"), Some(42));
    assert_eq!(parse_value("+42"), Some(42));
    assert_eq!(parse_value("-42"), Some(-42));
    assert_eq!(parse_value("0000127"), Some(127));
    assert_eq!(parse_value("-127"), Some(-127));
    assert_eq!(parse_value("128"), None);
    assert_eq!(parse_value("-128"), None);
    assert_eq!(parse_value("1001"), None);
    assert_eq!(parse_value("4294967297"), None);
    assert_eq!(parse_value(""), None);
    assert_eq!(parse_value("+"), None);
    assert_eq!(parse_value("-"), None);
    assert_eq!(parse_value("+-1"), None);
    assert_eq!(parse_value("1-"), None);
    assert_eq!(parse_value("1 "), None);
    assert_eq!(parse_value("a"), None);
}

#[test]
fn groups_make_cards_of_the_kind_asked_for() {
    let groups = vec![Some("x".to_string()), Some("3".to_string()), Some("-4".to_string())];
    let card = Card::from_groups(SpecialType::Invert, &groups).unwrap();
    assert_eq!(card.values_list, vec![3, -4]);
    assert_eq!(card.value, 0);
    let card = Card::from_groups(SpecialType::Plain, &groups).unwrap();
    assert_eq!(card.values_list, vec![3]);
    assert_eq!(card.value, 3);
    let card = Card::from_groups(SpecialType::Double, &vec![]).unwrap();
    assert_eq!(card.values_list, vec![0]);
    assert!(Card::from_groups(SpecialType::Flip, &vec![Some("1/2".to_string())]).is_none());
    assert!(Card::from_groups(SpecialType::Plain, &vec![Some("1".to_string())]).is_none());
    assert!(Card::from_groups(SpecialType::Plain, &vec![Some("1".to_string()), None]).is_none());
    let absent = vec![Some("x".to_string()), Some("3".to_string()), None];
    assert!(Card::from_groups(SpecialType::Flip, &absent).is_none());
    let wrong = vec![Some("x".to_string()), Some("a".to_string()), Some("3".to_string())];
    assert!(Card::from_groups(SpecialType::TieBreaker, &wrong).is_none());
}

#[test]
fn deck_is_read_line_by_line() {
    let deck = deck_from_lines(&lines(&["1", "+2/-2", "3&6", "D", "1/2T", "-4"])).unwrap();
    let kinds: Vec<SpecialType> = deck.cards.iter().map(|c| c.special_type).collect();
    assert_eq!(
        kinds,
        vec![
            SpecialType::Plain,
            SpecialType::Flip,
            SpecialType::Invert,
            SpecialType::Double,
            SpecialType::TieBreaker,
            SpecialType::Plain
        ]
    );
    assert_eq!(deck.cards[5].value, -4);
    assert!(deck_from_lines(&vec![]).unwrap().cards.is_empty());
}

#[test]
fn deck_with_a_bad_line_is_refused() {
    assert_eq!(
        deck_from_lines(&lines(&["1", "x", "y"])).err(),
        Some(DeckError::InvalidCard { line: 1 })
    );
    assert_eq!(deck_from_lines(&lines(&[""])).err(), Some(DeckError::InvalidCard { line: 0 }));
}

#[test]
fn deck_with_too_many_of_a_kind_is_refused() {
    assert_eq!(
        deck_from_lines(&lines(&["D", "1", "D"])).err(),
        Some(DeckError::TooManyCards { kind: SpecialType::Double, line: 2 })
    );
    assert_eq!(
        deck_from_lines(&lines(&["1/2T", "2/1T"])).err(),
        Some(DeckError::TooManyCards { kind: SpecialType::TieBreaker, line: 1 })
    );
    let mut plain = vec!["3"; 24];
    assert_eq!(deck_from_lines(&lines(&plain)).unwrap().cards.len(), 24);
    plain.push("4");
    assert_eq!(
        deck_from_lines(&lines(&plain)).err(),
        Some(DeckError::TooManyCards { kind: SpecialType::Plain, line: 24 })
    );
    let mut flips = vec!["1/2"; 12];
    let mut inverts = vec!["1&2"; 12];
    flips.append(&mut inverts);
    assert_eq!(deck_from_lines(&lines(&flips)).unwrap().cards.len(), 24);
    flips.push("1&2");
    assert_eq!(
        deck_from_lines(&lines(&flips)).err(),
        Some(DeckError::TooManyCards { kind: SpecialType::Invert, line: 24 })
    );
    flips.pop();
    flips.insert(3, "bad");
    flips.push("1/2");
    assert_eq!(deck_from_lines(&lines(&flips)).err(), Some(DeckError::InvalidCard { line: 3 }));
}
