use pazaak::cards::{
    apply_board_effect, determine_match_winner, Board, Card, CardError, Deck, Game, Hand, Match,
    MatchDetails, SpecialType, Status, TARGET_TOTAL, WINNING_SCORE,
};

fn card(values: Vec<i8>, value: i8, special_type: SpecialType) -> Card {
    Card { values_list: values, value, special_type }
}

fn values_of(cards: &Vec<Card>) -> Vec<i8> {
    cards.iter().map(|c| c.value).collect()
}

fn plain_deck(values: &[i8]) -> Deck {
    let mut deck = Deck::new();
    for value in values {
        deck.cards.push(Card::new(*value));
    }
    deck
}

#[test]
fn new_card_is_plain() {
    let made = Card::new(7);
    assert_eq!(made.values_list, vec![7]);
    assert_eq!(made.value, 7);
    assert_eq!(made.special_type, SpecialType::Plain);
    assert!(!made.needs_choice());
}

#[test]
fn resolving_takes_the_chosen_value() {
    let mut flip = card(vec![3, -3], 0, SpecialType::Flip);
    assert!(flip.needs_choice());
    assert_eq!(flip.resolve_value(1), Ok(()));
    assert_eq!(flip.value, -3);
    assert_eq!(flip.resolve_value(0), Ok(()));
    assert_eq!(flip.value, 3);
    assert_eq!(flip.values_list, vec![3, -3]);
}

#[test]
fn resolving_out_of_range_is_an_error_and_changes_nothing() {
    let mut breaker = card(vec![1, -1], 1, SpecialType::TieBreaker);
    assert_eq!(breaker.resolve_value(2), Err(CardError::ChoiceOutOfRange));
    assert_eq!(breaker.value, 1);
    assert_eq!(breaker.values_list, vec![1, -1]);
}

#[test]
fn resolving_a_card_without_choice_changes_nothing() {
    let mut plain = Card::new(4);
    assert_eq!(plain.resolve_value(9), Ok(()));
    assert_eq!(plain.value, 4);
    let mut invert = card(vec![2, 4], 0, SpecialType::Invert);
    assert_eq!(invert.resolve_value(1), Ok(()));
    assert_eq!(invert.value, 0);
}

#[test]
fn cards_compare_by_content() {
    let first = card(vec![1, -1], 1, SpecialType::Flip);
    let copy = first.clone();
    assert!(first.same_as(&copy));
    assert!(!first.same_as(&card(vec![1, -1], -1, SpecialType::Flip)));
    assert!(!first.same_as(&card(vec![1, -1], 1, SpecialType::TieBreaker)));
    assert!(!first.same_as(&card(vec![1], 1, SpecialType::Flip)));
    assert!(!first.same_as(&card(vec![1, 2], 1, SpecialType::Flip)));
}

#[test]
fn inverting_negates_the_listed_values_only() {
    let mut board = Board { cards: vec![Card::new(2), Card::new(3), Card::new(4), Card::new(-2)] };
    let mut played = card(vec![2, 4], 0, SpecialType::Invert);
    apply_board_effect(SpecialType::Invert, &mut played, &mut board);
    assert_eq!(values_of(&board.cards), vec![-2, 3, -4, -2]);
    assert_eq!(played.value, 0);
    assert_eq!(board.total(), -5);
}

#[test]
fn echo_takes_the_last_value() {
    let mut board = Board { cards: vec![Card::new(2), Card::new(9)] };
    let mut played = card(vec![0], 0, SpecialType::Double);
    apply_board_effect(SpecialType::Double, &mut played, &mut board);
    assert_eq!(played.value, 9);
    assert_eq!(values_of(&board.cards), vec![2, 9]);
}

#[test]
fn echo_on_an_empty_board_does_nothing() {
    let mut board = Board { cards: vec![] };
    let mut played = card(vec![0], 0, SpecialType::Double);
    apply_board_effect(SpecialType::Double, &mut played, &mut board);
    assert_eq!(played.value, 0);
    assert!(board.cards.is_empty());
}

#[test]
fn other_kinds_have_no_effect() {
    let mut board = Board { cards: vec![Card::new(2), Card::new(4)] };
    let mut played = card(vec![2, 4], 2, SpecialType::Flip);
    apply_board_effect(SpecialType::Flip, &mut played, &mut board);
    apply_board_effect(SpecialType::TieBreaker, &mut played, &mut board);
    apply_board_effect(SpecialType::Plain, &mut played, &mut board);
    assert_eq!(values_of(&board.cards), vec![2, 4]);
    assert_eq!(played.value, 2);
}

#[test]
fn effect_goes_by_the_kind_given() {
    let mut board = Board { cards: vec![Card::new(5)] };
    let mut played = Card::new(5);
    apply_board_effect(SpecialType::Invert, &mut played, &mut board);
    assert_eq!(values_of(&board.cards), vec![-5]);
}

#[test]
fn total_is_the_live_sum() {
    let mut board = Board { cards: vec![] };
    assert_eq!(board.total(), 0);
    board.cards.push(Card::new(10));
    board.cards.push(Card::new(-3));
    assert_eq!(board.total(), 7);
    board.cards[0].value = 1;
    assert_eq!(board.total(), -2);
}

#[test]
fn total_does_not_overflow_a_byte() {
    let mut board = Board { cards: vec![] };
    for _ in 0..100 {
        board.cards.push(Card::new(127));
    }
    assert_eq!(board.total(), 12700);
}

#[test]
fn tiebreaker_is_found_on_the_board() {
    let mut board = Board { cards: vec![Card::new(1), Card::new(2)] };
    assert!(!board.has_tiebreaker());
    board.cards.push(card(vec![1, -1], 1, SpecialType::TieBreaker));
    assert!(board.has_tiebreaker());
}

#[test]
fn deck_draws_from_the_top() {
    let mut deck = plain_deck(&[1, 2, 3]);
    assert_eq!(deck.draw().map(|c| c.value), Some(3));
    assert_eq!(deck.draw().map(|c| c.value), Some(2));
    assert_eq!(deck.draw().map(|c| c.value), Some(1));
    assert!(deck.draw().is_none());
    assert!(deck.cards.is_empty());
}

#[test]
fn default_fill_adds_forty_cards() {
    let mut deck = plain_deck(&[-5]);
    deck.default_fill();
    assert_eq!(deck.cards.len(), 41);
    let mut expected = vec![-5];
    for _ in 0..4 {
        for value in 1..=10 {
            expected.push(value);
        }
    }
    assert_eq!(values_of(&deck.cards), expected);
    assert!(deck.cards.iter().all(|c| c.special_type == SpecialType::Plain));
    assert!(deck.cards.iter().all(|c| c.values_list == vec![c.value]));
}

#[test]
fn shuffle_keeps_the_cards() {
    let mut deck = Deck::new();
    deck.default_fill();
    let before = values_of(&deck.cards);
    let mut moved = false;
    for _ in 0..20 {
        deck.shuffle();
        let after = values_of(&deck.cards);
        if after != before {
            moved = true;
        }
        let mut sorted = after.clone();
        sorted.sort();
        let mut expected = before.clone();
        expected.sort();
        assert_eq!(sorted, expected);
    }
    assert!(moved);
}

#[test]
fn anonymous_hand_hides_the_cards() {
    let mut hand = Hand::new();
    assert_eq!(hand.get_anonymous_hand_string(), "<Empty Hand>");
    hand.cards.push(Card::new(1));
    assert_eq!(hand.get_anonymous_hand_string(), "?");
    hand.cards.push(Card::new(2));
    hand.cards.push(Card::new(3));
    assert_eq!(hand.get_anonymous_hand_string(), "?, ?, ?");
}

#[test]
fn new_game_has_empty_boards_and_a_full_deck() {
    let game = Game::new();
    assert!(game.board[0].cards.is_empty());
    assert!(game.board[1].cards.is_empty());
    assert_eq!(game.turn, 1);
    assert_eq!(game.winner, 0);
    let mut values = values_of(&game.deck.cards);
    values.sort();
    let mut expected = Vec::new();
    for value in 1..=10 {
        for _ in 0..4 {
            expected.push(value);
        }
    }
    assert_eq!(values, expected);
}

#[test]
fn match_deals_four_cards_from_the_top() {
    let started = Match::new(plain_deck(&[1, 2, 3, 4, 5, 6]), plain_deck(&[7, 8, 9, 10]));
    assert_eq!(values_of(&started.players[0].hand.cards), vec![6, 5, 4, 3]);
    assert_eq!(values_of(&started.players[0].deck.cards), vec![1, 2]);
    assert_eq!(values_of(&started.players[1].hand.cards), vec![10, 9, 8, 7]);
    assert!(started.players[1].deck.cards.is_empty());
    assert!(started.games.is_empty());
    assert_eq!(started.match_detail.round, 0);
    assert_eq!(started.match_detail.score, [0, 0]);
    assert!(started.players[0].status == Status::Playing);
    assert!(started.players[1].status == Status::Playing);
}

#[test]
fn new_round_resets_the_sides() {
    let mut played = Match::new(plain_deck(&[1, 2, 3, 4]), plain_deck(&[1, 2, 3, 4]));
    played.players[0].status = Status::Busted;
    played.players[1].status = Status::Standing;
    played.new_game();
    assert_eq!(played.games.len(), 1);
    assert_eq!(played.match_detail.round, 1);
    assert!(played.players[0].status == Status::Playing);
    assert!(played.players[1].status == Status::Playing);
    assert_eq!(played.players[0].hand.cards.len(), 4);
    played.new_game();
    assert_eq!(played.games.len(), 2);
    assert_eq!(played.match_detail.round, 2);
}

#[test]
fn current_game_is_the_round_in_play() {
    let mut played = Match::new(plain_deck(&[1, 2, 3, 4]), plain_deck(&[1, 2, 3, 4]));
    played.new_game();
    played.new_game();
    played.current_game().turn = 9;
    played.current_game().board[0].cards.push(Card::new(3));
    assert_eq!(played.games[1].turn, 9);
    assert_eq!(played.games[1].board[0].cards.len(), 1);
    assert_eq!(played.games[0].turn, 1);
    assert!(played.games[0].board[0].cards.is_empty());
}

#[test]
fn match_is_won_at_three_rounds() {
    let mut played = Match::new(plain_deck(&[1, 2, 3, 4]), plain_deck(&[1, 2, 3, 4]));
    assert_eq!(played.check_win(), None);
    played.match_detail.score = [2, 2];
    assert_eq!(played.check_win(), None);
    played.match_detail.score = [3, 2];
    assert_eq!(played.check_win(), Some(0));
    played.match_detail.score = [1, 3];
    assert_eq!(played.check_win(), Some(1));
    played.match_detail.score = [3, 3];
    assert_eq!(played.check_win(), Some(0));
}

#[test]
fn match_winner_for_another_score() {
    assert_eq!(determine_match_winner(&[3, 5], 5), Some(1));
    assert_eq!(determine_match_winner(&[3, 4], 5), None);
    assert_eq!(determine_match_winner(&[5, 0], 5), Some(0));
    assert_eq!(WINNING_SCORE, 3);
    assert_eq!(TARGET_TOTAL, 20);
}

#[test]
fn match_details_start_at_zero() {
    let details = MatchDetails::new();
    assert_eq!(details.round, 0);
    assert_eq!(details.score, [0, 0]);
}

#[test]
fn distance_is_the_target_less_the_total() {
    let board = Board { cards: vec![Card::new(10), Card::new(9)] };
    assert_eq!(board.distance(20), 1);
    assert_eq!(board.distance(19), 0);
    assert_eq!(board.distance(10), -9);
    assert_eq!(Board { cards: vec![] }.distance(TARGET_TOTAL), 20);
}

#[test]
fn fresh_round_holds_cards_that_can_be_negated() {
    let game = Game::new();
    assert_eq!(game.deck.cards.len(), 40);
    for card in &game.deck.cards {
        assert!(!card.values_list.is_empty());
        assert!(card.value > i8::MIN);
        assert!(card.values_list.iter().all(|value| *value > i8::MIN));
    }
    let mut played = Match::new(plain_deck(&[1, 2, 3, 4]), plain_deck(&[1, 2, 3, 4]));
    played.new_game();
    assert_eq!(played.games[0].deck.cards.len(), 40);
    assert!(played.games[0].deck.cards.iter().all(|card| card.value >= 1 && card.value <= 10));
}
