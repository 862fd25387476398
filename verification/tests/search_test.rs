use pazaak::ai::{get_best_move, recommend_move};
use pazaak::cards::{Board, Card, Deck, Game, Hand, Match, SpecialType, Status, TARGET_TOTAL};
use pazaak::random::RandomSource;
use pazaak::simulator::{replay, NodeAction, RoundState};
use pazaak::tree::{NodePhase, SearchTree};
use pazaak::ucb::{calculate_ucb_score, Exploration, UcbScore, UCB_SCALE};

fn board_of(values: &[i8]) -> Board {
    Board { cards: values.iter().map(|v| Card::new(*v)).collect() }
}

fn round(first: &[i8], second: &[i8]) -> RoundState {
    let mut deck = Deck::new();
    deck.default_fill();
    RoundState {
        game: Game { board: [board_of(first), board_of(second)], deck, turn: 1, winner: 0 },
        status: [Status::Playing, Status::Playing],
    }
}

fn hand_of(values: &[i8]) -> Hand {
    Hand { cards: values.iter().map(|v| Card::new(*v)).collect() }
}

fn table(limit: usize) -> Exploration {
    let mut rows = Vec::new();
    for parent in 0..=limit {
        let mut row = Vec::new();
        for child in 0..=limit {
            if parent >= 1 && child >= 1 {
                let bonus = 1.4 * ((parent as f64).ln() / child as f64).sqrt();
                row.push((bonus * UCB_SCALE as f64).round() as u32);
            } else {
                row.push(0);
            }
        }
        rows.push(row);
    }
    Exploration { rows }
}

fn same_cards(first: &Vec<Card>, second: &Vec<Card>) -> bool {
    first.len() == second.len() && first.iter().zip(second.iter()).all(|(a, b)| a.same_as(b))
}

fn same_round(first: &RoundState, second: &RoundState) -> bool {
    same_cards(&first.game.board[0].cards, &second.game.board[0].cards)
        && same_cards(&first.game.board[1].cards, &second.game.board[1].cards)
        && same_cards(&first.game.deck.cards, &second.game.deck.cards)
        && first.game.turn == second.game.turn
        && first.game.winner == second.game.winner
        && first.status == second.status
}

fn root_child_visits(tree: &SearchTree) -> u64 {
    let root = tree.node(0);
    let mut sum = 0;
    for child in root.first_child..root.first_child + root.child_count {
        sum += tree.node(child).visit as u64;
    }
    sum
}

#[test]
fn new_tree_is_a_root_without_visits() {
    let tree = SearchTree::new(round(&[], &[10]), hand_of(&[1, 2]), 1, TARGET_TOTAL);
    assert_eq!(tree.len(), 1);
    assert_eq!(tree.side(), 1);
    assert_eq!(tree.target(), 20);
    assert!(tree.is_leaf(0));
    let root = tree.node(0);
    assert!(root.parent.is_none());
    assert!(root.action.is_none());
    assert_eq!(root.visit, 0);
    assert_eq!(root.score, 0);
    assert_eq!(root.hand.cards.len(), 2);
}

#[test]
fn expanding_a_hand_of_two_plain_cards_makes_thirteen_children() {
    let mut tree = SearchTree::new(round(&[], &[10]), hand_of(&[3, -2]), 1, TARGET_TOTAL);
    tree.expand(0);
    assert_eq!(tree.len(), 14);
    let root = tree.node(0);
    assert_eq!(root.first_child, 1);
    assert_eq!(root.child_count, 13);
    for child in 1..14 {
        let node = tree.node(child);
        assert_eq!(node.parent, Some(0));
        assert_eq!(node.visit, 0);
        assert_eq!(node.score, 0);
        assert_eq!(node.child_count, 0);
        assert!(tree.is_leaf(child));
    }
    for k in 0..10 {
        assert!(matches!(tree.node(1 + k).action, Some(NodeAction::EndTurn(v)) if v as usize == k + 1));
        assert_eq!(tree.node(1 + k).state.game.board[1].total(), 10 + k as i128 + 1);
        assert_eq!(tree.node(1 + k).hand.cards.len(), 2);
    }
    assert!(matches!(tree.node(11).action, Some(NodeAction::Stand)));
    assert!(tree.node(11).state.status[1] == Status::Standing);
    assert!(matches!(&tree.node(12).action, Some(NodeAction::Play(c)) if c.value == 3));
    assert_eq!(tree.node(12).state.game.board[1].total(), 13);
    assert_eq!(tree.node(12).hand.cards.len(), 1);
    assert_eq!(tree.node(12).hand.cards[0].value, -2);
    assert!(matches!(&tree.node(13).action, Some(NodeAction::Play(c)) if c.value == -2));
    assert_eq!(tree.node(13).state.game.board[1].total(), 8);
}

#[test]
fn expanding_equal_cards_makes_a_child_for_each() {
    let mut tree = SearchTree::new(round(&[], &[10]), hand_of(&[3, 3]), 0, TARGET_TOTAL);
    tree.expand(0);
    assert_eq!(tree.node(0).child_count, 13);
}

#[test]
fn expanding_a_finished_side_makes_no_children() {
    let mut state = round(&[], &[10]);
    state.status[1] = Status::Standing;
    let mut tree = SearchTree::new(state, hand_of(&[3, -2]), 1, TARGET_TOTAL);
    tree.expand(0);
    assert_eq!(tree.len(), 1);
    assert!(tree.is_leaf(0));
}

#[test]
fn expanding_without_a_deck_leaves_out_the_draws() {
    let mut state = round(&[], &[10]);
    state.game.deck = Deck::new();
    let mut tree = SearchTree::new(state, hand_of(&[3, -2]), 1, TARGET_TOTAL);
    tree.expand(0);
    assert_eq!(tree.node(0).child_count, 3);
    assert!(matches!(tree.node(1).action, Some(NodeAction::Stand)));
}

#[test]
fn backpropagation_credits_the_path_and_nothing_else() {
    let mut tree = SearchTree::new(round(&[], &[10]), hand_of(&[3]), 1, TARGET_TOTAL);
    tree.expand(0);
    tree.expand(4);
    let grandchild = tree.node(4).first_child + 2;
    assert_eq!(tree.node(grandchild).parent, Some(4));
    tree.backpropagate(grandchild, 5);
    tree.backpropagate(grandchild, -2);
    tree.backpropagate(7, 4);
    for index in 0..tree.len() {
        let node = tree.node(index);
        let (visit, score) = if index == 0 {
            (3, 7)
        } else if index == 4 || index == grandchild {
            (2, 3)
        } else if index == 7 {
            (1, 4)
        } else {
            (0, 0)
        };
        assert_eq!(node.visit, visit);
        assert_eq!(node.score, score);
    }
    assert_eq!(tree.len(), 1 + 12 + 12);
}

#[test]
fn unvisited_children_are_selected_first_in_the_order_made() {
    let exploration = table(20);
    let mut tree = SearchTree::new(round(&[], &[10]), hand_of(&[3]), 1, TARGET_TOTAL);
    tree.expand(0);
    assert_eq!(tree.best_ucb_score(0, &exploration), 1);
    tree.backpropagate(1, 5);
    assert_eq!(tree.best_ucb_score(0, &exploration), 2);
    tree.backpropagate(3, 5);
    tree.backpropagate(3, 5);
    assert_eq!(tree.best_ucb_score(0, &exploration), 2);
    tree.backpropagate(2, -5);
    assert_eq!(tree.best_ucb_score(0, &exploration), 4);
    assert_eq!(tree.select(&exploration), 4);
}

#[test]
fn visited_children_are_selected_by_their_bound() {
    let mut state = round(&[], &[10]);
    state.game.deck = Deck::new();
    let mut tree = SearchTree::new(state, hand_of(&[3]), 1, TARGET_TOTAL);
    tree.expand(0);
    assert_eq!(tree.node(0).child_count, 2);
    tree.backpropagate(1, 5);
    tree.backpropagate(1, 0);
    tree.backpropagate(2, 2);
    assert_eq!(tree.best_ucb_score(0, &Exploration::none()), 1);
    let mut rows = vec![vec![0; 4]; 4];
    rows[3][1] = 400_000;
    rows[3][2] = 0;
    assert_eq!(tree.best_ucb_score(0, &Exploration { rows: rows.clone() }), 1);
    rows[3][1] = 500_000;
    assert_eq!(tree.best_ucb_score(0, &Exploration { rows: rows.clone() }), 1);
    rows[3][1] = 500_001;
    assert_eq!(tree.best_ucb_score(0, &Exploration { rows }), 2);
}

#[test]
fn bound_is_the_mean_plus_the_bonus() {
    let exploration = table(10);
    assert!(matches!(calculate_ucb_score(7, 0, 5, &exploration), UcbScore::Unvisited));
    let expected_bonus = (1.4 * ((9f64).ln() / 4.0).sqrt() * 1_000_000.0).round() as i128;
    assert_eq!(expected_bonus, 1_037_613);
    assert_eq!(exploration.bonus(9, 4) as i128, expected_bonus);
    match calculate_ucb_score(10, 4, 9, &exploration) {
        UcbScore::Visited { numerator, visits } => {
            assert_eq!(visits, 4);
            assert_eq!(numerator, 10 * 1_000_000 + expected_bonus * 4);
        },
        UcbScore::Unvisited => panic!("a visited node has a finite bound"),
    }
    assert_eq!(exploration.bonus(11, 4), 0);
    assert_eq!(exploration.bonus(4, 11), 0);
    assert_eq!(Exploration::none().bonus(1, 1), 0);
}

#[test]
fn bounds_compare_as_fractions() {
    let none = Exploration::none();
    let low = calculate_ucb_score(9, 4, 10, &none);
    let high = calculate_ucb_score(5, 2, 10, &none);
    let equal = calculate_ucb_score(10, 4, 10, &none);
    let negative = calculate_ucb_score(-1, 3, 10, &none);
    let unvisited = calculate_ucb_score(0, 0, 10, &none);
    assert!(low.is_below(&high));
    assert!(!high.is_below(&low));
    assert!(!high.is_below(&equal));
    assert!(!equal.is_below(&high));
    assert!(negative.is_below(&low));
    assert!(high.is_below(&unvisited));
    assert!(!unvisited.is_below(&high));
    assert!(!unvisited.is_below(&unvisited));
}

#[test]
fn rollout_ends_at_a_leaf_below_the_start() {
    let mut rng = RandomSource::from_seed(7);
    let mut tree = SearchTree::new(round(&[10, 9], &[10]), hand_of(&[3]), 1, TARGET_TOTAL);
    let (leaf, value) = tree.simulate(0, &mut rng);
    assert_eq!(leaf, 0);
    assert_eq!(value, -5);
    tree.expand(0);
    tree.expand(3);
    tree.backpropagate(3, 4);
    for _ in 0..50 {
        let (leaf, value) = tree.simulate(0, &mut rng);
        assert!(tree.is_leaf(leaf));
        let parent = tree.node(leaf).parent.unwrap();
        let boards = &tree.node(leaf).state.game;
        let reward = match boards.determine_round_winner(TARGET_TOTAL) {
            Some(1) => 5,
            Some(_) => -5,
            None => 0,
        };
        if parent == 0 {
            assert_eq!(value, reward);
        } else {
            assert_eq!(parent, 3);
            assert_eq!(value, reward + 4);
        }
    }
}

#[test]
fn random_child_is_a_child() {
    let mut rng = RandomSource::from_seed(11);
    let mut tree = SearchTree::new(round(&[], &[10]), hand_of(&[3]), 1, TARGET_TOTAL);
    assert_eq!(tree.select_random_child(0, &mut rng), None);
    tree.expand(0);
    let mut seen = vec![false; 13];
    for _ in 0..400 {
        let child = tree.select_random_child(0, &mut rng).unwrap();
        assert!(child >= 1 && child <= 12);
        seen[child] = true;
    }
    assert!(seen[1..].iter().all(|s| *s));
}

#[test]
fn same_seed_gives_the_same_numbers() {
    let mut first = RandomSource::from_seed(5);
    let mut second = RandomSource::from_seed(5);
    let mut differs = false;
    let mut last = None;
    for _ in 0..50 {
        let a = first.below(1000);
        let b = second.below(1000);
        assert_eq!(a, b);
        assert!(a.unwrap() < 1000);
        if last.is_some() && last != a {
            differs = true;
        }
        last = a;
    }
    assert!(differs);
    assert_eq!(first.below(0), None);
    assert_eq!(first.below(1), Some(0));
    let mut entropy = RandomSource::from_entropy();
    assert!(entropy.below(3).unwrap() < 3);
}

#[test]
fn visits_of_the_root_children_add_up_to_the_iterations() {
    let exploration = table(130);
    for seed in 0..5 {
        let mut rng = RandomSource::from_seed(seed);
        let mut tree = SearchTree::new(round(&[4], &[10]), hand_of(&[3, -2]), 1, TARGET_TOTAL);
        tree.search(0, &exploration, &mut rng);
        assert_eq!(tree.len(), 1);
        tree.search(1, &exploration, &mut rng);
        assert_eq!(root_child_visits(&tree), 1);
        tree.search(59, &exploration, &mut rng);
        assert_eq!(tree.node(0).visit, 60);
        assert_eq!(root_child_visits(&tree), 60);
        for child in 1..14 {
            assert!(tree.node(child).visit >= 1);
        }
    }
}

#[test]
fn search_is_repeatable_for_a_seed() {
    let exploration = table(50);
    let mut first = SearchTree::new(round(&[4], &[10]), hand_of(&[3, -2]), 1, TARGET_TOTAL);
    let mut second = SearchTree::new(round(&[4], &[10]), hand_of(&[3, -2]), 1, TARGET_TOTAL);
    first.search(40, &exploration, &mut RandomSource::from_seed(3));
    second.search(40, &exploration, &mut RandomSource::from_seed(3));
    assert_eq!(first.len(), second.len());
    for index in 0..first.len() {
        assert_eq!(first.node(index).visit, second.node(index).visit);
        assert_eq!(first.node(index).score, second.node(index).score);
        assert_eq!(first.node(index).parent, second.node(index).parent);
    }
}

#[test]
fn iteration_credits_one_path_with_a_reward() {
    let exploration = table(50);
    let mut rng = RandomSource::from_seed(1);
    let mut tree = SearchTree::new(round(&[4], &[10]), hand_of(&[3, -2]), 1, TARGET_TOTAL);
    for done in 1..=30u32 {
        let leaf = tree.iterate(&exploration, &mut rng);
        assert!(tree.is_leaf(leaf));
        assert_eq!(tree.node(0).visit, done);
        let mut visits = 0u64;
        for index in 0..tree.len() {
            let node = tree.node(index);
            visits += node.visit as u64;
            assert!(node.score.abs() <= 5 * node.visit as i64);
            assert!(node.visit <= tree.node(0).visit);
        }
        assert!(visits >= 2 * done as u64);
    }
}

#[test]
fn path_to_a_node_replays_to_its_round() {
    let exploration = table(100);
    let mut rng = RandomSource::from_seed(9);
    let start = round(&[4], &[10]);
    let cards = Hand {
        cards: vec![
            Card::new(3),
            Card { values_list: vec![3, 4], value: 0, special_type: SpecialType::Invert },
            Card { values_list: vec![0], value: 0, special_type: SpecialType::Double },
            Card::new(3),
        ],
    };
    let mut tree = SearchTree::new(start.clone(), cards.clone(), 1, TARGET_TOTAL);
    tree.search(80, &exploration, &mut rng);
    assert!(tree.len() > 100);
    let mut deepest = 0;
    for index in 0..tree.len() {
        let path = tree.action_path(index);
        deepest = deepest.max(path.len());
        let (end, rest) = replay(&start, &cards, 1, &path, TARGET_TOTAL).unwrap();
        assert!(same_round(&end, &tree.node(index).state));
        assert!(same_cards(&rest.cards, &tree.node(index).hand.cards));
    }
    assert!(deepest >= 2);
    assert!(tree.action_path(0).is_empty());
}

#[test]
fn recommendation_is_the_move_to_the_most_visited_child() {
    let exploration = table(100);
    let mut rng = RandomSource::from_seed(2);
    let mut tree = SearchTree::new(round(&[4], &[10, 9]), hand_of(&[1, -2]), 1, TARGET_TOTAL);
    assert!(tree.recommendation().is_none());
    assert_eq!(tree.most_visited_child(0), None);
    tree.search(90, &exploration, &mut rng);
    let best = tree.most_visited_child(0).unwrap();
    for child in 1..14 {
        assert!(tree.node(child).visit <= tree.node(best).visit);
        if child < best {
            assert!(tree.node(child).visit < tree.node(best).visit);
        }
    }
    let moves = tree.recommendation().unwrap();
    assert_eq!(moves.len(), 1);
    let (end, _) = replay(&round(&[4], &[10, 9]), &hand_of(&[1, -2]), 1, &moves, TARGET_TOTAL).unwrap();
    assert!(same_round(&end, &tree.node(best).state));
}

#[test]
fn most_visited_child_prefers_the_first_of_equals() {
    let mut tree = SearchTree::new(round(&[], &[10]), hand_of(&[3]), 1, TARGET_TOTAL);
    tree.expand(0);
    assert_eq!(tree.most_visited_child(0), Some(1));
    tree.backpropagate(5, 0);
    tree.backpropagate(3, 0);
    assert_eq!(tree.most_visited_child(0), Some(3));
    tree.backpropagate(5, 0);
    assert_eq!(tree.most_visited_child(0), Some(5));
    assert_eq!(tree.most_visited_child(5), None);
}

#[test]
fn search_stands_on_a_winning_board() {
    let exploration = table(130);
    for seed in 0..5 {
        let mut rng = RandomSource::from_seed(seed);
        let state = round(&[10, 9], &[10, 10]);
        let moves =
            recommend_move(&state, &hand_of(&[]), 1, TARGET_TOTAL, 120, &exploration, &mut rng)
                .unwrap();
        assert_eq!(moves.len(), 1);
        assert!(matches!(&moves[0], NodeAction::Stand));
    }
}

#[test]
fn no_recommendation_without_budget_or_moves() {
    let exploration = table(10);
    let mut rng = RandomSource::from_seed(4);
    let state = round(&[], &[10]);
    assert!(recommend_move(&state, &hand_of(&[1]), 1, TARGET_TOTAL, 0, &exploration, &mut rng).is_none());
    let mut standing = round(&[], &[10]);
    standing.status[0] = Status::Standing;
    assert!(
        recommend_move(&standing, &hand_of(&[1]), 0, TARGET_TOTAL, 5, &exploration, &mut rng).is_none()
    );
    assert!(
        recommend_move(&standing, &hand_of(&[1]), 1, TARGET_TOTAL, 5, &exploration, &mut rng).is_some()
    );
}

fn deck_of(values: &[i8]) -> Deck {
    Deck { cards: values.iter().map(|v| Card::new(*v)).collect() }
}

#[test]
fn best_move_is_for_the_second_side() {
    let exploration = table(130);
    let mut played = Match::new(deck_of(&[1, 2, 3, 4]), deck_of(&[1, 1, 1, 1, 1]));
    played.new_game();
    played.current_game().board[1].cards.push(Card::new(10));
    assert!(get_best_move(&played, 0, &exploration).is_none());
    assert!(get_best_move(&played, -3, &exploration).is_none());
    let moves = get_best_move(&played, 100, &exploration).unwrap();
    assert_eq!(moves.len(), 1);
    match &moves[0] {
        NodeAction::EndTurn(value) => assert!(*value >= 1 && *value <= 10),
        NodeAction::Play(card) => assert_eq!(card.value, 1),
        NodeAction::Stand => {},
    }
    played.players[1].status = Status::Standing;
    assert!(get_best_move(&played, 100, &exploration).is_none());
    played.players[1].status = Status::Playing;
    played.players[0].status = Status::Busted;
    assert!(get_best_move(&played, 20, &exploration).is_some());
}

#[test]
fn search_reports_where_each_rollout_ended() {
    let exploration = table(50);
    let mut rng = RandomSource::from_seed(8);
    let mut tree = SearchTree::new(round(&[4], &[10]), hand_of(&[3, -2]), 1, TARGET_TOTAL);
    assert!(tree.search(0, &exploration, &mut rng).is_empty());
    let leaves = tree.search(25, &exploration, &mut rng);
    assert_eq!(leaves.len(), 25);
    assert!(leaves[0] >= 1 && leaves[0] <= 13);
    for leaf in &leaves {
        assert!(*leaf >= 1 && *leaf < tree.len());
        assert!(tree.node(*leaf).visit >= 1);
    }
}

#[test]
fn nodes_compare_by_round_and_hand() {
    let mut tree = SearchTree::new(round(&[4], &[10]), hand_of(&[3, 3]), 1, TARGET_TOTAL);
    tree.expand(0);
    tree.backpropagate(12, 5);
    assert!(tree.node(12).same_position(tree.node(13)));
    assert!(tree.node(1).same_position(tree.node(1)));
    assert!(!tree.node(1).same_position(tree.node(2)));
    assert!(!tree.node(0).same_position(tree.node(11)));
    assert!(!tree.node(0).same_position(tree.node(12)));
    assert!(tree.node(0).state.same_as(&round(&[4], &[10])));
    assert!(!tree.node(0).state.same_as(&round(&[4], &[9])));
    assert!(!tree.node(0).state.same_as(&round(&[4, 1], &[10])));
    let mut turned = round(&[4], &[10]);
    turned.game.turn = 2;
    assert!(!tree.node(0).state.same_as(&turned));
}

#[test]
fn node_goes_from_unexpanded_to_expanded_to_exploited() {
    let mut tree = SearchTree::new(round(&[4], &[10]), hand_of(&[3]), 1, TARGET_TOTAL);
    assert_eq!(tree.phase(0), NodePhase::Unexpanded);
    tree.expand(0);
    assert_eq!(tree.phase(0), NodePhase::Expanded);
    assert_eq!(tree.phase(5), NodePhase::Unexpanded);
    tree.backpropagate(12, 0);
    assert_eq!(tree.phase(0), NodePhase::Exploited);
    assert_eq!(tree.phase(12), NodePhase::Unexpanded);
    tree.expand(11);
    assert_eq!(tree.phase(11), NodePhase::Unexpanded);
}

#[test]
fn children_are_found_by_the_move_that_made_them() {
    let mut tree = SearchTree::new(round(&[4], &[10]), hand_of(&[3, -1, 3]), 1, TARGET_TOTAL);
    assert_eq!(tree.child_by_action(0, &NodeAction::Stand), None);
    tree.expand(0);
    assert_eq!(tree.child_by_action(0, &NodeAction::EndTurn(1)), Some(1));
    assert_eq!(tree.child_by_action(0, &NodeAction::EndTurn(10)), Some(10));
    assert_eq!(tree.child_by_action(0, &NodeAction::EndTurn(11)), None);
    assert_eq!(tree.child_by_action(0, &NodeAction::Stand), Some(11));
    assert_eq!(tree.child_by_action(0, &NodeAction::Play(Card::new(3))), Some(12));
    assert_eq!(tree.child_by_action(0, &NodeAction::Play(Card::new(-1))), Some(13));
    assert_eq!(tree.child_by_action(0, &NodeAction::Play(Card::new(7))), None);
    assert_eq!(tree.child_by_action(5, &NodeAction::Stand), None);
    assert!(NodeAction::Stand.same_as(&NodeAction::Stand));
    assert!(!NodeAction::Stand.same_as(&NodeAction::EndTurn(1)));
    assert!(!NodeAction::EndTurn(2).same_as(&NodeAction::EndTurn(1)));
    assert!(!NodeAction::Play(Card::new(1)).same_as(&NodeAction::EndTurn(1)));
    assert!(NodeAction::Play(Card::new(1)).same_as(&NodeAction::Play(Card::new(1)).clone()));
}

#[test]
fn two_iterations_recommend_the_first_draw() {
    let exploration = table(10);
    for seed in 0..20 {
        let mut rng = RandomSource::from_seed(seed);
        let state = round(&[4], &[10]);
        let moves =
            recommend_move(&state, &hand_of(&[3, -2]), 1, TARGET_TOTAL, 2, &exploration, &mut rng)
                .unwrap();
        assert_eq!(moves.len(), 1);
        assert!(matches!(&moves[0], NodeAction::EndTurn(1)));
    }
}

#[test]
fn rollouts_end_below_the_selected_node() {
    let exploration = table(50);
    let mut rng = RandomSource::from_seed(6);
    let mut tree = SearchTree::new(round(&[4], &[10]), hand_of(&[3, -2]), 1, TARGET_TOTAL);
    for _ in 0..30 {
        let chosen = tree.select(&exploration);
        let grew = tree.len();
        let leaf = tree.iterate(&exploration, &mut rng);
        assert!(tree.is_leaf(leaf));
        if tree.is_leaf(chosen) {
            assert_eq!(leaf, chosen);
        } else {
            assert_eq!(tree.node(leaf).parent, Some(chosen));
            assert!(leaf >= grew);
        }
    }
}
