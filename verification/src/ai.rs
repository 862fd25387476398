//! The computer opponent: which move to make, by searching the tree of the
//! rounds that can follow.

use crate::cards::{CardView, Hand, Match, Status, TARGET_TOTAL};
use crate::random::RandomSource;
use crate::simulator::{
    action_views, all_legal, legal_actions, lemma_legal_actions_count, ActionView, NodeAction,
    RoundState, RoundView,
};
use crate::tree::{lemma_path_replays, SearchTree, TreeView};
use crate::ucb::Exploration;
use vstd::prelude::*;

verus! {

/// The side the computer plays.
pub const OPPONENT: usize = 1;

/// The round being played in a match, as the search sees it.
pub open spec fn round_in_play(pazaak_match: Match) -> RoundView {
    RoundView {
        game: pazaak_match.games@[pazaak_match.match_detail.round - 1]@,
        status: seq![pazaak_match.players[0].status, pazaak_match.players[1].status],
    }
}

/// What a search recommends for a side after a run of iterations whose
/// rollouts ended at the given leaves: the move to the child of the root
/// that was visited most.
pub open spec fn recommended_after(
    round: RoundView,
    hand: Seq<CardView>,
    side: usize,
    target: i8,
    table: Seq<Seq<u32>>,
    leaves: Seq<int>,
) -> Option<Seq<ActionView>> {
    TreeView::root_only(round, hand, side, target).searched(table, leaves).recommended()
}

/// Recommends a move for a side, given the round, the side's hand, the
/// target total and a budget of search iterations. Grows a search tree from
/// the round for that many iterations and gives the move that leads to the
/// child of the root visited most. There is no recommendation when the
/// budget is zero or the side has no move.
pub fn recommend_move(
    round_state: &RoundState,
    hand: &Hand,
    side: usize,
    target: i8,
    iteration_budget: u32,
    exploration: &Exploration,
    rng: &mut RandomSource,
) -> (moves: Option<Vec<NodeAction>>)
    requires
        round_state.wf(),
        hand.wf(),
        side < 2,
    ensures
        moves is None <==> iteration_budget == 0 || legal_actions(
            round_state@,
            hand@,
            side as int,
        ).len() == 0,
        moves matches Some(path) ==> path@.len() == 1 && all_legal(
            round_state@,
            hand@,
            side as int,
            action_views(path@),
            target as int,
        ),
        exists|leaves: Seq<int>|
            leaves.len() == iteration_budget && TreeView::root_only(
                round_state@,
                hand@,
                side,
                target,
            ).rollouts_end_at(exploration@, leaves) && #[trigger] recommended_after(
                round_state@,
                hand@,
                side,
                target,
                exploration@,
                leaves,
            ) == (match moves {
                Some(path) => Some(action_views(path@)),
                None => None,
            }),
{
    let mut tree = SearchTree::new(round_state.clone(), hand.clone(), side, target);
    let leaves = tree.search(iteration_budget, exploration, rng);
    let moves = tree.recommendation();
    proof {
        let ends = leaves@.map_values(|leaf: usize| leaf as int);
        assert(recommended_after(round_state@, hand@, side, target, exploration@, ends) == (match moves {
            Some(path) => Some(action_views(path@)),
            None => None,
        }));
    }
    proof {
        let grown = tree@;
        if moves is Some {
            let best = grown.most_visited(0);
            assert(grown.node_wf(0));
            assert(grown.node_wf(best));
            assert(grown.child_made(0, best - grown.nodes[0].first_child));
            assert(grown.path_to(0) =~= Seq::empty());
            lemma_path_replays(grown, best);
        }
    }
    moves
}

/// Recommends a move for the computer's side in the round being played,
/// after the given number of simulations. There is no recommendation when
/// the number is not positive or the computer's side is no longer playing.
pub fn get_best_move(pazaak_match: &Match, simulations: i8, exploration: &Exploration) -> (moves:
    Option<Vec<NodeAction>>)
    requires
        pazaak_match.in_round(),
        round_in_play(*pazaak_match).wf(),
        pazaak_match.players[1].hand.wf(),
    ensures
        moves is None <==> simulations <= 0 || pazaak_match.players[1].status != Status::Playing,
        moves matches Some(path) ==> path@.len() == 1 && all_legal(
            round_in_play(*pazaak_match),
            pazaak_match.players[1].hand@,
            OPPONENT as int,
            action_views(path@),
            TARGET_TOTAL as int,
        ),
        exists|leaves: Seq<int>|
            leaves.len() == (if simulations > 0 {
                simulations as int
            } else {
                0
            }) && TreeView::root_only(
                round_in_play(*pazaak_match),
                pazaak_match.players[1].hand@,
                OPPONENT,
                TARGET_TOTAL,
            ).rollouts_end_at(exploration@, leaves) && #[trigger] recommended_after(
                round_in_play(*pazaak_match),
                pazaak_match.players[1].hand@,
                OPPONENT,
                TARGET_TOTAL,
                exploration@,
                leaves,
            ) == (match moves {
                Some(path) => Some(action_views(path@)),
                None => None,
            }),
{
    let match_number = pazaak_match.match_detail.round - 1;
    let round_state = RoundState {
        game: pazaak_match.games[match_number].clone(),
        status: [pazaak_match.players[0].status, pazaak_match.players[1].status],
    };
    assert(round_state@.status =~= round_in_play(*pazaak_match).status);
    let budget: u32 = if simulations > 0 {
        simulations as u32
    } else {
        0
    };
    let mut rng = RandomSource::from_entropy();
    proof {
        lemma_legal_actions_count(round_state@, pazaak_match.players[1].hand@, OPPONENT as int);
    }
    recommend_move(
        &round_state,
        &pazaak_match.players[1].hand,
        OPPONENT,
        TARGET_TOTAL,
        budget,
        exploration,
        &mut rng,
    )
}

} // verus!
