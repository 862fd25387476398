//! A turn of a match: what each step a player takes does to the match.

use crate::cards::{
    apply_board_effect, board_after_effect, card_after_effect, sum_values, Board, CardView, Hand,
    Match, Status, TARGET_TOTAL,
};
use crate::util::Action;
use vstd::prelude::*;

verus! {

/// How a step left the turn: whether the turn is over, and whether a card
/// was played in the step.
#[derive(Clone, Copy, PartialEq, Eq, Debug, Structural)]
pub struct TurnResult {
    pub is_finished: bool,
    pub played_card: bool,
}

/// Which card a player wants to play, and which of its values if the card
/// offers a choice.
#[derive(Clone, Copy, Debug)]
pub struct CardChoice {
    pub card_index: usize,
    pub playstyle: Option<usize>,
}

impl CardChoice {
    /// Whether the choice can be made from the hand: the card is there, and
    /// a card that offers a choice comes with one of the values it offers.
    pub open spec fn fits(self, hand: Seq<CardView>) -> bool {
        &&& self.card_index < hand.len()
        &&& hand[self.card_index as int].needs_choice() ==> (self.playstyle matches Some(index)
            && index < hand[self.card_index as int].values.len())
    }

    /// The chosen card, counting for the chosen value.
    pub open spec fn card(self, hand: Seq<CardView>) -> CardView {
        match self.playstyle {
            Some(index) => hand[self.card_index as int].resolved(index as int),
            None => hand[self.card_index as int],
        }
    }

    /// The board after the chosen card was played on it: the card has the
    /// effect of its kind, then lies on the board.
    pub open spec fn board_after(self, board: Seq<CardView>, hand: Seq<CardView>) -> Seq<CardView> {
        let card = self.card(hand);
        board_after_effect(card.kind, card, board).push(card_after_effect(card.kind, card, board))
    }
}

/// Plays the chosen card from the hand onto the board, if the choice fits
/// the hand; else leaves both as they are.
pub fn play_card(board: &mut Board, hand: &mut Hand, choice: &CardChoice) -> (played: bool)
    requires
        old(board).wf(),
        old(hand).wf(),
    ensures
        played == choice.fits(old(hand)@),
        played ==> final(board)@ == choice.board_after(old(board)@, old(hand)@) && final(hand)@
            == old(hand)@.remove(choice.card_index as int),
        !played ==> final(board)@ == old(board)@ && final(hand)@ == old(hand)@,
        final(board).wf(),
        final(hand).wf(),
{
    if choice.card_index >= hand.cards.len() {
        return false;
    }
    let ghost held = hand@;
    assert(held[choice.card_index as int].wf());
    if hand.cards[choice.card_index].needs_choice() {
        match choice.playstyle {
            Some(index) => {
                if index >= hand.cards[choice.card_index].values_list.len() {
                    return false;
                }
            },
            None => {
                return false;
            },
        }
    }
    let mut card = hand.cards.remove(choice.card_index);
    assert(hand@ =~= held.remove(choice.card_index as int));
    match choice.playstyle {
        Some(index) => {
            let _ = card.resolve_value(index);
        },
        None => {},
    }
    let kind = card.special_type;
    apply_board_effect(kind, &mut card, board);
    board.cards.push(card);
    assert(board@ =~= choice.board_after(old(board)@, held));
    assert forall|i: int| 0 <= i < hand@.len() implies (#[trigger] hand@[i]).wf() by {
        if i < choice.card_index {
            assert(held[i].wf());
        } else {
            assert(held[i + 1].wf());
        }
    }
    true
}

/// Whether a step changed nothing in a match but what belongs to the player
/// who took it: the player's board in the round being played, and the
/// player's hand and status.
pub open spec fn only_touched(before: Match, after: Match, player: int) -> bool {
    let round = before.match_detail.round - 1;
    let other = 1 - player;
    &&& after.match_detail == before.match_detail
    &&& after.games@.len() == before.games@.len()
    &&& forall|i: int| 0 <= i < before.games@.len() && i != round ==> after.games@[i] == before.games@[i]
    &&& after.games@[round].board[other] == before.games@[round].board[other]
    &&& after.games@[round].deck == before.games@[round].deck
    &&& after.games@[round].turn == before.games@[round].turn
    &&& after.games@[round].winner == before.games@[round].winner
    &&& after.players[other] == before.players[other]
    &&& after.players[player].deck == before.players[player].deck
}

/// Takes a step of a turn for a player.
///
/// Standing ends the turn with the player standing. Ending the turn ends it
/// with the player bust if the board's total exceeds twenty. Playing plays
/// the chosen card, unless a card was already played this turn, no card was
/// chosen, or the choice does not fit the hand; the turn goes on either way.
/// The other steps end the turn and change nothing.
pub fn process_action(
    action: Action,
    player_number: usize,
    pazaak_match: &mut Match,
    already_played: bool,
    choice: Option<CardChoice>,
) -> (result: TurnResult)
    requires
        player_number < 2,
        old(pazaak_match).in_round(),
        old(pazaak_match).games@[old(pazaak_match).match_detail.round
            - 1].board[player_number as int].wf(),
        old(pazaak_match).players[player_number as int].hand.wf(),
    ensures
        only_touched(*old(pazaak_match), *final(pazaak_match), player_number as int),
        result.is_finished == (action != Action::Play),
        result.played_card == (action == Action::Play && !already_played && choice is Some
            && choice.unwrap().fits(old(pazaak_match).players[player_number as int].hand@)),
        final(pazaak_match).players[player_number as int].status == (match action {
            Action::Stand => Status::Standing,
            Action::EndTurn => if sum_values(
                old(pazaak_match).games@[old(pazaak_match).match_detail.round
                    - 1].board[player_number as int]@,
            ) > TARGET_TOTAL {
                Status::Busted
            } else {
                old(pazaak_match).players[player_number as int].status
            },
            _ => old(pazaak_match).players[player_number as int].status,
        }),
        final(pazaak_match).players[player_number as int].hand@ == (if result.played_card {
            old(pazaak_match).players[player_number as int].hand@.remove(
                choice.unwrap().card_index as int,
            )
        } else {
            old(pazaak_match).players[player_number as int].hand@
        }),
        final(pazaak_match).games@[old(pazaak_match).match_detail.round
            - 1].board[player_number as int]@ == (if result.played_card {
            choice.unwrap().board_after(
                old(pazaak_match).games@[old(pazaak_match).match_detail.round
                    - 1].board[player_number as int]@,
                old(pazaak_match).players[player_number as int].hand@,
            )
        } else {
            old(pazaak_match).games@[old(pazaak_match).match_detail.round
                - 1].board[player_number as int]@
        }),
{
    let round = pazaak_match.match_detail.round - 1;
    match action {
        Action::Stand => {
            pazaak_match.players[player_number].status = Status::Standing;
        },
        Action::Play => {
            if !already_played {
                match choice {
                    Some(chosen) => {
                        let played = play_card(
                            &mut pazaak_match.games[round].board[player_number],
                            &mut pazaak_match.players[player_number].hand,
                            &chosen,
                        );
                        return TurnResult { is_finished: false, played_card: played };
                    },
                    None => {},
                }
            }
            return TurnResult { is_finished: false, played_card: false };
        },
        Action::EndTurn => {
            if pazaak_match.games[round].board[player_number].total() > TARGET_TOTAL as i128 {
                pazaak_match.players[player_number].status = Status::Busted;
            }
        },
        _ => {},
    }
    TurnResult { is_finished: true, played_card: false }
}


/// How a turn began for a player.
#[derive(Clone, Copy, PartialEq, Eq, Debug, Structural)]
pub enum TurnStart {
    /// The player stands and takes no turn.
    Skipped,
    /// The player drew the top card of the round's deck onto the board.
    Drew,
    /// The round's deck has no card left to draw.
    DeckEmpty,
}

/// Begins a turn for a player: a player who stands is passed over; any other
/// draws the top card of the round's deck onto the board.
pub fn begin_turn(pazaak_match: &mut Match, player_number: usize) -> (start: TurnStart)
    requires
        player_number < 2,
        old(pazaak_match).in_round(),
    ensures
        start == (if old(pazaak_match).players[player_number as int].status == Status::Standing {
            TurnStart::Skipped
        } else if old(pazaak_match).games@[old(pazaak_match).match_detail.round
            - 1].deck.cards@.len() == 0 {
            TurnStart::DeckEmpty
        } else {
            TurnStart::Drew
        }),
        start != TurnStart::Drew ==> *final(pazaak_match) == *old(pazaak_match),
        start == TurnStart::Drew ==> {
            let round = old(pazaak_match).match_detail.round - 1;
            let before = old(pazaak_match).games@[round];
            let after = final(pazaak_match).games@[round];
            &&& final(pazaak_match).players == old(pazaak_match).players
            &&& final(pazaak_match).match_detail == old(pazaak_match).match_detail
            &&& final(pazaak_match).games@ == old(pazaak_match).games@.update(round, after)
            &&& after.deck.cards@ == before.deck.cards@.drop_last()
            &&& after.board[player_number as int].cards@ == before.board[player_number as int].cards@.push(
                before.deck.cards@.last(),
            )
            &&& after.board[1 - player_number as int] == before.board[1 - player_number as int]
            &&& after.turn == before.turn
            &&& after.winner == before.winner
        },
{
    if pazaak_match.players[player_number].status == Status::Standing {
        return TurnStart::Skipped;
    }
    let round = pazaak_match.match_detail.round - 1;
    if pazaak_match.games[round].deck.cards.len() == 0 {
        return TurnStart::DeckEmpty;
    }
    let drawn = pazaak_match.games[round].deck.draw();
    pazaak_match.games[round].board[player_number].cards.push(drawn.unwrap());
    TurnStart::Drew
}

/// Whether the round is over: both sides stand, or a side is bust.
pub fn round_is_over(pazaak_match: &Match) -> (over: bool)
    ensures
        over == ((pazaak_match.players[0].status == Status::Standing
            && pazaak_match.players[1].status == Status::Standing)
            || pazaak_match.players[0].status == Status::Busted
            || pazaak_match.players[1].status == Status::Busted),
{
    let first = pazaak_match.players[0].status;
    let second = pazaak_match.players[1].status;
    (first == Status::Standing && second == Status::Standing) || first == Status::Busted || second
        == Status::Busted
}

/// Closes the round being played: finds its winner and counts the round for
/// that side. A drawn round counts for nobody.
pub fn score_round(pazaak_match: &mut Match) -> (winner: Option<usize>)
    requires
        old(pazaak_match).in_round(),
        old(pazaak_match).match_detail.score@[0] < u8::MAX,
        old(pazaak_match).match_detail.score@[1] < u8::MAX,
    ensures
        winner == old(pazaak_match).games@[old(pazaak_match).match_detail.round - 1]@.winner_for(
            TARGET_TOTAL as int,
        ),
        final(pazaak_match).games == old(pazaak_match).games,
        final(pazaak_match).players == old(pazaak_match).players,
        final(pazaak_match).match_detail.round == old(pazaak_match).match_detail.round,
        final(pazaak_match).match_detail.score@ == (match winner {
            Some(side) => old(pazaak_match).match_detail.score@.update(
                side as int,
                (old(pazaak_match).match_detail.score@[side as int] + 1) as u8,
            ),
            None => old(pazaak_match).match_detail.score@,
        }),
{
    let round = pazaak_match.match_detail.round - 1;
    let winner = pazaak_match.games[round].determine_round_winner(TARGET_TOTAL);
    match winner {
        Some(side) => {
            pazaak_match.match_detail.score[side] = pazaak_match.match_detail.score[side] + 1;
        },
        None => {},
    }
    winner
}

} // verus!
