//! The moves a side can make in a round, and what each move does to the
//! round and to the hand of the side that makes it.

use crate::cards::{
    all_wf, apply_board_effect, board_after_effect, card_after_effect, sum_values, Card, CardView,
    Game, GameView, Hand, Status,
};
use vstd::prelude::*;

verus! {

/// The highest value a drawn card can have; the lowest is one.
pub const MAX_DRAW: i8 = 10;

/// A move of the side to act.
#[derive(Debug)]
pub enum NodeAction {
    /// End the turn; the card drawn next has the given value.
    EndTurn(i8),
    /// Play the given card from the hand.
    Play(Card),
    /// Stand on the board as it is.
    Stand,
}

/// The mathematical content of a [`NodeAction`].
pub enum ActionView {
    EndTurn(i8),
    Play(CardView),
    Stand,
}

impl View for NodeAction {
    type V = ActionView;

    open spec fn view(&self) -> ActionView {
        match self {
            NodeAction::EndTurn(value) => ActionView::EndTurn(*value),
            NodeAction::Play(card) => ActionView::Play(card@),
            NodeAction::Stand => ActionView::Stand,
        }
    }
}

impl Clone for NodeAction {
    fn clone(&self) -> (copy: Self)
        ensures
            copy@ == self@,
    {
        match self {
            NodeAction::EndTurn(value) => NodeAction::EndTurn(*value),
            NodeAction::Play(card) => NodeAction::Play(card.clone()),
            NodeAction::Stand => NodeAction::Stand,
        }
    }
}

impl NodeAction {
    /// Whether two moves are the same: the same draw, the same card played,
    /// or both standing.
    pub fn same_as(&self, other: &NodeAction) -> (same: bool)
        ensures
            same == (self@ == other@),
    {
        match (self, other) {
            (NodeAction::EndTurn(first), NodeAction::EndTurn(second)) => *first == *second,
            (NodeAction::Play(first), NodeAction::Play(second)) => first.same_as(second),
            (NodeAction::Stand, NodeAction::Stand) => true,
            _ => false,
        }
    }
}

/// The views of a sequence of moves, in order.
pub open spec fn action_views(actions: Seq<NodeAction>) -> Seq<ActionView> {
    Seq::new(actions.len(), |i: int| actions[i]@)
}

/// The mathematical content of a [`RoundState`].
pub struct RoundView {
    pub game: GameView,
    pub status: Seq<Status>,
}

/// A round as the search sees it: the boards and the deck, and where each
/// side stands.
#[derive(Debug)]
pub struct RoundState {
    pub game: Game,
    pub status: [Status; 2],
}

impl View for RoundState {
    type V = RoundView;

    open spec fn view(&self) -> RoundView {
        RoundView { game: self.game@, status: self.status@ }
    }
}

impl Clone for RoundState {
    fn clone(&self) -> (copy: Self)
        ensures
            copy@ == self@,
    {
        let copy = RoundState { game: self.game.clone(), status: [self.status[0], self.status[1]] };
        assert(copy.status@ =~= self.status@);
        copy
    }
}

impl RoundView {
    /// The round has two well-formed boards and a status for each side.
    pub open spec fn wf(self) -> bool {
        self.game.wf() && self.status.len() == 2
    }

    /// The round with the given board in place of the side's own. The side
    /// is bust from then on if the board's total exceeds the target.
    pub open spec fn with_board(self, side: int, board: Seq<CardView>, target: int) -> RoundView {
        RoundView {
            game: GameView { board: self.game.board.update(side, board), ..self.game },
            status: if sum_values(board) > target {
                self.status.update(side, Status::Busted)
            } else {
                self.status
            },
        }
    }
}

impl RoundState {
    /// See [`RoundView::wf`].
    pub open spec fn wf(&self) -> bool {
        self@.wf()
    }

    /// Whether two rounds have the same boards, deck, turn and winner, and
    /// both sides stand the same.
    pub fn same_as(&self, other: &RoundState) -> (same: bool)
        ensures
            same == (self@ == other@),
    {
        let same = self.status[0] == other.status[0] && self.status[1] == other.status[1]
            && self.game.same_as(&other.game);
        proof {
            if self@ == other@ {
                assert(self@.status[0] == other@.status[0]);
                assert(self@.status[1] == other@.status[1]);
            }
            if same {
                assert(self@.status =~= other@.status);
            }
        }
        same
    }
}

/// Whether the first card of the hand equal to `card` sits at `index`.
pub open spec fn is_first_match(hand: Seq<CardView>, card: CardView, index: int) -> bool {
    &&& 0 <= index < hand.len()
    &&& hand[index] == card
    &&& forall|i: int| 0 <= i < index ==> hand[i] != card
}

/// The place of the first card of the hand equal to `card`.
pub open spec fn first_match(hand: Seq<CardView>, card: CardView) -> int {
    choose|index: int| is_first_match(hand, card, index)
}

/// The first match is the only place that is a first match.
pub proof fn lemma_first_match_unique(hand: Seq<CardView>, card: CardView, index: int)
    requires
        is_first_match(hand, card, index),
    ensures
        first_match(hand, card) == index,
{
    let chosen = first_match(hand, card);
    assert(is_first_match(hand, card, chosen));
    if chosen < index {
        assert(hand[chosen] != card);
    } else if index < chosen {
        assert(hand[index] != card);
    }
}

/// A card that is in the hand has a first match.
pub proof fn lemma_first_match_exists(hand: Seq<CardView>, card: CardView)
    requires
        hand.contains(card),
    ensures
        is_first_match(hand, card, first_match(hand, card)),
    decreases hand.len(),
{
    let at = choose|i: int| 0 <= i < hand.len() && hand[i] == card;
    if exists|i: int| 0 <= i < at && hand[i] == card {
        let earlier = choose|i: int| 0 <= i < at && hand[i] == card;
        let front = hand.take(at);
        assert(front[earlier] == card);
        lemma_first_match_exists(front, card);
        let first = first_match(front, card);
        assert(is_first_match(hand, card, first)) by {
            assert(hand[first] == front[first]);
            assert forall|i: int| 0 <= i < first implies hand[i] != card by {
                assert(front[i] == hand[i]);
            }
        }
    } else {
        assert(is_first_match(hand, card, at));
    }
}

/// Whether the side to act may make the move: it must still be playing; a
/// draw must have a value from one to ten and a deck to come from; a played
/// card must be in the hand.
pub open spec fn is_legal(round: RoundView, hand: Seq<CardView>, side: int, action: ActionView) -> bool {
    &&& round.status[side] == Status::Playing
    &&& match action {
        ActionView::EndTurn(value) => 1 <= value <= MAX_DRAW && round.game.deck.len() > 0,
        ActionView::Play(card) => hand.contains(card),
        ActionView::Stand => true,
    }
}

/// Every move open to the side to act: a draw of each value from one to ten
/// while the deck has cards, then standing, then each card of the hand in
/// hand order. A side that is no longer playing has no move.
pub open spec fn legal_actions(round: RoundView, hand: Seq<CardView>, side: int) -> Seq<ActionView> {
    if round.status[side] != Status::Playing {
        Seq::empty()
    } else {
        let draws = if round.game.deck.len() > 0 {
            Seq::new(MAX_DRAW as nat, |i: int| ActionView::EndTurn((i + 1) as i8))
        } else {
            Seq::empty()
        };
        draws + seq![ActionView::Stand] + Seq::new(hand.len(), |i: int| ActionView::Play(hand[i]))
    }
}

/// The round and the hand after the side made the move. A drawn card is a
/// plain card laid on the side's board. A played card leaves the hand at its
/// first match, has the effect of its kind on the board and is laid on it.
/// After either, the side is bust if its total exceeds the target. Standing
/// changes the side's status and nothing else.
pub open spec fn after_action(
    round: RoundView,
    hand: Seq<CardView>,
    side: int,
    action: ActionView,
    target: int,
) -> (RoundView, Seq<CardView>) {
    match action {
        ActionView::EndTurn(value) => (
            round.with_board(side, round.game.board[side].push(CardView::plain(value)), target),
            hand,
        ),
        ActionView::Play(card) => {
            let board = round.game.board[side];
            let laid = board_after_effect(card.kind, card, board).push(
                card_after_effect(card.kind, card, board),
            );
            (round.with_board(side, laid, target), hand.remove(first_match(hand, card)))
        },
        ActionView::Stand => (
            RoundView { status: round.status.update(side, Status::Standing), ..round },
            hand,
        ),
    }
}

/// The round and the hand after the side made the moves one after another.
pub open spec fn after_actions(
    round: RoundView,
    hand: Seq<CardView>,
    side: int,
    actions: Seq<ActionView>,
    target: int,
) -> (RoundView, Seq<CardView>)
    decreases actions.len(),
{
    if actions.len() == 0 {
        (round, hand)
    } else {
        let before = after_actions(round, hand, side, actions.drop_last(), target);
        after_action(before.0, before.1, side, actions.last(), target)
    }
}

/// Whether each of the moves is legal where it is made.
pub open spec fn all_legal(
    round: RoundView,
    hand: Seq<CardView>,
    side: int,
    actions: Seq<ActionView>,
    target: int,
) -> bool
    decreases actions.len(),
{
    if actions.len() == 0 {
        true
    } else {
        let before = after_actions(round, hand, side, actions.drop_last(), target);
        all_legal(round, hand, side, actions.drop_last(), target) && is_legal(
            before.0,
            before.1,
            side,
            actions.last(),
        )
    }
}

/// The moves listed as open to a side are exactly the legal ones.
pub proof fn lemma_legal_actions_are_the_legal_ones(
    round: RoundView,
    hand: Seq<CardView>,
    side: int,
    action: ActionView,
)
    ensures
        legal_actions(round, hand, side).contains(action) <==> is_legal(round, hand, side, action),
{
    let listed = legal_actions(round, hand, side);
    if round.status[side] == Status::Playing {
        let draws = if round.game.deck.len() > 0 {
            Seq::new(MAX_DRAW as nat, |i: int| ActionView::EndTurn((i + 1) as i8))
        } else {
            Seq::empty()
        };
        let plays = Seq::new(hand.len(), |i: int| ActionView::Play(hand[i]));
        assert(listed == draws + seq![ActionView::Stand] + plays);
        if is_legal(round, hand, side, action) {
            match action {
                ActionView::EndTurn(value) => {
                    assert(listed[value - 1] == action);
                },
                ActionView::Play(card) => {
                    let at = choose|i: int| 0 <= i < hand.len() && hand[i] == card;
                    assert(listed[draws.len() + 1 + at] == action);
                },
                ActionView::Stand => {
                    assert(listed[draws.len() as int] == action);
                },
            }
        }
        if listed.contains(action) {
            let at = choose|i: int| 0 <= i < listed.len() && listed[i] == action;
            if at < draws.len() {
                assert(listed[at] == draws[at]);
            } else if at == draws.len() {
            } else {
                assert(listed[at] == plays[at - draws.len() - 1]);
                assert(hand[at - draws.len() - 1] == action->Play_0);
            }
        }
    }
}

/// A move leaves a well-formed round and hand well formed.
pub proof fn lemma_after_action_wf(
    round: RoundView,
    hand: Seq<CardView>,
    side: int,
    action: ActionView,
    target: int,
)
    requires
        round.wf(),
        all_wf(hand),
        0 <= side < 2,
        is_legal(round, hand, side, action),
    ensures
        after_action(round, hand, side, action, target).0.wf(),
        all_wf(after_action(round, hand, side, action, target).1),
{
    let after = after_action(round, hand, side, action, target);
    match action {
        ActionView::EndTurn(value) => {
            assert(CardView::plain(value).wf());
            assert(all_wf(round.game.board[side].push(CardView::plain(value))));
        },
        ActionView::Play(card) => {
            lemma_first_match_exists(hand, card);
            let at = first_match(hand, card);
            assert(hand[at].wf());
            let board = round.game.board[side];
            let changed = board_after_effect(card.kind, card, board);
            let played = card_after_effect(card.kind, card, board);
            assert(all_wf(changed)) by {
                assert forall|i: int| 0 <= i < changed.len() implies (#[trigger] changed[i]).wf() by {
                    assert(board[i].wf());
                }
            }
            assert(played.wf()) by {
                if board.len() > 0 {
                    assert(board[board.len() - 1].wf());
                }
            }
            assert(all_wf(changed.push(played)));
            assert(all_wf(after.1)) by {
                assert forall|i: int| 0 <= i < after.1.len() implies (#[trigger] after.1[i]).wf() by {
                    if i < at {
                        assert(hand[i].wf());
                    } else {
                        assert(hand[i + 1].wf());
                    }
                }
            }
        },
        ActionView::Stand => {},
    }
}


/// Where in the hand the first card equal to `card` sits, if the hand holds
/// one.
pub fn find_card(hand: &Hand, card: &Card) -> (place: Option<usize>)
    ensures
        place is Some <==> hand@.contains(card@),
        place matches Some(index) ==> index == first_match(hand@, card@) && is_first_match(
            hand@,
            card@,
            index as int,
        ),
{
    let mut i: usize = 0;
    while i < hand.cards.len()
        invariant
            i <= hand.cards.len(),
            forall|j: int| 0 <= j < i ==> hand@[j] != card@,
        decreases hand.cards.len() - i,
    {
        if hand.cards[i].same_as(card) {
            proof {
                assert(hand@[i as int] == card@);
                lemma_first_match_unique(hand@, card@, i as int);
            }
            return Some(i);
        }
        i += 1;
    }
    None
}

/// Every move open to the side to act, in the order of [`legal_actions`].
pub fn legal_moves(state: &RoundState, hand: &Hand, side: usize) -> (moves: Vec<NodeAction>)
    requires
        state.wf(),
        side < 2,
    ensures
        action_views(moves@) == legal_actions(state@, hand@, side as int),
{
    let mut moves: Vec<NodeAction> = Vec::new();
    if state.status[side] != Status::Playing {
        assert(action_views(moves@) =~= legal_actions(state@, hand@, side as int));
        return moves;
    }
    let ghost draws = if state@.game.deck.len() > 0 {
        Seq::new(MAX_DRAW as nat, |i: int| ActionView::EndTurn((i + 1) as i8))
    } else {
        Seq::empty()
    };
    if state.game.deck.cards.len() > 0 {
        let mut value: i8 = 1;
        while value <= MAX_DRAW
            invariant
                1 <= value <= MAX_DRAW + 1,
                moves@.len() == value - 1,
                forall|i: int| 0 <= i < moves@.len() ==> (#[trigger] moves@[i])@ == draws[i],
                draws.len() == MAX_DRAW,
                forall|i: int| 0 <= i < draws.len() ==> draws[i] == ActionView::EndTurn((i + 1) as i8),
            decreases MAX_DRAW + 1 - value,
        {
            moves.push(NodeAction::EndTurn(value));
            value += 1;
        }
    }
    assert(action_views(moves@) =~= draws);
    moves.push(NodeAction::Stand);
    let ghost fixed = draws + seq![ActionView::Stand];
    assert(action_views(moves@) =~= fixed);
    let mut i: usize = 0;
    while i < hand.cards.len()
        invariant
            i <= hand.cards.len(),
            moves@.len() == fixed.len() + i,
            forall|j: int| 0 <= j < fixed.len() ==> (#[trigger] moves@[j])@ == fixed[j],
            forall|j: int|
                fixed.len() <= j < moves@.len() ==> (#[trigger] moves@[j])@ == ActionView::Play(
                    hand@[j - fixed.len()],
                ),
        decreases hand.cards.len() - i,
    {
        moves.push(NodeAction::Play(hand.cards[i].clone()));
        i += 1;
    }
    assert(action_views(moves@) =~= legal_actions(state@, hand@, side as int));
    moves
}

/// Lays a card on the side's board; the side is bust from then on if its
/// total exceeds the target.
fn lay_card(round: &mut RoundState, side: usize, card: Card, target: i8)
    requires
        old(round).wf(),
        side < 2,
        card.wf(),
    ensures
        final(round)@ == old(round)@.with_board(
            side as int,
            old(round)@.game.board[side as int].push(card@),
            target as int,
        ),
        final(round).wf(),
{
    let ghost before = round@;
    let ghost laid = before.game.board[side as int].push(card@);
    round.game.board[side].cards.push(card);
    assert(round.game.board[side as int]@ =~= laid);
    assert(round@.game.board =~= before.game.board.update(side as int, laid));
    if round.game.board[side].total() > target as i128 {
        round.status[side] = Status::Busted;
    }
    assert(round@.status =~= before.with_board(side as int, laid, target as int).status);
}

/// Makes a move for the side to act and gives the round and the hand that
/// result, leaving the ones passed in as they are. A move that is not legal
/// gives nothing.
pub fn apply_action(
    state: &RoundState,
    hand: &Hand,
    side: usize,
    action: &NodeAction,
    target: i8,
) -> (next: Option<(RoundState, Hand)>)
    requires
        state.wf(),
        hand.wf(),
        side < 2,
    ensures
        next is Some <==> is_legal(state@, hand@, side as int, action@),
        next matches Some((round, rest)) ==> (round@, rest@) == after_action(
            state@,
            hand@,
            side as int,
            action@,
            target as int,
        ) && round.wf() && rest.wf(),
{
    if state.status[side] != Status::Playing {
        return None;
    }
    proof {
        if is_legal(state@, hand@, side as int, action@) {
            lemma_after_action_wf(state@, hand@, side as int, action@, target as int);
        }
    }
    match action {
        NodeAction::EndTurn(value) => {
            if *value < 1 || *value > MAX_DRAW || state.game.deck.cards.len() == 0 {
                return None;
            }
            let mut round = state.clone();
            lay_card(&mut round, side, Card::new(*value), target);
            Some((round, hand.clone()))
        },
        NodeAction::Play(card) => {
            let place = find_card(hand, card);
            if place.is_none() {
                return None;
            }
            let index = place.unwrap();
            let mut round = state.clone();
            let mut rest = hand.clone();
            let mut played = rest.cards.remove(index);
            assert(played@ == card@);
            assert(rest@ =~= hand@.remove(index as int));
            let ghost board = state@.game.board[side as int];
            let kind = played.special_type;
            apply_board_effect(kind, &mut played, &mut round.game.board[side]);
            let ghost changed = board_after_effect(card@.kind, card@, board);
            assert(round@.game.board =~= state@.game.board.update(side as int, changed));
            let ghost mid = round@;
            lay_card(&mut round, side, played, target);
            assert(mid.game.board.update(side as int, changed.push(played@))
                =~= state@.game.board.update(side as int, changed.push(played@)));
            Some((round, rest))
        },
        NodeAction::Stand => {
            let mut round = state.clone();
            round.status[side] = Status::Standing;
            Some((round, hand.clone()))
        },
    }
}

/// Makes the moves one after another, starting from the given round and
/// hand. Gives nothing as soon as a move is not legal where it is made.
pub fn replay(
    state: &RoundState,
    hand: &Hand,
    side: usize,
    actions: &Vec<NodeAction>,
    target: i8,
) -> (end: Option<(RoundState, Hand)>)
    requires
        state.wf(),
        hand.wf(),
        side < 2,
    ensures
        end is Some <==> all_legal(state@, hand@, side as int, action_views(actions@), target as int),
        end matches Some((round, rest)) ==> (round@, rest@) == after_actions(
            state@,
            hand@,
            side as int,
            action_views(actions@),
            target as int,
        ) && round.wf() && rest.wf(),
{
    let mut round = state.clone();
    let mut rest = hand.clone();
    let ghost views = action_views(actions@);
    let mut i: usize = 0;
    assert(views.take(0) =~= Seq::<ActionView>::empty());
    while i < actions.len()
        invariant
            i <= actions.len(),
            views == action_views(actions@),
            side < 2,
            round.wf(),
            rest.wf(),
            all_legal(state@, hand@, side as int, views.take(i as int), target as int),
            (round@, rest@) == after_actions(
                state@,
                hand@,
                side as int,
                views.take(i as int),
                target as int,
            ),
        decreases actions.len() - i,
    {
        assert(views.take(i + 1).drop_last() =~= views.take(i as int));
        assert(views.take(i + 1).last() == actions@[i as int]@);
        match apply_action(&round, &rest, side, &actions[i], target) {
            Some((next_round, next_rest)) => {
                round = next_round;
                rest = next_rest;
            },
            None => {
                proof {
                    if all_legal(state@, hand@, side as int, views, target as int) {
                        lemma_all_legal_prefix(
                            state@,
                            hand@,
                            side as int,
                            views,
                            target as int,
                            i + 1,
                        );
                    }
                }
                return None;
            },
        }
        i += 1;
    }
    assert(views.take(i as int) =~= views);
    Some((round, rest))
}

/// If all moves of a sequence are legal where they are made, so are all
/// moves of each of its prefixes.
pub proof fn lemma_all_legal_prefix(
    round: RoundView,
    hand: Seq<CardView>,
    side: int,
    actions: Seq<ActionView>,
    target: int,
    count: int,
)
    requires
        0 <= count <= actions.len(),
        all_legal(round, hand, side, actions, target),
    ensures
        all_legal(round, hand, side, actions.take(count), target),
    decreases actions.len(),
{
    if count == actions.len() {
        assert(actions.take(count) =~= actions);
    } else {
        lemma_all_legal_prefix(round, hand, side, actions.drop_last(), target, count);
        assert(actions.drop_last().take(count) =~= actions.take(count));
    }
}


/// How many moves are open to a side: none once it is no longer playing;
/// else one for each of the ten draws while the deck has cards, one for
/// standing, and one for each card in the hand.
pub proof fn lemma_legal_actions_count(round: RoundView, hand: Seq<CardView>, side: int)
    ensures
        legal_actions(round, hand, side).len() == (if round.status[side] != Status::Playing {
            0int
        } else if round.game.deck.len() > 0 {
            MAX_DRAW + 1 + hand.len()
        } else {
            1int + hand.len()
        }),
{
}

} // verus!
