//! Cards, boards, hands, decks, rounds and matches, with the rules that score
//! them.

use crate::random::shuffle_cards;
use vstd::prelude::*;
use vstd::string::StringExecFns;

verus! {

/// The total a board must not exceed.
pub const TARGET_TOTAL: i8 = 20;

/// The number of rounds a side must win to take the match.
pub const WINNING_SCORE: u8 = 3;

/// What a card does beyond carrying a value.
#[derive(Clone, Copy, Hash, PartialEq, Eq, Debug, Structural)]
pub enum SpecialType {
    /// A plain numeric card.
    Plain,
    /// Offers several values; the player picks one when playing it.
    Flip,
    /// Negates every card on the board whose value is listed on this card.
    Invert,
    /// Takes the value of the card played just before it.
    Double,
    /// Offers several values and wins exact ties for its side.
    TieBreaker,
}

/// Where a side stands in the current round.
#[derive(Clone, Copy, PartialEq, Eq, Debug, Structural)]
pub enum Status {
    Playing,
    Standing,
    Busted,
}

/// The mathematical content of a [`Card`].
pub struct CardView {
    pub values: Seq<i8>,
    pub value: i8,
    pub kind: SpecialType,
}

impl CardView {
    /// A card offers at least one value, and none of its values is the one
    /// signed byte that has no negation.
    pub open spec fn wf(self) -> bool {
        &&& self.values.len() >= 1
        &&& self.value > i8::MIN
        &&& forall|i: int| 0 <= i < self.values.len() ==> self.values[i] > i8::MIN
    }

    /// The card's value is one of the values it offers.
    pub open spec fn is_resolved(self) -> bool {
        self.values.contains(self.value)
    }

    /// The view of a plain card of the given value.
    pub open spec fn plain(value: i8) -> CardView {
        CardView { values: seq![value], value, kind: SpecialType::Plain }
    }

    /// Whether playing a card of this kind asks the player to pick a value.
    pub open spec fn needs_choice(self) -> bool {
        self.kind == SpecialType::Flip || self.kind == SpecialType::TieBreaker
    }

    /// The card after the player picked the value at `index`: kinds that ask
    /// for a choice take that value, the others stay as they are.
    pub open spec fn resolved(self, index: int) -> CardView {
        if self.needs_choice() {
            CardView { value: self.values[index], ..self }
        } else {
            self
        }
    }
}

/// A playable card: the values it offers, the value it currently counts for,
/// and its kind.
#[derive(Debug)]
pub struct Card {
    pub values_list: Vec<i8>,
    pub value: i8,
    pub special_type: SpecialType,
}

impl View for Card {
    type V = CardView;

    open spec fn view(&self) -> CardView {
        CardView { values: self.values_list@, value: self.value, kind: self.special_type }
    }
}

/// The views of a sequence of cards, in order.
pub open spec fn card_views(cards: Seq<Card>) -> Seq<CardView> {
    Seq::new(cards.len(), |i: int| cards[i]@)
}

/// Every card of the sequence is well formed.
pub open spec fn all_wf(cards: Seq<CardView>) -> bool {
    forall|i: int| 0 <= i < cards.len() ==> (#[trigger] cards[i]).wf()
}

/// The sum of the values of a sequence of cards.
pub open spec fn sum_values(cards: Seq<CardView>) -> int
    decreases cards.len(),
{
    if cards.len() == 0 {
        0
    } else {
        sum_values(cards.drop_last()) + cards.last().value
    }
}

/// Whether any card of the sequence is a tie-breaker.
pub open spec fn any_tiebreaker(cards: Seq<CardView>) -> bool {
    exists|i: int| 0 <= i < cards.len() && (#[trigger] cards[i]).kind == SpecialType::TieBreaker
}

/// The outcome of resolving a card with an index it does not offer.
#[derive(Clone, Copy, PartialEq, Eq, Debug, Structural)]
pub enum CardError {
    /// The chosen index is not below the number of values the card offers.
    ChoiceOutOfRange,
}

/// Whether the byte sequence holds the given value.
pub fn list_contains(list: &Vec<i8>, needle: i8) -> (found: bool)
    ensures
        found == list@.contains(needle),
{
    let mut i: usize = 0;
    while i < list.len()
        invariant
            i <= list.len(),
            forall|j: int| 0 <= j < i ==> list@[j] != needle,
        decreases list.len() - i,
    {
        if list[i] == needle {
            return true;
        }
        i += 1;
    }
    false
}

/// Whether two byte sequences hold the same values in the same order.
pub fn same_values(a: &Vec<i8>, b: &Vec<i8>) -> (same: bool)
    ensures
        same == (a@ == b@),
{
    if a.len() != b.len() {
        return false;
    }
    let mut i: usize = 0;
    while i < a.len()
        invariant
            i <= a.len(),
            a.len() == b.len(),
            forall|j: int| 0 <= j < i ==> a@[j] == b@[j],
        decreases a.len() - i,
    {
        if a[i] != b[i] {
            return false;
        }
        i += 1;
    }
    assert(a@ =~= b@);
    true
}

impl Clone for Card {
    fn clone(&self) -> (copy: Self)
        ensures
            copy@ == self@,
    {
        Card {
            values_list: self.values_list.clone(),
            value: self.value,
            special_type: self.special_type,
        }
    }
}

impl Card {
    /// See [`CardView::wf`].
    pub open spec fn wf(&self) -> bool {
        self@.wf()
    }

    /// A plain card of the given value.
    pub fn new(value: i8) -> (card: Card)
        ensures
            card@ == CardView::plain(value),
            value > i8::MIN ==> card.wf(),
    {
        let mut values_list: Vec<i8> = Vec::new();
        values_list.push(value);
        assert(values_list@ =~= seq![value]);
        Card { values_list, value, special_type: SpecialType::Plain }
    }

    /// Whether playing this card asks the player to pick one of its values.
    pub fn needs_choice(&self) -> (asks: bool)
        ensures
            asks == self@.needs_choice(),
    {
        self.special_type == SpecialType::Flip || self.special_type == SpecialType::TieBreaker
    }

    /// Settles the value a card counts for. A card that asks for a choice
    /// takes the value at `index`, and is left untouched with an error when
    /// it offers no such index. The other kinds have nothing to choose and
    /// stay as they are, whatever the index.
    pub fn resolve_value(&mut self, index: usize) -> (outcome: Result<(), CardError>)
        ensures
            outcome is Err <==> old(self)@.needs_choice() && index >= old(self)@.values.len(),
            outcome is Ok ==> final(self)@ == old(self)@.resolved(index as int),
            outcome is Err ==> *final(self) == *old(self),
            outcome is Err ==> outcome == Err::<(), CardError>(CardError::ChoiceOutOfRange),
            old(self).wf() ==> final(self).wf(),
            outcome is Ok && old(self)@.needs_choice() ==> final(self)@.is_resolved(),
    {
        if self.needs_choice() {
            if index < self.values_list.len() {
                self.value = self.values_list[index];
                Ok(())
            } else {
                Err(CardError::ChoiceOutOfRange)
            }
        } else {
            Ok(())
        }
    }

    /// Whether two cards offer the same values, count for the same value and
    /// are of the same kind.
    pub fn same_as(&self, other: &Card) -> (same: bool)
        ensures
            same == (self@ == other@),
    {
        self.value == other.value && self.special_type == other.special_type && same_values(
            &self.values_list,
            &other.values_list,
        )
    }
}


/// A copy of a list of cards, card for card.
pub fn clone_cards(cards: &Vec<Card>) -> (copy: Vec<Card>)
    ensures
        card_views(copy@) == card_views(cards@),
{
    let copy = cards.clone();
    assert(card_views(copy@) =~= card_views(cards@));
    copy
}

/// Taking a prefix of a list of cards and then one more card extends the
/// prefix's sum by that card's value.
pub proof fn lemma_sum_values_step(cards: Seq<CardView>, i: int)
    requires
        0 <= i < cards.len(),
    ensures
        sum_values(cards.take(i + 1)) == sum_values(cards.take(i)) + cards[i].value,
{
    assert(cards.take(i + 1).drop_last() =~= cards.take(i));
}

/// The cards one side has played this round, in the order played.
#[derive(Debug)]
pub struct Board {
    pub cards: Vec<Card>,
}

impl View for Board {
    type V = Seq<CardView>;

    open spec fn view(&self) -> Seq<CardView> {
        card_views(self.cards@)
    }
}

impl Clone for Board {
    fn clone(&self) -> (copy: Self)
        ensures
            copy@ == self@,
    {
        Board { cards: clone_cards(&self.cards) }
    }
}

impl Board {
    /// Every card on the board is well formed.
    pub open spec fn wf(&self) -> bool {
        all_wf(self@)
    }

    /// The sum of the values of the cards on the board.
    pub open spec fn spec_total(&self) -> int {
        sum_values(self@)
    }

    /// The sum of the values of the cards on the board. The result is wide
    /// enough for any number of cards.
    pub fn total(&self) -> (sum: i128)
        ensures
            sum == self.spec_total(),
            -0x80_0000_0000_0000_0000 <= sum <= 0x80_0000_0000_0000_0000,
    {
        let mut sum: i128 = 0;
        let mut i: usize = 0;
        while i < self.cards.len()
            invariant
                i <= self.cards.len(),
                sum == sum_values(self@.take(i as int)),
                -128 * i <= sum <= 127 * i,
            decreases self.cards.len() - i,
        {
            proof {
                lemma_sum_values_step(self@, i as int);
            }
            sum = sum + self.cards[i].value as i128;
            i += 1;
        }
        assert(self@.take(i as int) =~= self@);
        sum
    }

    /// How far the board's total is below the target; a board above the
    /// target, at a negative distance, is bust.
    pub fn distance(&self, target: i8) -> (distance: i128)
        ensures
            distance == target - self.spec_total(),
    {
        target as i128 - self.total()
    }

    /// Whether the board holds a tie-breaker card.
    pub fn has_tiebreaker(&self) -> (found: bool)
        ensures
            found == any_tiebreaker(self@),
    {
        let mut i: usize = 0;
        while i < self.cards.len()
            invariant
                i <= self.cards.len(),
                forall|j: int| 0 <= j < i ==> (#[trigger] self@[j]).kind != SpecialType::TieBreaker,
            decreases self.cards.len() - i,
        {
            if self.cards[i].special_type == SpecialType::TieBreaker {
                assert(self@[i as int].kind == SpecialType::TieBreaker);
                return true;
            }
            i += 1;
        }
        false
    }
}

/// The board after an inverting card listing `targets` was played on it:
/// every card whose value is listed changes sign.
pub open spec fn inverted(board: Seq<CardView>, targets: Seq<i8>) -> Seq<CardView> {
    Seq::new(
        board.len(),
        |i: int|
            if targets.contains(board[i].value) {
                CardView { value: (-board[i].value) as i8, ..board[i] }
            } else {
                board[i]
            },
    )
}

/// The card after it echoed the board: it takes the value of the last card
/// played, and keeps its own on an empty board.
pub open spec fn echoed(board: Seq<CardView>, card: CardView) -> CardView {
    if board.len() > 0 {
        CardView { value: board.last().value, ..card }
    } else {
        card
    }
}

/// The board after a card of the given kind was played on it, before the card
/// itself is laid down.
pub open spec fn board_after_effect(kind: SpecialType, card: CardView, board: Seq<CardView>) -> Seq<
    CardView,
> {
    if kind == SpecialType::Invert {
        inverted(board, card.values)
    } else {
        board
    }
}

/// The played card after the effect of its kind.
pub open spec fn card_after_effect(kind: SpecialType, card: CardView, board: Seq<CardView>) -> CardView {
    if kind == SpecialType::Double {
        echoed(board, card)
    } else {
        card
    }
}

/// Applies the effect that a card of the given kind has when it is played:
/// an inverting card negates every card already on the board whose value it
/// lists, an echoing card takes the value of the last card on the board, and
/// the other kinds do nothing.
pub fn apply_board_effect(kind: SpecialType, played_card: &mut Card, target_board: &mut Board)
    requires
        old(target_board).wf(),
    ensures
        final(target_board)@ == board_after_effect(kind, old(played_card)@, old(target_board)@),
        final(played_card)@ == card_after_effect(kind, old(played_card)@, old(target_board)@),
        final(target_board).wf(),
        old(played_card).wf() ==> final(played_card).wf(),
{
    match kind {
        SpecialType::Invert => {
            let ghost before = target_board@;
            let mut i: usize = 0;
            while i < target_board.cards.len()
                invariant
                    i <= target_board.cards.len(),
                    target_board@.len() == before.len(),
                    all_wf(before),
                    *played_card == *old(played_card),
                    forall|j: int|
                        0 <= j < i ==> (#[trigger] target_board@[j]) == inverted(
                            before,
                            played_card@.values,
                        )[j],
                    forall|j: int|
                        i <= j < before.len() ==> (#[trigger] target_board@[j]) == before[j],
                decreases target_board.cards.len() - i,
            {
                let ghost mid = target_board@;
                assert(mid[i as int] == before[i as int]);
                assert(before[i as int].wf());
                let value = target_board.cards[i].value;
                if list_contains(&played_card.values_list, value) {
                    target_board.cards[i].value = -value;
                }
                assert forall|j: int| 0 <= j < before.len() && j != i implies
                    #[trigger] target_board@[j] == mid[j] by {}
                i += 1;
            }
            assert(target_board@ =~= inverted(before, played_card@.values));
            assert forall|j: int| 0 <= j < target_board@.len() implies (#[trigger] target_board@[j]).wf() by {
                assert(before[j].wf());
            }
        },
        SpecialType::Double => {
            let count = target_board.cards.len();
            if count > 0 {
                assert(target_board@[count - 1].wf());
                played_card.value = target_board.cards[count - 1].value;
            }
        },
        _ => {},
    }
}


/// The cards a player holds and may play.
#[derive(Debug)]
pub struct Hand {
    pub cards: Vec<Card>,
}

impl View for Hand {
    type V = Seq<CardView>;

    open spec fn view(&self) -> Seq<CardView> {
        card_views(self.cards@)
    }
}

impl Clone for Hand {
    fn clone(&self) -> (copy: Self)
        ensures
            copy@ == self@,
    {
        Hand { cards: clone_cards(&self.cards) }
    }
}

/// What a hand of `count` cards looks like to the other side: a marker for
/// an empty hand, else one question mark per card, separated by commas.
pub open spec fn anonymous_hand_text(count: nat) -> Seq<char>
    decreases count,
{
    if count == 0 {
        "<Empty Hand>"@
    } else if count == 1 {
        "?"@
    } else {
        anonymous_hand_text((count - 1) as nat) + ", ?"@
    }
}

impl Hand {
    /// Every card in the hand is well formed.
    pub open spec fn wf(&self) -> bool {
        all_wf(self@)
    }

    /// An empty hand.
    pub fn new() -> (hand: Hand)
        ensures
            hand.cards@ == Seq::<Card>::empty(),
            hand@ == Seq::<CardView>::empty(),
    {
        let hand = Hand { cards: Vec::new() };
        assert(hand@ =~= Seq::<CardView>::empty());
        hand
    }

    /// The hand with its cards hidden: see [`anonymous_hand_text`].
    pub fn get_anonymous_hand_string(&self) -> (text: String)
        ensures
            text@ == anonymous_hand_text(self@.len()),
    {
        if self.cards.len() == 0 {
            return String::from_str("<Empty Hand>");
        }
        let mut text = String::from_str("?");
        let mut i: usize = 1;
        while i < self.cards.len()
            invariant
                1 <= i <= self.cards.len(),
                text@ == anonymous_hand_text(i as nat),
            decreases self.cards.len() - i,
        {
            text.append(", ?");
            i += 1;
        }
        text
    }
}

/// The forty cards every round is drawn from: the values one to ten, four
/// times over.
pub open spec fn standard_deck() -> Seq<CardView> {
    Seq::new(40, |i: int| CardView::plain((i % 10 + 1) as i8))
}

/// Two piles that hold the same cards, each as often as the other, are well
/// formed together.
pub proof fn lemma_same_cards_wf(first: Seq<CardView>, second: Seq<CardView>)
    requires
        first.to_multiset() == second.to_multiset(),
        all_wf(first),
    ensures
        all_wf(second),
{
    assert forall|i: int| 0 <= i < second.len() implies (#[trigger] second[i]).wf() by {
        let card = second[i];
        assert(second.contains(card));
        vstd::seq_lib::to_multiset_contains(second, card);
        vstd::seq_lib::to_multiset_contains(first, card);
        let place = choose|j: int| 0 <= j < first.len() && first[j] == card;
        assert(first[place].wf());
    }
}

/// The standard deck is well formed.
pub proof fn lemma_standard_deck_wf()
    ensures
        all_wf(standard_deck()),
{
    assert forall|i: int| 0 <= i < standard_deck().len() implies (#[trigger] standard_deck()[i]).wf() by {
        assert(standard_deck()[i] == CardView::plain((i % 10 + 1) as i8));
    }
}

/// A pile of cards to draw from; the last card is the top.
#[derive(Debug)]
pub struct Deck {
    pub cards: Vec<Card>,
}

impl View for Deck {
    type V = Seq<CardView>;

    open spec fn view(&self) -> Seq<CardView> {
        card_views(self.cards@)
    }
}

impl Clone for Deck {
    fn clone(&self) -> (copy: Self)
        ensures
            copy@ == self@,
    {
        Deck { cards: clone_cards(&self.cards) }
    }
}

impl Deck {
    /// Every card in the deck is well formed.
    pub open spec fn wf(&self) -> bool {
        all_wf(self@)
    }

    /// An empty deck.
    pub fn new() -> (deck: Deck)
        ensures
            deck.cards@ == Seq::<Card>::empty(),
            deck@ == Seq::<CardView>::empty(),
    {
        let deck = Deck { cards: Vec::new() };
        assert(deck@ =~= Seq::<CardView>::empty());
        deck
    }

    /// Puts the cards in a random order. The same cards are in the deck
    /// afterwards.
    pub fn shuffle(&mut self)
        ensures
            final(self)@.len() == old(self)@.len(),
            final(self)@.to_multiset() == old(self)@.to_multiset(),
            old(self).wf() ==> final(self).wf(),
    {
        shuffle_cards(&mut self.cards);
        proof {
            if old(self).wf() {
                lemma_same_cards_wf(old(self)@, self@);
            }
        }
    }

    /// Takes the top card, if there is one.
    pub fn draw(&mut self) -> (card: Option<Card>)
        ensures
            old(self)@.len() == 0 <==> card is None,
            card is None ==> final(self).cards@ == old(self).cards@,
            card matches Some(c) ==> c == old(self).cards@.last() && final(self).cards@ == old(
                self,
            ).cards@.drop_last() && final(self)@ == old(self)@.drop_last() && c@ == old(
                self,
            )@.last(),
    {
        let ghost before = self@;
        let card = self.cards.pop();
        assert(card is Some ==> self@ =~= before.drop_last());
        card
    }

    /// Adds the forty standard cards on top of the deck.
    pub fn default_fill(&mut self)
        ensures
            final(self)@ == old(self)@ + standard_deck(),
            old(self).wf() ==> final(self).wf(),
    {
        let ghost before = self@;
        let mut round: usize = 0;
        while round < 4
            invariant
                round <= 4,
                self@ == before + standard_deck().take(10 * round),
            decreases 4 - round,
        {
            let mut value: i8 = 1;
            while value <= 10
                invariant
                    round < 4,
                    1 <= value <= 11,
                    self@ == before + standard_deck().take(10 * round + value - 1),
                decreases 11 - value,
            {
                let ghost mid = self@;
                self.cards.push(Card::new(value));
                assert(self@ =~= mid.push(CardView::plain(value)));
                assert(self@ =~= before + standard_deck().take(10 * round + value));
                value += 1;
            }
            round += 1;
        }
        assert(standard_deck().take(40) =~= standard_deck());
    }
}

/// One side of a match: the cards in hand, the side's own deck, and where the
/// side stands in the round.
#[derive(Debug)]
pub struct Player {
    pub hand: Hand,
    pub deck: Deck,
    pub status: Status,
}


/// The mathematical content of a [`Game`].
pub struct GameView {
    pub board: Seq<Seq<CardView>>,
    pub deck: Seq<CardView>,
    pub turn: u8,
    pub winner: u8,
}

/// One round: a board for each side, the deck both sides draw from, and the
/// number of the turn.
#[derive(Debug)]
pub struct Game {
    pub board: [Board; 2],
    pub deck: Deck,
    pub turn: u8,
    pub winner: u8,
}

impl View for Game {
    type V = GameView;

    open spec fn view(&self) -> GameView {
        GameView {
            board: seq![self.board[0]@, self.board[1]@],
            deck: self.deck@,
            turn: self.turn,
            winner: self.winner,
        }
    }
}

impl Clone for Game {
    fn clone(&self) -> (copy: Self)
        ensures
            copy@ == self@,
    {
        Game {
            board: [self.board[0].clone(), self.board[1].clone()],
            deck: self.deck.clone(),
            turn: self.turn,
            winner: self.winner,
        }
    }
}

/// Who wins a round, given both totals, whether each side holds a
/// tie-breaker, and the target. A side whose total exceeds the target is
/// bust. Two bust sides draw; a single bust side loses; otherwise the side
/// nearer the target wins, and at equal distance the side that alone holds a
/// tie-breaker. `None` is a draw.
pub open spec fn round_winner(
    total0: int,
    total1: int,
    tiebreaker0: bool,
    tiebreaker1: bool,
    target: int,
) -> Option<usize> {
    let distance0 = target - total0;
    let distance1 = target - total1;
    if distance0 < 0 && distance1 < 0 {
        None
    } else if distance0 < 0 {
        Some(1)
    } else if distance1 < 0 {
        Some(0)
    } else if distance0 < distance1 {
        Some(0)
    } else if distance1 < distance0 {
        Some(1)
    } else if tiebreaker0 && !tiebreaker1 {
        Some(0)
    } else if tiebreaker1 && !tiebreaker0 {
        Some(1)
    } else {
        None
    }
}

impl GameView {
    /// Both boards are there, and every card on them and in the deck is well
    /// formed.
    pub open spec fn wf(self) -> bool {
        &&& self.board.len() == 2
        &&& all_wf(self.board[0])
        &&& all_wf(self.board[1])
        &&& all_wf(self.deck)
    }

    /// The winner of the round as the boards stand, for the given target.
    pub open spec fn winner_for(self, target: int) -> Option<usize> {
        round_winner(
            sum_values(self.board[0]),
            sum_values(self.board[1]),
            any_tiebreaker(self.board[0]),
            any_tiebreaker(self.board[1]),
            target,
        )
    }
}

impl Game {
    /// See [`GameView::wf`].
    pub open spec fn wf(&self) -> bool {
        self@.wf()
    }

    /// A fresh round: two empty boards and a shuffled standard deck.
    pub fn new() -> (game: Game)
        ensures
            game@.board == seq![Seq::<CardView>::empty(), Seq::<CardView>::empty()],
            game@.deck.len() == 40,
            game@.deck.to_multiset() == standard_deck().to_multiset(),
            game.turn == 1,
            game.winner == 0,
            game.wf(),
    {
        let board1 = Board { cards: Vec::new() };
        let board2 = Board { cards: Vec::new() };
        let mut board_deck = Deck::new();
        board_deck.default_fill();
        assert(board_deck@ =~= standard_deck());
        proof {
            lemma_standard_deck_wf();
        }
        board_deck.shuffle();
        assert(board1@ =~= Seq::<CardView>::empty());
        assert(board2@ =~= Seq::<CardView>::empty());
        Game { board: [board1, board2], deck: board_deck, turn: 1, winner: 0 }
    }

    /// The winner of the round as the boards stand, for the given target
    /// total: see [`round_winner`].
    pub fn determine_round_winner(&self, target: i8) -> (winner: Option<usize>)
        ensures
            winner == self@.winner_for(target as int),
    {
        let player1_distance = self.board[0].distance(target);
        let player2_distance = self.board[1].distance(target);
        if player1_distance < 0 && player2_distance < 0 {
            None
        } else if player1_distance < 0 {
            Some(1)
        } else if player2_distance < 0 {
            Some(0)
        } else if player1_distance < player2_distance {
            Some(0)
        } else if player2_distance < player1_distance {
            Some(1)
        } else {
            let first = self.board[0].has_tiebreaker();
            let second = self.board[1].has_tiebreaker();
            if first && !second {
                Some(0)
            } else if second && !first {
                Some(1)
            } else {
                None
            }
        }
    }

    /// The winner of the round as the boards stand, for a target of twenty.
    /// The round itself is left as it is.
    pub fn check_win(&mut self) -> (winner: Option<usize>)
        ensures
            winner == old(self)@.winner_for(TARGET_TOTAL as int),
            *final(self) == *old(self),
    {
        self.determine_round_winner(TARGET_TOTAL)
    }
}


/// The progress of a match: the number of the round being played, counted
/// from one, and the rounds each side has won.
#[derive(Debug)]
pub struct MatchDetails {
    pub round: usize,
    pub score: [u8; 2],
}

impl MatchDetails {
    /// No round begun, no round won.
    pub fn new() -> (details: MatchDetails)
        ensures
            details.round == 0,
            details.score@ == seq![0u8, 0u8],
    {
        let details = MatchDetails { round: 0, score: [0, 0] };
        assert(details.score@ =~= seq![0u8, 0u8]);
        details
    }
}

/// Who has won a match, given the rounds each side has won and the score
/// that wins: the first side if it stands at that score, else the second side
/// if it does, else nobody yet.
pub open spec fn match_winner(score0: u8, score1: u8, winning_score: u8) -> Option<usize> {
    if score0 == winning_score {
        Some(0)
    } else if score1 == winning_score {
        Some(1)
    } else {
        None
    }
}

/// Decides a match from the rounds each side has won: see [`match_winner`].
pub fn determine_match_winner(score: &[u8; 2], winning_score: u8) -> (winner: Option<usize>)
    ensures
        winner == match_winner(score@[0], score@[1], winning_score),
{
    if score[0] == winning_score {
        Some(0)
    } else if score[1] == winning_score {
        Some(1)
    } else {
        None
    }
}

/// The first `count` cards dealt from a deck, top card first.
pub open spec fn dealt(deck: Seq<Card>, count: nat) -> Seq<Card> {
    Seq::new(count, |k: int| deck[deck.len() - 1 - k])
}

/// The number of cards each side is dealt at the start of a match.
pub const HAND_SIZE: usize = 4;

/// A match: the rounds played so far, the two sides, and the score.
#[derive(Debug)]
pub struct Match {
    pub games: Vec<Game>,
    pub players: [Player; 2],
    pub match_detail: MatchDetails,
}

impl Match {
    /// The round being played is one of the rounds on record.
    pub open spec fn in_round(&self) -> bool {
        1 <= self.match_detail.round <= self.games@.len()
    }

    /// Starts a match: each side is dealt the top four cards of its own deck
    /// and keeps the rest. Each deck must hold at least four cards.
    pub fn new(deck1: Deck, deck2: Deck) -> (started: Match)
        requires
            deck1.cards@.len() >= HAND_SIZE,
            deck2.cards@.len() >= HAND_SIZE,
        ensures
            started.games@.len() == 0,
            started.match_detail.round == 0,
            started.match_detail.score@ == seq![0u8, 0u8],
            started.players[0].status == Status::Playing,
            started.players[1].status == Status::Playing,
            started.players[0].hand.cards@ == dealt(deck1.cards@, HAND_SIZE as nat),
            started.players[1].hand.cards@ == dealt(deck2.cards@, HAND_SIZE as nat),
            started.players[0].deck.cards@ == deck1.cards@.take(deck1.cards@.len() - HAND_SIZE),
            started.players[1].deck.cards@ == deck2.cards@.take(deck2.cards@.len() - HAND_SIZE),
    {
        let mut deck1 = deck1;
        let mut deck2 = deck2;
        let ghost full1 = deck1.cards@;
        let ghost full2 = deck2.cards@;
        let mut player_hand = Hand::new();
        let mut opponent_hand = Hand::new();
        let mut i: usize = 0;
        while i < HAND_SIZE
            invariant
                i <= HAND_SIZE,
                full1.len() >= HAND_SIZE,
                full2.len() >= HAND_SIZE,
                deck1.cards@ == full1.take(full1.len() - i),
                deck2.cards@ == full2.take(full2.len() - i),
                player_hand.cards@ == dealt(full1, i as nat),
                opponent_hand.cards@ == dealt(full2, i as nat),
            decreases HAND_SIZE - i,
        {
            let card1 = deck1.draw();
            let card2 = deck2.draw();
            player_hand.cards.push(card1.unwrap());
            opponent_hand.cards.push(card2.unwrap());
            i += 1;
            assert(deck1.cards@ =~= full1.take(full1.len() - i));
            assert(deck2.cards@ =~= full2.take(full2.len() - i));
            assert(player_hand.cards@ =~= dealt(full1, i as nat));
            assert(opponent_hand.cards@ =~= dealt(full2, i as nat));
        }
        Match {
            games: Vec::new(),
            players: [
                Player { hand: player_hand, deck: deck1, status: Status::Playing },
                Player { hand: opponent_hand, deck: deck2, status: Status::Playing },
            ],
            match_detail: MatchDetails::new(),
        }
    }

    /// Begins the next round: a fresh round goes on record, both sides are
    /// playing again, and the round number goes up by one.
    pub fn new_game(&mut self)
        requires
            old(self).match_detail.round < usize::MAX,
        ensures
            final(self).games@.len() == old(self).games@.len() + 1,
            final(self).games@.drop_last() == old(self).games@,
            final(self).games@.last()@.board == seq![
                Seq::<CardView>::empty(),
                Seq::<CardView>::empty(),
            ],
            final(self).games@.last()@.deck.to_multiset() == standard_deck().to_multiset(),
            final(self).games@.last().turn == 1,
            final(self).games@.last().winner == 0,
            final(self).games@.last().wf(),
            final(self).players[0].status == Status::Playing,
            final(self).players[1].status == Status::Playing,
            final(self).players[0].hand == old(self).players[0].hand,
            final(self).players[1].hand == old(self).players[1].hand,
            final(self).players[0].deck == old(self).players[0].deck,
            final(self).players[1].deck == old(self).players[1].deck,
            final(self).match_detail.round == old(self).match_detail.round + 1,
            final(self).match_detail.score == old(self).match_detail.score,
    {
        let new_game = Game::new();
        self.players[0].status = Status::Playing;
        self.players[1].status = Status::Playing;
        self.games.push(new_game);
        self.match_detail.round += 1;
        assert(self.games@.drop_last() =~= old(self).games@);
    }

    /// The round being played, open to change. The match must be in a round.
    pub fn current_game(&mut self) -> (game: &mut Game)
        requires
            old(self).in_round(),
        ensures
            *game == old(self).games@[old(self).match_detail.round - 1],
            final(self).games@ == old(self).games@.update(
                old(self).match_detail.round - 1,
                *final(game),
            ),
            final(self).players == old(self).players,
            final(self).match_detail == old(self).match_detail,
    {
        &mut self.games[self.match_detail.round - 1]
    }

    /// The winner of the match, once a side stands at three rounds won. The
    /// match itself is left as it is.
    pub fn check_win(&mut self) -> (winner: Option<usize>)
        ensures
            winner == match_winner(
                old(self).match_detail.score@[0],
                old(self).match_detail.score@[1],
                WINNING_SCORE,
            ),
            *final(self) == *old(self),
    {
        determine_match_winner(&self.match_detail.score, WINNING_SCORE)
    }
}


/// Whether two lists hold the same cards in the same order.
pub fn same_cards(first: &Vec<Card>, second: &Vec<Card>) -> (same: bool)
    ensures
        same == (card_views(first@) == card_views(second@)),
{
    if first.len() != second.len() {
        assert(card_views(first@).len() != card_views(second@).len());
        return false;
    }
    let mut i: usize = 0;
    while i < first.len()
        invariant
            i <= first.len(),
            first.len() == second.len(),
            forall|j: int| 0 <= j < i ==> first@[j]@ == second@[j]@,
        decreases first.len() - i,
    {
        if !first[i].same_as(&second[i]) {
            assert(card_views(first@)[i as int] != card_views(second@)[i as int]);
            return false;
        }
        i += 1;
    }
    assert(card_views(first@) =~= card_views(second@));
    true
}

impl Game {
    /// Whether two rounds have the same boards, deck, turn and winner.
    pub fn same_as(&self, other: &Game) -> (same: bool)
        ensures
            same == (self@ == other@),
    {
        let same = self.turn == other.turn && self.winner == other.winner && same_cards(
            &self.board[0].cards,
            &other.board[0].cards,
        ) && same_cards(&self.board[1].cards, &other.board[1].cards) && same_cards(
            &self.deck.cards,
            &other.deck.cards,
        );
        proof {
            if self@ == other@ {
                assert(self@.board[0] == other@.board[0]);
                assert(self@.board[1] == other@.board[1]);
            }
            if same {
                assert(self@.board =~= other@.board);
            }
        }
        same
    }
}

} // verus!
