//! Cards, boards, hands and decks as plain text.

use crate::cards::{card_views, Board, Card, CardView, Deck, Hand, SpecialType};
use crate::text::{decimal, signed_decimal, signed_text};
use vstd::prelude::*;
use vstd::string::StringExecFns;

verus! {

/// One of the values a card offers, with its sign; in brackets if it is the
/// value the card counts for.
pub open spec fn offer_text(value: i8, chosen: i8) -> Seq<char> {
    if value == chosen {
        "["@ + signed_text(value as int, true) + "]"@
    } else {
        signed_text(value as int, true)
    }
}

/// The values a card offers, separated by strokes.
pub open spec fn offers_text(values: Seq<i8>, chosen: i8) -> Seq<char>
    decreases values.len(),
{
    if values.len() == 0 {
        Seq::empty()
    } else if values.len() == 1 {
        offer_text(values[0], chosen)
    } else {
        offers_text(values.drop_last(), chosen) + "/"@ + offer_text(values.last(), chosen)
    }
}

/// The first two values an inverting card lists, with an ampersand between
/// them; a card that lists fewer shows what it lists.
pub open spec fn invert_text(values: Seq<i8>) -> Seq<char> {
    if values.len() >= 2 {
        signed_text(values[0] as int, false) + "&"@ + signed_text(values[1] as int, false)
    } else if values.len() == 1 {
        signed_text(values[0] as int, false)
    } else {
        Seq::empty()
    }
}

/// A card as text. A plain card is its value. A card with a choice shows
/// the values it offers, a tie-breaker with a `T` after them. An inverting
/// card shows the values it inverts. The card that takes the value of the
/// card before it is a `D`, after its value once it has one.
pub open spec fn card_text(card: CardView) -> Seq<char> {
    match card.kind {
        SpecialType::Plain => signed_text(card.value as int, false),
        SpecialType::Flip => offers_text(card.values, card.value),
        SpecialType::Invert => invert_text(card.values),
        SpecialType::Double => if card.value != 0 {
            signed_text(card.value as int, false) + "[D]"@
        } else {
            "D"@
        },
        SpecialType::TieBreaker => offers_text(card.values, card.value) + "T"@,
    }
}

/// Cards as text, separated by commas.
pub open spec fn cards_text(cards: Seq<CardView>) -> Seq<char>
    decreases cards.len(),
{
    if cards.len() == 0 {
        Seq::empty()
    } else if cards.len() == 1 {
        card_text(cards[0])
    } else {
        cards_text(cards.drop_last()) + ", "@ + card_text(cards.last())
    }
}

/// A board as text: its cards and, in brackets, their total.
pub open spec fn board_text(cards: Seq<CardView>, total: int) -> Seq<char> {
    if cards.len() == 0 {
        "<Empty Board>"@
    } else {
        cards_text(cards) + " ("@ + signed_text(total, false) + ")"@
    }
}

/// A hand as text.
pub open spec fn hand_text(cards: Seq<CardView>) -> Seq<char> {
    if cards.len() == 0 {
        "<Empty Hand>"@
    } else {
        cards_text(cards)
    }
}

/// A deck as text.
pub open spec fn deck_text(cards: Seq<CardView>) -> Seq<char> {
    if cards.len() == 0 {
        "<Empty Deck>"@
    } else {
        cards_text(cards)
    }
}

/// One of the values a card offers: see [`offer_text`].
fn offer_to_text(value: i8, chosen: i8) -> (text: String)
    ensures
        text@ == offer_text(value, chosen),
{
    let number = signed_decimal(value, true);
    if value == chosen {
        let mut text = String::from_str("[");
        text.append(number.as_str());
        text.append("]");
        text
    } else {
        number
    }
}

/// The values a card offers: see [`offers_text`].
fn offers_to_text(values: &Vec<i8>, chosen: i8) -> (text: String)
    ensures
        text@ == offers_text(values@, chosen),
{
    let mut text = String::new();
    let mut i: usize = 0;
    assert(values@.take(0) =~= Seq::<i8>::empty());
    while i < values.len()
        invariant
            i <= values.len(),
            text@ == offers_text(values@.take(i as int), chosen),
        decreases values.len() - i,
    {
        assert(values@.take(i + 1).drop_last() =~= values@.take(i as int));
        if i > 0 {
            text.append("/");
        }
        let offer = offer_to_text(values[i], chosen);
        text.append(offer.as_str());
        assert(text@ =~= offers_text(values@.take(i + 1), chosen));
        i += 1;
    }
    assert(values@.take(i as int) =~= values@);
    text
}

/// Cards as text, separated by commas: see [`cards_text`].
pub fn cards_to_text(cards: &Vec<Card>) -> (text: String)
    ensures
        text@ == cards_text(card_views(cards@)),
{
    let ghost views = card_views(cards@);
    let mut text = String::new();
    let mut i: usize = 0;
    assert(views.take(0) =~= Seq::<CardView>::empty());
    while i < cards.len()
        invariant
            i <= cards.len(),
            views == card_views(cards@),
            text@ == cards_text(views.take(i as int)),
        decreases cards.len() - i,
    {
        assert(views.take(i + 1).drop_last() =~= views.take(i as int));
        if i > 0 {
            text.append(", ");
        }
        let shown = cards[i].to_text();
        text.append(shown.as_str());
        assert(text@ =~= cards_text(views.take(i + 1)));
        i += 1;
    }
    assert(views.take(i as int) =~= views);
    text
}

impl Card {
    /// The card as text: see [`card_text`].
    pub fn to_text(&self) -> (text: String)
        ensures
            text@ == card_text(self@),
    {
        match self.special_type {
            SpecialType::Plain => signed_decimal(self.value, false),
            SpecialType::Flip => offers_to_text(&self.values_list, self.value),
            SpecialType::Invert => {
                if self.values_list.len() >= 2 {
                    let mut text = signed_decimal(self.values_list[0], false);
                    let second = signed_decimal(self.values_list[1], false);
                    text.append("&");
                    text.append(second.as_str());
                    text
                } else if self.values_list.len() == 1 {
                    signed_decimal(self.values_list[0], false)
                } else {
                    String::new()
                }
            },
            SpecialType::Double => {
                if self.value != 0 {
                    let mut text = signed_decimal(self.value, false);
                    text.append("[D]");
                    text
                } else {
                    String::from_str("D")
                }
            },
            SpecialType::TieBreaker => {
                let mut text = offers_to_text(&self.values_list, self.value);
                text.append("T");
                text
            },
        }
    }
}

impl Board {
    /// The board as text: see [`board_text`].
    pub fn to_text(&self) -> (text: String)
        ensures
            text@ == board_text(self@, self.spec_total()),
    {
        if self.cards.len() == 0 {
            return String::from_str("<Empty Board>");
        }
        let mut text = cards_to_text(&self.cards);
        let total = self.total();
        text.append(" (");
        if total < 0 {
            text.append("-");
            let digits = decimal((-total) as u128);
            text.append(digits.as_str());
        } else {
            let digits = decimal(total as u128);
            text.append(digits.as_str());
        }
        text.append(")");
        assert(text@ =~= board_text(self@, self.spec_total()));
        text
    }
}

impl Hand {
    /// The hand as text: see [`hand_text`].
    pub fn to_text(&self) -> (text: String)
        ensures
            text@ == hand_text(self@),
    {
        if self.cards.len() == 0 {
            String::from_str("<Empty Hand>")
        } else {
            cards_to_text(&self.cards)
        }
    }
}

impl Deck {
    /// The deck as text: see [`deck_text`].
    pub fn to_text(&self) -> (text: String)
        ensures
            text@ == deck_text(self@),
    {
        if self.cards.len() == 0 {
            String::from_str("<Empty Deck>")
        } else {
            cards_to_text(&self.cards)
        }
    }
}

} // verus!
