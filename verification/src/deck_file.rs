//! Decks written as text, one card to a line, with a limit on how many cards
//! of each kind a deck may hold.

use crate::cards::{Card, CardView, Deck, SpecialType};
use crate::parse::card_of_text;
use vstd::prelude::*;

verus! {

/// Why a text is no deck. Lines are counted from zero.
#[derive(Clone, Copy, PartialEq, Eq, Debug, Structural)]
pub enum DeckError {
    /// The line stands for no card.
    InvalidCard { line: usize },
    /// The card on the line is one more of its kind than a deck may hold.
    TooManyCards { kind: SpecialType, line: usize },
}

/// How many cards of a kind a deck may hold.
pub open spec fn quota(kind: SpecialType) -> nat {
    match kind {
        SpecialType::Plain => 24,
        SpecialType::Invert => 12,
        SpecialType::Flip => 12,
        SpecialType::Double => 1,
        SpecialType::TieBreaker => 1,
    }
}

/// How many of the cards are of the kind.
pub open spec fn count_kind(cards: Seq<CardView>, kind: SpecialType) -> nat
    decreases cards.len(),
{
    if cards.len() == 0 {
        0
    } else {
        count_kind(cards.drop_last(), kind) + (if cards.last().kind == kind {
            1nat
        } else {
            0nat
        })
    }
}

/// The texts of the lines, as sequences of characters.
pub open spec fn line_views(lines: Seq<String>) -> Seq<Seq<char>> {
    Seq::new(lines.len(), |i: int| lines[i]@)
}

/// The deck that lines of text stand for, the first line at the bottom. The
/// first line that stands for no card, or for one card too many of its
/// kind, is the error.
pub open spec fn deck_of_lines(lines: Seq<Seq<char>>) -> Result<Seq<CardView>, DeckError>
    decreases lines.len(),
{
    if lines.len() == 0 {
        Ok(Seq::empty())
    } else {
        match deck_of_lines(lines.drop_last()) {
            Err(error) => Err(error),
            Ok(cards) => match card_of_text(lines.last()) {
                None => Err(DeckError::InvalidCard { line: (lines.len() - 1) as usize }),
                Some(card) => if count_kind(cards, card.kind) >= quota(card.kind) {
                    Err(
                        DeckError::TooManyCards {
                            kind: card.kind,
                            line: (lines.len() - 1) as usize,
                        },
                    )
                } else {
                    Ok(cards.push(card))
                },
            },
        }
    }
}

/// An error in a prefix of the lines is the error of all the lines.
proof fn lemma_deck_error_stays(lines: Seq<Seq<char>>, count: int)
    requires
        0 <= count <= lines.len(),
        deck_of_lines(lines.take(count)) is Err,
    ensures
        deck_of_lines(lines) == deck_of_lines(lines.take(count)),
    decreases lines.len() - count,
{
    if count < lines.len() {
        assert(lines.take(count + 1).drop_last() =~= lines.take(count));
        lemma_deck_error_stays(lines, count + 1);
    } else {
        assert(lines.take(count) =~= lines);
    }
}

/// Builds a deck from lines of text: see [`deck_of_lines`].
pub fn deck_from_lines(lines: &Vec<String>) -> (outcome: Result<Deck, DeckError>)
    ensures
        outcome is Ok <==> deck_of_lines(line_views(lines@)) is Ok,
        outcome matches Ok(deck) ==> Ok::<Seq<CardView>, DeckError>(deck@) == deck_of_lines(
            line_views(lines@),
        ) && deck.wf(),
        outcome matches Err(error) ==> Err::<Seq<CardView>, DeckError>(error) == deck_of_lines(
            line_views(lines@),
        ),
{
    let ghost texts = line_views(lines@);
    let mut deck = Deck::new();
    let mut plain: usize = 0;
    let mut flip: usize = 0;
    let mut invert: usize = 0;
    let mut double: usize = 0;
    let mut tiebreaker: usize = 0;
    let mut i: usize = 0;
    assert(texts.take(0) =~= Seq::<Seq<char>>::empty());
    while i < lines.len()
        invariant
            i <= lines.len(),
            texts == line_views(lines@),
            deck_of_lines(texts.take(i as int)) == Ok::<Seq<CardView>, DeckError>(deck@),
            deck.wf(),
            plain == count_kind(deck@, SpecialType::Plain) <= 24,
            flip == count_kind(deck@, SpecialType::Flip) <= 12,
            invert == count_kind(deck@, SpecialType::Invert) <= 12,
            double == count_kind(deck@, SpecialType::Double) <= 1,
            tiebreaker == count_kind(deck@, SpecialType::TieBreaker) <= 1,
        decreases lines.len() - i,
    {
        let ghost before = deck@;
        assert(texts.take(i + 1).drop_last() =~= texts.take(i as int));
        assert(texts.take(i + 1).last() == lines@[i as int]@);
        let card = match Card::from_string(lines[i].as_str()) {
            Some(card) => card,
            None => {
                proof {
                    lemma_deck_error_stays(texts, i + 1);
                }
                return Err(DeckError::InvalidCard { line: i });
            },
        };
        let kind = card.special_type;
        let full = match kind {
            SpecialType::Plain => plain >= 24,
            SpecialType::Flip => flip >= 12,
            SpecialType::Invert => invert >= 12,
            SpecialType::Double => double >= 1,
            SpecialType::TieBreaker => tiebreaker >= 1,
        };
        if full {
            proof {
                lemma_deck_error_stays(texts, i + 1);
            }
            return Err(DeckError::TooManyCards { kind, line: i });
        }
        match kind {
            SpecialType::Plain => {
                plain += 1;
            },
            SpecialType::Flip => {
                flip += 1;
            },
            SpecialType::Invert => {
                invert += 1;
            },
            SpecialType::Double => {
                double += 1;
            },
            SpecialType::TieBreaker => {
                tiebreaker += 1;
            },
        }
        deck.cards.push(card);
        assert(deck@ =~= before.push(card@));
        assert(deck@.drop_last() =~= before);
        i += 1;
    }
    assert(texts.take(i as int) =~= texts);
    Ok(deck)
}

} // verus!
