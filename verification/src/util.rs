//! What a player can do in a turn, and the messages that report it.

use crate::cards::SpecialType;
use crate::text::{decimal, decimal_text};
use vstd::prelude::*;
use vstd::string::StringExecFns;

verus! {

/// The pattern of a plain card: a whole number, with or without a sign.
pub const CARD_REGEX: &'static str = r"^([+-]?\d+)$";

/// The pattern of a tie-breaker card, such as `+1/-1T`.
pub const TIEBREAKER_REGEX: &'static str = r"^([+-]?\d+)/([+-]?\d)+T$";

/// The pattern of a card that offers two values, such as `+1/-1`.
pub const FLIP_REGEX: &'static str = r"^([+-]?\d+)/([+-]?\d)$";

/// The pattern of an inverting card, such as `2&4`.
pub const SWAP_REGEX: &'static str = r"^(\d+)&(\d+)$";

/// The pattern of the card that takes the value of the card before it.
pub const DOUBLE_REGEX: &'static str = r"^D$";

/// A step of a turn.
#[derive(Clone, Copy, PartialEq, Eq, Debug, Structural)]
pub enum Action {
    Draw,
    Stand,
    EndTurn,
    Play,
    TurnStart,
}

impl Action {
    /// The name of the step as it is shown.
    pub open spec fn spec_name(self) -> Seq<char> {
        match self {
            Action::Draw => "Draw"@,
            Action::Stand => "Stand"@,
            Action::Play => "Play"@,
            Action::TurnStart => "Turn Start"@,
            Action::EndTurn => "End Turn"@,
        }
    }

    /// The name of the step as it is shown.
    pub fn name(&self) -> (text: &'static str)
        ensures
            text@ == self.spec_name(),
    {
        match self {
            Action::Draw => "Draw",
            Action::Stand => "Stand",
            Action::Play => "Play",
            Action::TurnStart => "Turn Start",
            Action::EndTurn => "End Turn",
        }
    }
}

/// The name of a kind of card as it is shown.
pub open spec fn special_type_text(kind: SpecialType) -> Seq<char> {
    match kind {
        SpecialType::Plain => "None"@,
        SpecialType::Flip => "Flip"@,
        SpecialType::Invert => "Invert"@,
        SpecialType::Double => "Double"@,
        SpecialType::TieBreaker => "TieBreaker"@,
    }
}

/// The name of a kind of card as it is shown.
pub fn special_type_name(kind: SpecialType) -> (text: &'static str)
    ensures
        text@ == special_type_text(kind),
{
    match kind {
        SpecialType::Plain => "None",
        SpecialType::Flip => "Flip",
        SpecialType::Invert => "Invert",
        SpecialType::Double => "Double",
        SpecialType::TieBreaker => "TieBreaker",
    }
}

/// How a side is addressed: the first side is the person at the keyboard.
pub open spec fn identifier_text(player: int) -> Seq<char> {
    if player == 0 {
        "You"@
    } else {
        "Opponent"@
    }
}

/// How a side is addressed. There are two sides, numbered zero and one.
pub fn player_number_to_identifier(player: usize) -> (text: &'static str)
    requires
        player < 2,
    ensures
        text@ == identifier_text(player as int),
{
    if player == 0 {
        "You"
    } else {
        "Opponent"
    }
}

/// The log line for a step of a turn of the player with the given number,
/// counted from one.
pub open spec fn action_message_text(number: nat, action: Action) -> Seq<char> {
    let player = "Player "@ + decimal_text(number);
    match action {
        Action::Draw => player + " Draws..."@,
        Action::Stand => player + " Stands..."@,
        Action::Play => player + " Plays..."@,
        Action::TurnStart => "Starting "@ + player + "'s Turn..."@,
        Action::EndTurn => "Ending "@ + player + "'s Turn..."@,
    }
}

/// The log line for a step of a turn. Sides are numbered from zero and
/// shown from one.
pub fn get_action_message(player: usize, action: Action) -> (text: String)
    requires
        player < usize::MAX,
    ensures
        text@ == action_message_text((player + 1) as nat, action),
{
    let number = decimal(player as u128 + 1);
    let mut player_str = String::from_str("Player ");
    player_str.append(number.as_str());
    match action {
        Action::Draw => {
            player_str.append(" Draws...");
            player_str
        },
        Action::Stand => {
            player_str.append(" Stands...");
            player_str
        },
        Action::Play => {
            player_str.append(" Plays...");
            player_str
        },
        Action::TurnStart => {
            let mut text = String::from_str("Starting ");
            text.append(player_str.as_str());
            text.append("'s Turn...");
            text
        },
        Action::EndTurn => {
            let mut text = String::from_str("Ending ");
            text.append(player_str.as_str());
            text.append("'s Turn...");
            text
        },
    }
}

} // verus!
