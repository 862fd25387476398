//! Cards written as text: `-3` is a plain card, `+1/-1` a card that offers
//! two values, `2&4` an inverting card, `D` the card that takes the value of
//! the card before it, and `+1/-1T` a tie-breaker. The patterns are matched
//! by the `regex` crate.

use crate::cards::{Card, CardView, SpecialType};
use crate::util::{CARD_REGEX, DOUBLE_REGEX, FLIP_REGEX, SWAP_REGEX, TIEBREAKER_REGEX};
use regex::Regex;
use vstd::prelude::*;
use vstd::string::StrSliceExecFns;

verus! {

/// The error of the `regex` crate for a pattern it does not accept,
/// `regex::Error`. Nothing is known of what it holds.
#[verifier::external_type_specification]
#[verifier::external_body]
pub struct ExRegexError(regex::Error);

/// What the `regex` crate finds when it searches a text for a pattern: an
/// error for a pattern it does not accept; nothing where the pattern does
/// not match; else the capture groups of the leftmost match, where group
/// zero is the whole match and a group that took no part in it is absent.
pub uninterp spec fn regex_captures(pattern: Seq<char>, text: Seq<char>) -> Result<
    Option<Seq<Option<Seq<char>>>>,
    (),
>;

/// The capture groups as sequences of characters.
pub open spec fn group_views(groups: Seq<Option<String>>) -> Seq<Option<Seq<char>>> {
    Seq::new(
        groups.len(),
        |i: int|
            match groups[i] {
                Some(group) => Some(group@),
                None => None,
            },
    )
}

/// `Regex::new` on the pattern, then `Regex::captures` on the text, with the
/// groups that `Captures::iter` yields copied out as strings. The outcome is
/// the one that [`regex_captures`] names for this pattern and this text.
#[verifier::external_body]
fn capture_groups(pattern: &str, text: &str) -> (outcome: Result<
    Option<Vec<Option<String>>>,
    regex::Error,
>)
    ensures
        regex_captures(pattern@, text@) == (match outcome {
            Ok(Some(groups)) => Ok::<Option<Seq<Option<Seq<char>>>>, ()>(
                Some(group_views(groups@)),
            ),
            Ok(None) => Ok(None),
            Err(_) => Err(()),
        }),
{
    let regex = Regex::new(pattern)?;
    Ok(
        regex.captures(text).map(
            |found| found.iter().map(|group| group.map(|part| part.as_str().to_string())).collect(),
        ),
    )
}

/// Whether the character is a decimal digit of the ASCII range.
pub open spec fn is_digit(c: char) -> bool {
    '0' as u32 <= c as u32 <= '9' as u32
}

/// The number that a sequence of digits stands for.
pub open spec fn digits_number(digits: Seq<char>) -> int
    decreases digits.len(),
{
    if digits.len() == 0 {
        0
    } else {
        digits_number(digits.drop_last()) * 10 + (digits.last() as u32 - '0' as u32)
    }
}

/// Whether the text is one digit or more, and nothing else.
pub open spec fn all_digits(text: Seq<char>) -> bool {
    text.len() >= 1 && forall|i: int| 0 <= i < text.len() ==> is_digit(#[trigger] text[i])
}

/// The whole number that a text stands for: digits, with or without a sign
/// before them. Any other text stands for no number.
pub open spec fn number_of_text(text: Seq<char>) -> Option<int> {
    if text.len() > 0 && (text[0] == '+' || text[0] == '-') {
        if all_digits(text.skip(1)) {
            if text[0] == '-' {
                Some(-digits_number(text.skip(1)))
            } else {
                Some(digits_number(text.skip(1)))
            }
        } else {
            None
        }
    } else if all_digits(text) {
        Some(digits_number(text))
    } else {
        None
    }
}

/// The card value that a text stands for: a number from -127 to 127.
pub open spec fn value_of_text(text: Seq<char>) -> Option<i8> {
    match number_of_text(text) {
        Some(number) => if -127 <= number <= 127 {
            Some(number as i8)
        } else {
            None
        },
        None => None,
    }
}

/// The number that digits stand for does not shrink when a digit is added.
proof fn lemma_digits_number_step(digits: Seq<char>, count: int)
    requires
        0 <= count < digits.len(),
        is_digit(digits[count]),
    ensures
        digits_number(digits.take(count + 1)) == digits_number(digits.take(count)) * 10 + (
        digits[count] as u32 - '0' as u32),
{
    assert(digits.take(count + 1).drop_last() =~= digits.take(count));
}

/// Reads the digits of a text from the given place to the end. Gives the
/// number they stand for, or 1000 if that number is larger; nothing if the
/// text has no character from that place on, or one that is no digit.
fn parse_digits(text: &str, from: usize) -> (number: Option<u32>)
    requires
        from <= text@.len(),
    ensures
        number is Some <==> all_digits(text@.skip(from as int)),
        number matches Some(n) ==> n == (if digits_number(text@.skip(from as int)) > 1000 {
            1000
        } else {
            digits_number(text@.skip(from as int))
        }),
{
    let length = text.unicode_len();
    if from >= length {
        return None;
    }
    let ghost digits = text@.skip(from as int);
    let mut number: u32 = 0;
    let mut i = from;
    assert(digits.take(0) =~= Seq::<char>::empty());
    while i < length
        invariant
            from <= i <= length,
            length == text@.len(),
            digits == text@.skip(from as int),
            forall|j: int| 0 <= j < i - from ==> is_digit(#[trigger] digits[j]),
            0 <= digits_number(digits.take(i - from)),
            number == (if digits_number(digits.take(i - from)) > 1000 {
                1000
            } else {
                digits_number(digits.take(i - from))
            }),
        decreases length - i,
    {
        let c = text.get_char(i);
        assert(c == digits[i - from]);
        let code = c as u32;
        if code < '0' as u32 || code > '9' as u32 {
            return None;
        }
        proof {
            lemma_digits_number_step(digits, i - from);
        }
        number = number * 10 + (code - '0' as u32);
        if number > 1000 {
            number = 1000;
        }
        i += 1;
    }
    assert(digits.take(i - from) =~= digits);
    Some(number)
}

/// Reads a card value: see [`value_of_text`].
pub fn parse_value(text: &str) -> (value: Option<i8>)
    ensures
        value == value_of_text(text@),
{
    let length = text.unicode_len();
    if length == 0 {
        return None;
    }
    let first = text.get_char(0);
    let signed = first == '+' || first == '-';
    let digits = if signed {
        parse_digits(text, 1)
    } else {
        assert(text@.skip(0) =~= text@);
        parse_digits(text, 0)
    };
    match digits {
        Some(number) => {
            if number > 127 {
                None
            } else if first == '-' {
                Some(-(number as i8))
            } else {
                Some(number as i8)
            }
        },
        None => None,
    }
}


/// The card values that the capture groups after group zero stand for, in
/// order. There are none if a group is absent or stands for no card value.
pub open spec fn values_of_groups(groups: Seq<Option<Seq<char>>>) -> Option<Seq<i8>>
    decreases groups.len(),
{
    if groups.len() <= 1 {
        Some(Seq::empty())
    } else {
        match (values_of_groups(groups.drop_last()), groups.last()) {
            (Some(values), Some(group)) => match value_of_text(group) {
                Some(value) => Some(values.push(value)),
                None => None,
            },
            _ => None,
        }
    }
}

/// The card of the given kind that capture groups stand for. The card that
/// takes the value of the card before it needs no group. A plain card takes
/// its value from group one. A card of another kind offers the values of
/// all groups after group zero, of which there must be one at least, and
/// counts for nothing until a value is chosen.
pub open spec fn card_of_groups(kind: SpecialType, groups: Seq<Option<Seq<char>>>) -> Option<
    CardView,
> {
    match kind {
        SpecialType::Double => Some(CardView { values: seq![0i8], value: 0, kind }),
        SpecialType::Plain => if groups.len() >= 2 && groups[1] is Some {
            match value_of_text(groups[1].unwrap()) {
                Some(value) => Some(CardView::plain(value)),
                None => None,
            }
        } else {
            None
        },
        _ => match values_of_groups(groups) {
            Some(values) => if values.len() >= 1 {
                Some(CardView { values, value: 0, kind })
            } else {
                None
            },
            None => None,
        },
    }
}

/// What a pattern makes of a text: nothing where the pattern does not match
/// or is not accepted; else the card, if any, that the groups of the match
/// stand for.
pub open spec fn card_by_pattern(kind: SpecialType, pattern: Seq<char>, text: Seq<char>) -> Option<
    Option<CardView>,
> {
    match regex_captures(pattern, text) {
        Ok(Some(groups)) => Some(card_of_groups(kind, groups)),
        _ => None,
    }
}

/// The card that a text stands for. The patterns are tried in a fixed
/// order: tie-breaker, two values, inverting, the card that takes the value
/// of the card before it, plain. The first that matches decides.
pub open spec fn card_of_text(text: Seq<char>) -> Option<CardView> {
    match card_by_pattern(SpecialType::TieBreaker, TIEBREAKER_REGEX@, text) {
        Some(card) => card,
        None => match card_by_pattern(SpecialType::Flip, FLIP_REGEX@, text) {
            Some(card) => card,
            None => match card_by_pattern(SpecialType::Invert, SWAP_REGEX@, text) {
                Some(card) => card,
                None => match card_by_pattern(SpecialType::Double, DOUBLE_REGEX@, text) {
                    Some(card) => card,
                    None => match card_by_pattern(SpecialType::Plain, CARD_REGEX@, text) {
                        Some(card) => card,
                        None => None,
                    },
                },
            },
        },
    }
}

/// The values of one prefix of the groups extend those of a shorter one.
proof fn lemma_values_of_groups_step(groups: Seq<Option<Seq<char>>>, count: int)
    requires
        1 <= count < groups.len(),
    ensures
        values_of_groups(groups.take(count + 1)) == (match (
            values_of_groups(groups.take(count)),
            groups[count],
        ) {
            (Some(values), Some(group)) => match value_of_text(group) {
                Some(value) => Some(values.push(value)),
                None => None,
            },
            _ => None,
        }),
{
    assert(groups.take(count + 1).drop_last() =~= groups.take(count));
}

/// Once the values of a prefix of the groups are missing, so are those of
/// all the groups.
proof fn lemma_values_of_groups_none(groups: Seq<Option<Seq<char>>>, count: int)
    requires
        0 <= count <= groups.len(),
        values_of_groups(groups.take(count)) is None,
    ensures
        values_of_groups(groups) is None,
    decreases groups.len() - count,
{
    if count < groups.len() {
        if count >= 1 {
            lemma_values_of_groups_step(groups, count);
        } else {
            assert(groups.take(0).len() == 0);
        }
        lemma_values_of_groups_none(groups, count + 1);
    } else {
        assert(groups.take(count) =~= groups);
    }
}

impl Card {
    /// The card values that the capture groups after group zero stand for.
    fn values_from_groups(groups: &Vec<Option<String>>) -> (values: Option<Vec<i8>>)
        ensures
            values is Some <==> values_of_groups(group_views(groups@)) is Some,
            values matches Some(list) ==> Some(list@) == values_of_groups(group_views(groups@)),
    {
        let ghost views = group_views(groups@);
        let mut values: Vec<i8> = Vec::new();
        if groups.len() <= 1 {
            assert(values@ =~= Seq::<i8>::empty());
            return Some(values);
        }
        let mut i: usize = 1;
        assert(values@ =~= Seq::<i8>::empty());
        while i < groups.len()
            invariant
                1 <= i <= groups.len(),
                views == group_views(groups@),
                values_of_groups(views.take(i as int)) == Some(values@),
            decreases groups.len() - i,
        {
            proof {
                lemma_values_of_groups_step(views, i as int);
            }
            let parsed = match &groups[i] {
                Some(group) => parse_value(group.as_str()),
                None => None,
            };
            match parsed {
                Some(value) => {
                    values.push(value);
                },
                None => {
                    proof {
                        lemma_values_of_groups_none(views, i + 1);
                    }
                    return None;
                },
            }
            i += 1;
        }
        assert(views.take(i as int) =~= views);
        Some(values)
    }

    /// The card of the given kind that capture groups stand for: see
    /// [`card_of_groups`].
    pub fn from_groups(kind: SpecialType, groups: &Vec<Option<String>>) -> (card: Option<Card>)
        ensures
            card is Some <==> card_of_groups(kind, group_views(groups@)) is Some,
            card matches Some(made) ==> Some(made@) == card_of_groups(kind, group_views(groups@))
                && made.wf(),
    {
        match kind {
            SpecialType::Double => {
                let mut values_list: Vec<i8> = Vec::new();
                values_list.push(0);
                assert(values_list@ =~= seq![0i8]);
                Some(Card { values_list, value: 0, special_type: kind })
            },
            SpecialType::Plain => {
                if groups.len() < 2 {
                    return None;
                }
                match &groups[1] {
                    Some(group) => match parse_value(group.as_str()) {
                        Some(value) => Some(Card::new(value)),
                        None => None,
                    },
                    None => None,
                }
            },
            _ => match Card::values_from_groups(groups) {
                Some(values_list) => {
                    if values_list.len() == 0 {
                        return None;
                    }
                    proof {
                        lemma_values_in_range(group_views(groups@));
                    }
                    Some(Card { values_list, value: 0, special_type: kind })
                },
                None => None,
            },
        }
    }

    /// What one pattern makes of a text: see [`card_by_pattern`].
    fn from_pattern(kind: SpecialType, pattern: &str, card_string: &str) -> (found: Option<
        Option<Card>,
    >)
        ensures
            found is Some <==> card_by_pattern(kind, pattern@, card_string@) is Some,
            found matches Some(card) ==> {
                &&& card is Some <==> card_by_pattern(kind, pattern@, card_string@).unwrap() is Some
                &&& card matches Some(made) ==> Some(made@) == card_by_pattern(
                    kind,
                    pattern@,
                    card_string@,
                ).unwrap() && made.wf()
            },
    {
        match capture_groups(pattern, card_string) {
            Ok(Some(groups)) => Some(Card::from_groups(kind, &groups)),
            _ => None,
        }
    }

    /// Reads a card from its text: see [`card_of_text`]. A text that stands
    /// for no card gives nothing.
    pub fn from_string(card_string: &str) -> (card: Option<Card>)
        ensures
            card is Some <==> card_of_text(card_string@) is Some,
            card matches Some(made) ==> Some(made@) == card_of_text(card_string@) && made.wf(),
    {
        if let Some(card) = Card::from_pattern(
            SpecialType::TieBreaker,
            TIEBREAKER_REGEX,
            card_string,
        ) {
            return card;
        }
        if let Some(card) = Card::from_pattern(SpecialType::Flip, FLIP_REGEX, card_string) {
            return card;
        }
        if let Some(card) = Card::from_pattern(SpecialType::Invert, SWAP_REGEX, card_string) {
            return card;
        }
        if let Some(card) = Card::from_pattern(SpecialType::Double, DOUBLE_REGEX, card_string) {
            return card;
        }
        if let Some(card) = Card::from_pattern(SpecialType::Plain, CARD_REGEX, card_string) {
            return card;
        }
        None
    }
}

/// The values that groups stand for can all be negated.
proof fn lemma_values_in_range(groups: Seq<Option<Seq<char>>>)
    requires
        values_of_groups(groups) is Some,
    ensures
        forall|i: int|
            0 <= i < values_of_groups(groups).unwrap().len() ==> values_of_groups(
                groups,
            ).unwrap()[i] > i8::MIN,
    decreases groups.len(),
{
    if groups.len() > 1 {
        lemma_values_in_range(groups.drop_last());
    }
}

} // verus!
