//! A two-player card game in the blackjack family, played to a target total of
//! twenty, together with a tree-search engine that recommends moves.
//!
//! Every executable function in this crate carries a contract over the
//! mathematical views of the data it touches, and every contract is proved.
//!
//! - [`cards`]: cards, boards, hands, decks, rounds and matches, and who wins.
//! - [`simulator`]: the moves open to a side, and what each move does.
//! - [`ucb`]: upper confidence bounds, compared exactly.
//! - [`tree`]: the search tree, with selection, expansion, rollout and
//!   backpropagation.
//! - [`ai`]: the recommendation of a move.
//! - [`turn`]: the steps of a turn of a match.
//! - [`parse`], [`deck_file`]: cards and decks read from text.
//! - [`render`], [`text`], [`util`]: cards, numbers and messages as text.
//! - [`random`]: the random choices, drawn from the `rand` crate.

pub mod ai;
pub mod cards;
pub mod deck_file;
pub mod parse;
pub mod random;
pub mod render;
pub mod simulator;
pub mod text;
pub mod tree;
pub mod turn;
pub mod ucb;
pub mod util;
