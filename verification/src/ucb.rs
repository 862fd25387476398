//! Upper confidence bounds: how the search weighs the mean score of a move
//! against how rarely it has been tried.
//!
//! A bound is the mean score of a node plus a bonus for exploring it. The
//! bonus depends on how often the node and its parent were visited, and is
//! read from a table that the caller supplies in fixed point. A node that
//! was never visited has an infinite bound.

use vstd::prelude::*;

verus! {

/// The number of bonus units that make one point of score.
pub const UCB_SCALE: u32 = 1_000_000;

/// The exploration bonus for each count of visits to a parent and to a child,
/// in units of [`UCB_SCALE`] to the point. Row `p` belongs to a parent
/// visited `p` times; its entry `c` belongs to a child visited `c` times.
/// Counts the table does not reach have no bonus.
#[derive(Debug)]
pub struct Exploration {
    pub rows: Vec<Vec<u32>>,
}

impl View for Exploration {
    type V = Seq<Seq<u32>>;

    open spec fn view(&self) -> Seq<Seq<u32>> {
        Seq::new(self.rows@.len(), |i: int| self.rows@[i]@)
    }
}

/// The bonus a table gives a child visited `visits` times under a parent
/// visited `parent_visits` times.
pub open spec fn bonus_of(table: Seq<Seq<u32>>, parent_visits: int, visits: int) -> int {
    if 0 <= parent_visits < table.len() && 0 <= visits < table[parent_visits].len() {
        table[parent_visits][visits] as int
    } else {
        0
    }
}

impl Exploration {
    /// A table without entries: no node gets a bonus.
    pub fn none() -> (table: Exploration)
        ensures
            table@ == Seq::<Seq<u32>>::empty(),
    {
        let table = Exploration { rows: Vec::new() };
        assert(table@ =~= Seq::<Seq<u32>>::empty());
        table
    }

    /// The bonus for a child visited `visits` times under a parent visited
    /// `parent_visits` times.
    pub fn bonus(&self, parent_visits: u32, visits: u32) -> (bonus: u32)
        ensures
            bonus == bonus_of(self@, parent_visits as int, visits as int),
    {
        let row = parent_visits as usize;
        let column = visits as usize;
        if row < self.rows.len() {
            if column < self.rows[row].len() {
                return self.rows[row][column];
            }
        }
        0
    }
}

/// An upper confidence bound. A visited node's bound is a fraction: the
/// numerator over the product of its visits and [`UCB_SCALE`].
#[derive(Clone, Copy, Debug)]
pub enum UcbScore {
    /// The bound of a node never visited: above every other.
    Unvisited,
    /// The bound of a node visited at least once.
    Visited { numerator: i128, visits: u32 },
}

/// The bound of a node with the given accumulated score and visits, under
/// the given bonus: infinite without visits, else the score over the visits
/// plus the bonus.
pub open spec fn ucb_of(win_score: int, visits: int, bonus: int) -> UcbScore {
    if visits < 1 {
        UcbScore::Unvisited
    } else {
        UcbScore::Visited {
            numerator: (win_score * UCB_SCALE + bonus * visits) as i128,
            visits: visits as u32,
        }
    }
}

impl UcbScore {
    /// A visited node has a visit, and its numerator is small enough to be
    /// compared with another by cross-multiplication.
    pub open spec fn wf(self) -> bool {
        self matches UcbScore::Visited { numerator, visits } ==> visits >= 1
            && -0x400_0000_0000_0000_0000_0000 <= numerator <= 0x400_0000_0000_0000_0000_0000
    }

    /// Whether this bound is strictly below the other. Fractions are compared
    /// exactly; the infinite bound is below nothing and above every fraction.
    pub open spec fn below(self, other: UcbScore) -> bool {
        match (self, other) {
            (UcbScore::Unvisited, _) => false,
            (UcbScore::Visited { .. }, UcbScore::Unvisited) => true,
            (
                UcbScore::Visited { numerator: a, visits: m },
                UcbScore::Visited { numerator: b, visits: n },
            ) => a * n < b * m,
        }
    }

    /// Whether this bound is strictly below the other.
    pub fn is_below(&self, other: &UcbScore) -> (less: bool)
        requires
            self.wf(),
            other.wf(),
        ensures
            less == self.below(*other),
    {
        match (self, other) {
            (UcbScore::Unvisited, _) => false,
            (UcbScore::Visited { .. }, UcbScore::Unvisited) => true,
            (
                UcbScore::Visited { numerator: a, visits: m },
                UcbScore::Visited { numerator: b, visits: n },
            ) => {
                let left: i128 = *n as i128;
                let right: i128 = *m as i128;
                assert(-0x400_0000_0000_0000_0000_0000_0000_0000 <= *a * left
                    <= 0x400_0000_0000_0000_0000_0000_0000_0000) by (nonlinear_arith)
                    requires
                        -0x400_0000_0000_0000_0000_0000 <= *a <= 0x400_0000_0000_0000_0000_0000,
                        0 <= left <= 0xffff_ffff,
                ;
                assert(-0x400_0000_0000_0000_0000_0000_0000_0000 <= *b * right
                    <= 0x400_0000_0000_0000_0000_0000_0000_0000) by (nonlinear_arith)
                    requires
                        -0x400_0000_0000_0000_0000_0000 <= *b <= 0x400_0000_0000_0000_0000_0000,
                        0 <= right <= 0xffff_ffff,
                ;
                *a * left < *b * right
            },
        }
    }
}

/// The upper confidence bound of a node: see [`ucb_of`]. The bonus is the
/// one the table gives for the node's visits under its parent's.
pub fn calculate_ucb_score(
    win_score: i64,
    visits: u32,
    parent_visits: u32,
    exploration: &Exploration,
) -> (bound: UcbScore)
    ensures
        bound == ucb_of(
            win_score as int,
            visits as int,
            bonus_of(exploration@, parent_visits as int, visits as int),
        ),
        bound.wf(),
{
    if visits < 1 {
        return UcbScore::Unvisited;
    }
    let bonus = exploration.bonus(parent_visits, visits);
    let mean: i128 = win_score as i128 * UCB_SCALE as i128;
    assert(0 <= bonus * visits <= 0xffff_ffff * 0xffff_ffff) by (nonlinear_arith)
        requires
            0 <= bonus <= 0xffff_ffff,
            0 <= visits <= 0xffff_ffff,
    ;
    let extra: i128 = bonus as i128 * visits as i128;
    UcbScore::Visited { numerator: mean + extra, visits }
}

/// A bound that is not below a second, which is below a third, is below the
/// third.
pub proof fn lemma_below_chain(first: UcbScore, second: UcbScore, third: UcbScore)
    requires
        first.wf(),
        second.wf(),
        third.wf(),
        !second.below(first),
        second.below(third),
    ensures
        first.below(third),
{
    if let UcbScore::Visited { numerator: a, visits: m } = first {
        if let UcbScore::Visited { numerator: b, visits: n } = second {
            if let UcbScore::Visited { numerator: c, visits: k } = third {
                assert(a * k < c * m) by (nonlinear_arith)
                    requires
                        a * n <= b * m,
                        b * k < c * n,
                        m >= 1,
                        n >= 1,
                        k >= 1,
                ;
            }
        }
    }
}

/// A node that was never visited has a bound above that of every visited
/// node, whatever the bonuses.
pub proof fn lemma_unvisited_first(
    win_score: int,
    visits: int,
    bonus: int,
    other_score: int,
    other_bonus: int,
)
    requires
        visits >= 1,
    ensures
        ucb_of(win_score, visits, bonus).below(ucb_of(other_score, 0, other_bonus)),
        !ucb_of(other_score, 0, other_bonus).below(ucb_of(win_score, visits, bonus)),
{
}

} // verus!
