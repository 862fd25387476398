//! The search tree: an arena of nodes, each a round and a hand reached from
//! the root by a sequence of moves, with the visits and the score the search
//! has credited to it.
//!
//! Nodes are addressed by their place in the arena. A node's children are
//! made together and lie side by side, after every node that was there
//! before; so a parent always comes before its children, and the root is
//! node zero.

use crate::cards::{all_wf, same_cards, CardView, Hand, Status};
use crate::random::RandomSource;
use crate::simulator::{
    action_views, after_action, after_actions, all_legal, apply_action, legal_actions,
    legal_moves, lemma_after_action_wf, lemma_legal_actions_are_the_legal_ones,
    lemma_legal_actions_count, ActionView,
    NodeAction, RoundState, RoundView,
};
use crate::ucb::{bonus_of, calculate_ucb_score, lemma_below_chain, ucb_of, Exploration, UcbScore};
use vstd::prelude::*;

verus! {

/// What a won round adds to a rollout's value, and a lost round takes from it.
pub const WIN_REWARD: i32 = 5;

/// The mathematical content of a [`Node`].
pub struct NodeView {
    pub state: RoundView,
    pub hand: Seq<CardView>,
    pub parent: Option<usize>,
    pub action: Option<ActionView>,
    pub first_child: usize,
    pub child_count: usize,
    pub visit: u32,
    pub score: i64,
}

/// A node of the search tree.
#[derive(Debug)]
pub struct Node {
    /// The round at this node.
    pub state: RoundState,
    /// The hand of the side to act at this node.
    pub hand: Hand,
    /// The node this one was made from; the root has none.
    pub parent: Option<usize>,
    /// The move that made this node from its parent; the root has none.
    pub action: Option<NodeAction>,
    /// The place of the first child, if there are children.
    pub first_child: usize,
    /// The number of children.
    pub child_count: usize,
    /// How often the search has passed through this node.
    pub visit: u32,
    /// The sum of the rewards of those passes.
    pub score: i64,
}

impl View for Node {
    type V = NodeView;

    open spec fn view(&self) -> NodeView {
        NodeView {
            state: self.state@,
            hand: self.hand@,
            parent: self.parent,
            action: match self.action {
                Some(action) => Some(action@),
                None => None,
            },
            first_child: self.first_child,
            child_count: self.child_count,
            visit: self.visit,
            score: self.score,
        }
    }
}

impl Node {
    /// Whether two nodes stand for the same position: the same round and the
    /// same hand, wherever the nodes are in the tree and however often they
    /// were visited.
    pub fn same_position(&self, other: &Node) -> (same: bool)
        ensures
            same == (self@.state == other@.state && self@.hand == other@.hand),
    {
        self.state.same_as(&other.state) && same_cards(&self.hand.cards, &other.hand.cards)
    }
}

/// The mathematical content of a [`SearchTree`].
pub struct TreeView {
    pub nodes: Seq<NodeView>,
    pub side: usize,
    pub target: i8,
}

/// The search tree for one decision of one side.
#[derive(Debug)]
pub struct SearchTree {
    nodes: Vec<Node>,
    side: usize,
    target: i8,
}

impl View for SearchTree {
    type V = TreeView;

    closed spec fn view(&self) -> TreeView {
        TreeView {
            nodes: Seq::new(self.nodes@.len(), |i: int| self.nodes@[i]@),
            side: self.side,
            target: self.target,
        }
    }
}

impl TreeView {
    /// Whether the node has no children.
    pub open spec fn is_leaf(self, node: int) -> bool {
        self.nodes[node].child_count == 0
    }

    /// Whether `child` is one of the children of `parent`.
    pub open spec fn is_child_of(self, child: int, parent: int) -> bool {
        &&& 0 <= parent < child < self.nodes.len()
        &&& self.nodes[parent].first_child <= child < self.nodes[parent].first_child
            + self.nodes[parent].child_count
    }

    /// The moves open to the side to act at the node.
    pub open spec fn moves(self, node: int) -> Seq<ActionView> {
        legal_actions(self.nodes[node].state, self.nodes[node].hand, self.side as int)
    }

    /// The round and hand that the `k`-th move open at the node leads to.
    pub open spec fn made(self, node: int, k: int) -> (RoundView, Seq<CardView>) {
        after_action(
            self.nodes[node].state,
            self.nodes[node].hand,
            self.side as int,
            self.moves(node)[k],
            self.target as int,
        )
    }

    /// The `k`-th child of the node is what the `k`-th move open at the node
    /// makes of the node's round and hand.
    pub open spec fn child_made(self, node: int, k: int) -> bool {
        let child = self.nodes[self.nodes[node].first_child + k];
        &&& child.parent == Some(node as usize)
        &&& child.action == Some(self.moves(node)[k])
        &&& child.state == self.made(node, k).0
        &&& child.hand == self.made(node, k).1
    }

    /// What must hold of each node: its round and hand are well formed; it
    /// is the root or a child of its parent; its children, if it has any,
    /// come after it, one for each move open at it; it was visited no more often
    /// than the root; and its score is within what its visits allow.
    pub open spec fn node_wf(self, i: int) -> bool {
        let node = self.nodes[i];
        &&& node.state.wf()
        &&& all_wf(node.hand)
        &&& if i == 0 {
            node.parent is None && node.action is None
        } else {
            node.parent is Some && node.action is Some && self.is_child_of(
                i,
                node.parent.unwrap() as int,
            )
        }
        &&& node.child_count > 0 ==> {
            &&& i < node.first_child
            &&& node.first_child + node.child_count <= self.nodes.len()
            &&& node.child_count == self.moves(i).len()
            &&& forall|k: int| 0 <= k < node.child_count ==> #[trigger] self.child_made(i, k)
        }
        &&& node.visit <= self.nodes[0].visit
        &&& -0x8000_0000 * node.visit <= node.score <= 0x8000_0000 * node.visit
    }

    /// The tree has a root, knows its side, and every node is as
    /// [`TreeView::node_wf`] says.
    pub open spec fn wf(self) -> bool {
        &&& self.nodes.len() >= 1
        &&& self.side < 2
        &&& forall|i: int| 0 <= i < self.nodes.len() ==> #[trigger] self.node_wf(i)
    }

    /// A child as it is when it is made: the round and hand that the `k`-th
    /// move open at its parent leads to, no children, no visits, no score.
    pub open spec fn fresh_child(self, parent: int, k: int) -> NodeView {
        NodeView {
            state: self.made(parent, k).0,
            hand: self.made(parent, k).1,
            parent: Some(parent as usize),
            action: Some(self.moves(parent)[k]),
            first_child: 0,
            child_count: 0,
            visit: 0,
            score: 0,
        }
    }

    /// The tree after the node was expanded: one fresh child for each move
    /// open at the node, in the order of the moves, at the end of the arena.
    /// Where no move is open the tree stays as it is.
    pub open spec fn expanded(self, node: int) -> TreeView {
        let moves = self.moves(node);
        if moves.len() == 0 {
            self
        } else {
            TreeView {
                nodes: self.nodes.update(
                    node,
                    NodeView {
                        first_child: self.nodes.len() as usize,
                        child_count: moves.len() as usize,
                        ..self.nodes[node]
                    },
                ) + Seq::new(moves.len(), |k: int| self.fresh_child(node, k)),
                ..self
            }
        }
    }
}

/// Expanding a leaf of a well-formed tree leaves the tree well formed.
pub proof fn lemma_expanded_wf(tree: TreeView, node: int)
    requires
        tree.wf(),
        0 <= node < tree.nodes.len(),
        tree.is_leaf(node),
        tree.nodes.len() + tree.moves(node).len() <= usize::MAX,
    ensures
        tree.expanded(node).wf(),
{
    let grown = tree.expanded(node);
    let moves = tree.moves(node);
    let old_len = tree.nodes.len() as int;
    if moves.len() > 0 {
        assert(tree.node_wf(node));
        assert(tree.node_wf(0));
        assert forall|i: int| 0 <= i < grown.nodes.len() implies #[trigger] grown.node_wf(i) by {
            if i < old_len {
                assert(tree.node_wf(i));
                let before = tree.nodes[i];
                let after = grown.nodes[i];
                assert(after.state == before.state && after.hand == before.hand);
                assert(grown.moves(i) == tree.moves(i));
                if i != 0 {
                    let parent = before.parent.unwrap() as int;
                    assert(parent != node);
                    assert(grown.nodes[parent].first_child == tree.nodes[parent].first_child);
                }
                if i == node {
                    assert forall|k: int| 0 <= k < after.child_count implies #[trigger] grown.child_made(
                        i,
                        k,
                    ) by {
                        assert(grown.nodes[old_len + k] == tree.fresh_child(node, k));
                        assert(grown.made(i, k) == tree.made(i, k));
                    }
                } else if before.child_count > 0 {
                    assert forall|k: int| 0 <= k < after.child_count implies #[trigger] grown.child_made(
                        i,
                        k,
                    ) by {
                        assert(tree.child_made(i, k));
                        let child = before.first_child + k;
                        assert(grown.nodes[child].parent == tree.nodes[child].parent);
                        assert(grown.made(i, k) == tree.made(i, k));
                    }
                }
            } else {
                let k = i - old_len;
                assert(grown.nodes[i] == tree.fresh_child(node, k));
                assert(moves.contains(moves[k]));
                lemma_legal_actions_are_the_legal_ones(
                    tree.nodes[node].state,
                    tree.nodes[node].hand,
                    tree.side as int,
                    moves[k],
                );
                lemma_after_action_wf(
                    tree.nodes[node].state,
                    tree.nodes[node].hand,
                    tree.side as int,
                    moves[k],
                    tree.target as int,
                );
            }
        }
    }
}

impl SearchTree {
    /// See [`TreeView::wf`].
    pub open spec fn wf(&self) -> bool {
        self@.wf()
    }

    /// A tree of one node, the root, for the given round and hand, for the
    /// side that is to decide, and for the given target total.
    pub fn new(state: RoundState, hand: Hand, side: usize, target: i8) -> (tree: SearchTree)
        requires
            state.wf(),
            hand.wf(),
            side < 2,
        ensures
            tree.wf(),
            tree@.balanced(),
            tree@ == TreeView::root_only(state@, hand@, side, target),
    {
        let mut nodes: Vec<Node> = Vec::new();
        nodes.push(
            Node {
                state,
                hand,
                parent: None,
                action: None,
                first_child: 0,
                child_count: 0,
                visit: 0,
                score: 0,
            },
        );
        let tree = SearchTree { nodes, side, target };
        assert(tree@.nodes =~= seq![
            NodeView {
                state: state@,
                hand: hand@,
                parent: None,
                action: None,
                first_child: 0,
                child_count: 0,
                visit: 0,
                score: 0,
            },
        ]);
        assert(tree@.node_wf(0));
        tree
    }

    /// The number of nodes.
    pub fn len(&self) -> (count: usize)
        ensures
            count == self@.nodes.len(),
    {
        self.nodes.len()
    }

    /// The side that is to decide.
    pub fn side(&self) -> (side: usize)
        ensures
            side == self@.side,
    {
        self.side
    }

    /// The target total of the round.
    pub fn target(&self) -> (target: i8)
        ensures
            target == self@.target,
    {
        self.target
    }

    /// The node at the given place.
    pub fn node(&self, index: usize) -> (node: &Node)
        requires
            index < self@.nodes.len(),
        ensures
            node@ == self@.nodes[index as int],
    {
        &self.nodes[index]
    }

    /// Whether the node has no children.
    pub fn is_leaf(&self, index: usize) -> (leaf: bool)
        requires
            index < self@.nodes.len(),
        ensures
            leaf == self@.is_leaf(index as int),
    {
        self.nodes[index].child_count == 0
    }

    /// Expands a leaf: makes one child for each move open at it, by making
    /// the move on a copy of the leaf's round and hand. A leaf at which no
    /// move is open stays a leaf.
    pub fn expand(&mut self, node: usize)
        requires
            old(self).wf(),
            node < old(self)@.nodes.len(),
            old(self)@.is_leaf(node as int),
        ensures
            final(self)@ == old(self)@.expanded(node as int),
            final(self).wf(),
    {
        let ghost before = self@;
        assert(before.node_wf(node as int));
        assert(self.nodes@[node as int]@ == before.nodes[node as int]);
        let moves = legal_moves(&self.nodes[node].state, &self.nodes[node].hand, self.side);
        let ghost open = before.moves(node as int);
        assert(action_views(moves@) == open);
        if moves.len() == 0 {
            return;
        }
        let first = self.nodes.len();
        let mut k: usize = 0;
        while k < moves.len()
            invariant
                k <= moves.len(),
                before.wf(),
                node < before.nodes.len(),
                first == before.nodes.len(),
                open == before.moves(node as int),
                action_views(moves@) == open,
                self.side == before.side,
                self.target == before.target,
                self.nodes@.len() == first + k,
                self@.nodes == before.nodes + Seq::new(k as nat, |j: int| before.fresh_child(node as int, j)),
            decreases moves.len() - k,
        {
            let ghost mid = self@.nodes;
            assert(before.node_wf(node as int));
            assert(self@.nodes[node as int] == before.nodes[node as int]);
            assert(open[k as int] == moves@[k as int]@);
            proof {
                assert(open.contains(open[k as int]));
                lemma_legal_actions_are_the_legal_ones(
                    before.nodes[node as int].state,
                    before.nodes[node as int].hand,
                    before.side as int,
                    open[k as int],
                );
            }
            let made = apply_action(
                &self.nodes[node].state,
                &self.nodes[node].hand,
                self.side,
                &moves[k],
                self.target,
            );
            let (state, hand) = made.unwrap();
            self.nodes.push(
                Node {
                    state,
                    hand,
                    parent: Some(node),
                    action: Some(moves[k].clone()),
                    first_child: 0,
                    child_count: 0,
                    visit: 0,
                    score: 0,
                },
            );
            assert(self@.nodes =~= mid.push(before.fresh_child(node as int, k as int)));
            k += 1;
            assert(self@.nodes =~= before.nodes + Seq::new(
                k as nat,
                |j: int| before.fresh_child(node as int, j),
            ));
        }
        let ghost mid = self@.nodes;
        assert(moves@.len() == open.len());
        assert(self.nodes.len() == first + moves.len());
        self.nodes[node].first_child = first;
        self.nodes[node].child_count = moves.len();
        assert(self@.nodes =~= mid.update(
            node as int,
            NodeView {
                first_child: first,
                child_count: moves@.len() as usize,
                ..before.nodes[node as int]
            },
        )) by {
            assert(mid[node as int] == before.nodes[node as int]);
        }
        assert(self@.nodes =~= before.expanded(node as int).nodes);
        proof {
            lemma_expanded_wf(before, node as int);
        }
    }
}


impl TreeView {
    /// The upper confidence bound of a node other than the root, under the
    /// given table of bonuses.
    pub open spec fn ucb(self, child: int, table: Seq<Seq<u32>>) -> UcbScore {
        let node = self.nodes[child];
        let parent = self.nodes[node.parent.unwrap() as int];
        ucb_of(
            node.score as int,
            node.visit as int,
            bonus_of(table, parent.visit as int, node.visit as int),
        )
    }

    /// Whether `child` is the child of `parent` that selection moves to: no
    /// child of `parent` has a higher bound, and every child made before it
    /// has a lower one.
    pub open spec fn is_best_child(self, parent: int, child: int, table: Seq<Seq<u32>>) -> bool {
        &&& self.is_child_of(child, parent)
        &&& forall|other: int|
            self.is_child_of(other, parent) ==> !self.ucb(child, table).below(
                #[trigger] self.ucb(other, table),
            )
        &&& forall|other: int|
            self.is_child_of(other, parent) && other < child ==> (#[trigger] self.ucb(
                other,
                table,
            )).below(self.ucb(child, table))
    }

    /// The child of `parent` that selection moves to.
    pub open spec fn best_child(self, parent: int, table: Seq<Seq<u32>>) -> int {
        choose|child: int| self.is_best_child(parent, child, table)
    }

    /// The leaf that selection reaches from the given node, moving to the
    /// best child until there are no children.
    pub open spec fn selected_from(self, from: int, table: Seq<Seq<u32>>) -> int
        decreases self.nodes.len() - from,
    {
        let next = self.best_child(from, table);
        if 0 <= from < next < self.nodes.len() && !self.is_leaf(from) {
            self.selected_from(next, table)
        } else {
            from
        }
    }

    /// The leaf that selection reaches from the root.
    pub open spec fn selected(self, table: Seq<Seq<u32>>) -> int {
        self.selected_from(0, table)
    }

    /// Whether `ancestor` is `node` or lies on the way from `node` up to the
    /// root.
    pub open spec fn is_ancestor(self, ancestor: int, node: int) -> bool
        decreases node,
    {
        if node == ancestor {
            true
        } else if 0 < node < self.nodes.len() && self.nodes[node].parent is Some
            && self.nodes[node].parent.unwrap() < node {
            self.is_ancestor(ancestor, self.nodes[node].parent.unwrap() as int)
        } else {
            false
        }
    }

    /// The sum of the scores of the nodes on the way from `to` up to `from`,
    /// `to` included and `from` not.
    pub open spec fn path_score(self, from: int, to: int) -> int
        decreases to,
    {
        if to != from && 0 < to < self.nodes.len() && self.nodes[to].parent is Some
            && self.nodes[to].parent.unwrap() < to {
            self.nodes[to].score + self.path_score(from, self.nodes[to].parent.unwrap() as int)
        } else {
            0
        }
    }

    /// What the round at a node is worth to the side that decides: the
    /// reward if it wins the round as the boards stand, its negative if the
    /// other side wins, nothing for a draw.
    pub open spec fn leaf_reward(self, leaf: int) -> int {
        match self.nodes[leaf].state.game.winner_for(self.target as int) {
            Some(winner) => if winner == self.side {
                WIN_REWARD as int
            } else {
                -WIN_REWARD
            },
            None => 0,
        }
    }

    /// The value of a rollout that went from `from` down to `leaf`: the
    /// reward at the leaf plus the scores of the nodes passed on the way.
    pub open spec fn rollout_value(self, from: int, leaf: int) -> int {
        self.leaf_reward(leaf) + self.path_score(from, leaf)
    }

    /// A node after one more pass with the given reward.
    pub open spec fn credited(self, node: int, reward: int) -> NodeView {
        NodeView {
            visit: (self.nodes[node].visit + 1) as u32,
            score: (self.nodes[node].score + reward) as i64,
            ..self.nodes[node]
        }
    }

    /// The tree after a reward was carried from a node up to the root: the
    /// node and each node above it has one more visit and the reward added to
    /// its score; every other node is as it was.
    pub open spec fn backpropagated(self, node: int, reward: int) -> TreeView {
        TreeView {
            nodes: Seq::new(
                self.nodes.len(),
                |i: int|
                    if self.is_ancestor(i, node) {
                        self.credited(i, reward)
                    } else {
                        self.nodes[i]
                    },
            ),
            ..self
        }
    }
}

/// Only one child can be the best child.
pub proof fn lemma_best_child_unique(tree: TreeView, parent: int, child: int, table: Seq<Seq<u32>>)
    requires
        tree.is_best_child(parent, child, table),
    ensures
        tree.best_child(parent, table) == child,
{
    let chosen = tree.best_child(parent, table);
    assert(tree.is_best_child(parent, chosen, table));
    if chosen < child {
        assert(tree.ucb(chosen, table).below(tree.ucb(child, table)));
        assert(!tree.ucb(chosen, table).below(tree.ucb(child, table)));
    } else if child < chosen {
        assert(tree.ucb(child, table).below(tree.ucb(chosen, table)));
        assert(!tree.ucb(child, table).below(tree.ucb(chosen, table)));
    }
}

/// A node does not come after the nodes below it.
pub proof fn lemma_ancestor_first(tree: TreeView, ancestor: int, node: int)
    requires
        tree.is_ancestor(ancestor, node),
    ensures
        ancestor <= node,
    decreases node,
{
    if node != ancestor {
        lemma_ancestor_first(tree, ancestor, tree.nodes[node].parent.unwrap() as int);
    }
}

/// The root is above every node.
pub proof fn lemma_root_is_ancestor(tree: TreeView, node: int)
    requires
        tree.wf(),
        0 <= node < tree.nodes.len(),
    ensures
        tree.is_ancestor(0, node),
    decreases node,
{
    if node != 0 {
        assert(tree.node_wf(node));
        lemma_root_is_ancestor(tree, tree.nodes[node].parent.unwrap() as int);
    }
}

/// The parent of a node above a second node is above the second node too.
pub proof fn lemma_ancestor_parent(tree: TreeView, upper: int, node: int)
    requires
        tree.is_ancestor(upper, node),
        0 < upper < tree.nodes.len(),
        tree.nodes[upper].parent is Some,
        tree.nodes[upper].parent.unwrap() < upper,
    ensures
        tree.is_ancestor(tree.nodes[upper].parent.unwrap() as int, node),
    decreases node,
{
    let parent = tree.nodes[upper].parent.unwrap() as int;
    if node == upper {
        assert(tree.is_ancestor(parent, parent));
    } else {
        lemma_ancestor_parent(tree, upper, tree.nodes[node].parent.unwrap() as int);
    }
}

/// The nodes above a node form a chain: of two of them, the earlier is above
/// the later's parent.
pub proof fn lemma_ancestors_chain(tree: TreeView, upper: int, lower: int, node: int)
    requires
        tree.is_ancestor(upper, node),
        tree.is_ancestor(lower, node),
        upper < lower,
    ensures
        0 < lower < tree.nodes.len(),
        tree.nodes[lower].parent is Some,
        tree.nodes[lower].parent.unwrap() < lower,
        tree.is_ancestor(upper, tree.nodes[lower].parent.unwrap() as int),
    decreases node,
{
    lemma_ancestor_first(tree, lower, node);
    if node != lower {
        lemma_ancestors_chain(tree, upper, lower, tree.nodes[node].parent.unwrap() as int);
    }
}

impl TreeView {
    /// Whether `after` is this tree with a reward carried from `node` up to
    /// the root, said node by node: the node and each node above it, up to
    /// and including the root, has one more visit and the reward added to
    /// its score; every other node has the visits and the score it had; and
    /// every node, on the way or not, has the round, hand, parent, move and
    /// children it had.
    pub open spec fn credits_path(self, after: TreeView, node: int, reward: int) -> bool {
        &&& after.side == self.side
        &&& after.target == self.target
        &&& after.nodes.len() == self.nodes.len()
        &&& forall|i: int|
            0 <= i < self.nodes.len() ==> {
                &&& (#[trigger] after.nodes[i]).visit == self.nodes[i].visit + (if self.is_ancestor(
                    i,
                    node,
                ) {
                    1int
                } else {
                    0int
                })
                &&& after.nodes[i].score == self.nodes[i].score + (if self.is_ancestor(i, node) {
                    reward
                } else {
                    0int
                })
                &&& after.nodes[i].state == self.nodes[i].state
                &&& after.nodes[i].hand == self.nodes[i].hand
                &&& after.nodes[i].parent == self.nodes[i].parent
                &&& after.nodes[i].action == self.nodes[i].action
                &&& after.nodes[i].first_child == self.nodes[i].first_child
                &&& after.nodes[i].child_count == self.nodes[i].child_count
            }
    }
}

/// Backpropagation adds one visit and the reward to every node on the way
/// from the node up to and including the root, and to no other node, and
/// changes nothing else in the tree. The root must have room for one more
/// visit, and the reward must be one that a 32-bit number can hold.
pub proof fn lemma_backpropagation_credits_path(tree: TreeView, node: int, reward: int)
    requires
        tree.wf(),
        0 <= node < tree.nodes.len(),
        tree.nodes[0].visit < u32::MAX,
        -0x8000_0000 <= reward <= 0x8000_0000,
    ensures
        tree.credits_path(tree.backpropagated(node, reward), node, reward),
        tree.is_ancestor(node, node),
        tree.is_ancestor(0, node),
{
    let after = tree.backpropagated(node, reward);
    lemma_root_is_ancestor(tree, node);
    assert(tree.node_wf(0));
    assert forall|i: int| 0 <= i < tree.nodes.len() implies {
        &&& (#[trigger] after.nodes[i]).visit == tree.nodes[i].visit + (if tree.is_ancestor(i, node) {
            1int
        } else {
            0int
        })
        &&& after.nodes[i].score == tree.nodes[i].score + (if tree.is_ancestor(i, node) {
            reward
        } else {
            0int
        })
    } by {
        assert(tree.node_wf(i));
    }
}

/// Carrying a reward up a well-formed tree leaves the tree well formed, as
/// long as the root has room for one more visit.
pub proof fn lemma_backpropagated_wf(tree: TreeView, node: int, reward: int)
    requires
        tree.wf(),
        0 <= node < tree.nodes.len(),
        tree.nodes[0].visit < u32::MAX,
        -0x8000_0000 <= reward <= 0x8000_0000,
    ensures
        tree.backpropagated(node, reward).wf(),
{
    let after = tree.backpropagated(node, reward);
    lemma_root_is_ancestor(tree, node);
    assert(tree.node_wf(0));
    assert forall|i: int| 0 <= i < after.nodes.len() implies #[trigger] after.node_wf(i) by {
        assert(tree.node_wf(i));
        assert(after.moves(i) == tree.moves(i));
        if i != 0 {
            let parent = tree.nodes[i].parent.unwrap() as int;
            assert(after.nodes[parent].first_child == tree.nodes[parent].first_child);
        }
        if tree.nodes[i].child_count > 0 {
            assert forall|k: int| 0 <= k < after.nodes[i].child_count implies #[trigger] after.child_made(
                i,
                k,
            ) by {
                assert(tree.child_made(i, k));
                assert(after.made(i, k) == tree.made(i, k));
            }
        }
    }
}

impl SearchTree {
    /// The child of a node that selection moves to: the one with the
    /// highest upper confidence bound, and among several with the highest
    /// the one made first.
    pub fn best_ucb_score(&self, node: usize, exploration: &Exploration) -> (best: usize)
        requires
            self.wf(),
            node < self@.nodes.len(),
            !self@.is_leaf(node as int),
        ensures
            self@.is_best_child(node as int, best as int, exploration@),
            best == self@.best_child(node as int, exploration@),
    {
        let ghost tree = self@;
        let ghost table = exploration@;
        assert(tree.node_wf(node as int));
        let first = self.nodes[node].first_child;
        let count = self.nodes[node].child_count;
        let parent_visits = self.nodes[node].visit;
        assert(tree.child_made(node as int, 0));
        let mut best = first;
        let mut best_score = calculate_ucb_score(
            self.nodes[first].score,
            self.nodes[first].visit,
            parent_visits,
            exploration,
        );
        let mut k: usize = 1;
        while k < count
            invariant
                1 <= k <= count,
                tree == self@,
                table == exploration@,
                tree.wf(),
                node < tree.nodes.len(),
                first == tree.nodes[node as int].first_child,
                count == tree.nodes[node as int].child_count,
                parent_visits == tree.nodes[node as int].visit,
                first + count <= tree.nodes.len(),
                node < first,
                first <= best < first + k,
                best_score == tree.ucb(best as int, table),
                best_score.wf(),
                forall|other: int|
                    first <= other < first + k ==> !tree.ucb(best as int, table).below(
                        #[trigger] tree.ucb(other, table),
                    ),
                forall|other: int|
                    first <= other < best ==> (#[trigger] tree.ucb(other, table)).below(
                        tree.ucb(best as int, table),
                    ),
                forall|other: int|
                    first <= other < first + k ==> (#[trigger] tree.ucb(other, table)).wf(),
            decreases count - k,
        {
            assert(self.nodes.len() == tree.nodes.len());
            let child = first + k;
            assert(tree.node_wf(node as int));
            assert(tree.child_made(node as int, k as int));
            let score = calculate_ucb_score(
                self.nodes[child].score,
                self.nodes[child].visit,
                parent_visits,
                exploration,
            );
            assert(score == tree.ucb(child as int, table));
            if best_score.is_below(&score) {
                proof {
                    assert forall|other: int| first <= other < child implies (#[trigger] tree.ucb(
                        other,
                        table,
                    )).below(score) by {
                        lemma_below_chain(tree.ucb(other, table), best_score, score);
                    }
                }
                best = child;
                best_score = score;
            }
            k += 1;
        }
        proof {
            lemma_best_child_unique(tree, node as int, best as int, table);
        }
        best
    }

    /// The leaf that selection reaches: from the root, it moves to the best
    /// child until it stands on a node without children.
    pub fn select(&self, exploration: &Exploration) -> (leaf: usize)
        requires
            self.wf(),
        ensures
            leaf == self@.selected(exploration@),
            leaf < self@.nodes.len(),
            self@.is_leaf(leaf as int),
    {
        let mut current: usize = 0;
        while self.nodes[current].child_count > 0
            invariant
                self.wf(),
                current < self@.nodes.len(),
                self@.selected_from(current as int, exploration@) == self@.selected(exploration@),
            decreases self@.nodes.len() - current,
        {
            current = self.best_ucb_score(current, exploration);
        }
        current
    }

    /// Plays a round out at random: from the given node, moves to a child
    /// picked at random until it stands on a leaf. Gives the leaf and the
    /// value of the rollout, which is the reward at the leaf plus the scores
    /// of the nodes passed on the way down.
    pub fn simulate(&self, node: usize, rng: &mut RandomSource) -> (outcome: (usize, i128))
        requires
            self.wf(),
            node < self@.nodes.len(),
        ensures
            outcome.0 < self@.nodes.len(),
            self@.is_leaf(outcome.0 as int),
            self@.is_ancestor(node as int, outcome.0 as int),
            outcome.1 == self@.rollout_value(node as int, outcome.0 as int),
    {
        let ghost tree = self@;
        let mut current = node;
        let mut score: i128 = 0;
        while self.nodes[current].child_count > 0
            invariant
                tree == self@,
                tree.wf(),
                node <= current < tree.nodes.len(),
                tree.is_ancestor(node as int, current as int),
                score == tree.path_score(node as int, current as int),
                -0x8000_0000_0000_0000 * (current - node) <= score <= 0x8000_0000_0000_0000 * (current
                    - node),
            decreases tree.nodes.len() - current,
        {
            assert(tree.node_wf(current as int));
            let count = self.nodes[current].child_count;
            let pick = rng.below(count);
            let k = pick.unwrap();
            assert(self.nodes.len() == tree.nodes.len());
            let child = self.nodes[current].first_child + k;
            assert(tree.child_made(current as int, k as int));
            score = score + self.nodes[child].score as i128;
            current = child;
        }
        let winner = self.nodes[current].state.game.determine_round_winner(self.target);
        let reward: i128 = match winner {
            Some(side) => if side == self.side {
                WIN_REWARD as i128
            } else {
                -(WIN_REWARD as i128)
            },
            None => 0,
        };
        (current, score + reward)
    }

    /// Carries a reward from a node up to the root: the node and each node
    /// above it gets one more visit and the reward added to its score. No
    /// other node changes.
    pub fn backpropagate(&mut self, node: usize, reward: i32)
        requires
            old(self).wf(),
            node < old(self)@.nodes.len(),
            old(self)@.nodes[0].visit < u32::MAX,
        ensures
            final(self)@ == old(self)@.backpropagated(node as int, reward as int),
            old(self)@.credits_path(final(self)@, node as int, reward as int),
            final(self).wf(),
    {
        let ghost before = self@;
        let mut current = node;
        let mut at_root = false;
        proof {
            assert forall|i: int| i > node implies !before.is_ancestor(i, node as int) by {
                if before.is_ancestor(i, node as int) {
                    lemma_ancestor_first(before, i, node as int);
                }
            }
            assert(forall|i: int| 0 <= i < before.nodes.len() ==> self@.nodes[i] == before.nodes[i]);
        }
        while !at_root
            invariant
                before.wf(),
                before.nodes[0].visit < u32::MAX,
                node < before.nodes.len(),
                current < before.nodes.len(),
                self@.side == before.side,
                self@.target == before.target,
                self@.nodes.len() == before.nodes.len(),
                before.is_ancestor(current as int, node as int),
                !at_root ==> forall|i: int|
                    0 <= i < before.nodes.len() ==> #[trigger] self@.nodes[i] == (if i > current
                        && before.is_ancestor(i, node as int) {
                        before.credited(i, reward as int)
                    } else {
                        before.nodes[i]
                    }),
                at_root ==> self@.nodes == before.backpropagated(node as int, reward as int).nodes,
            decreases
                    (if at_root {
                        0
                    } else {
                        current + 1
                    }),
        {
            let ghost mid = self@.nodes;
            assert(before.node_wf(current as int));
            assert(mid[current as int] == before.nodes[current as int]);
            self.nodes[current].visit = self.nodes[current].visit + 1;
            self.nodes[current].score = self.nodes[current].score + reward as i64;
            let ghost now = self@.nodes;
            assert(now =~= mid.update(current as int, before.credited(current as int, reward as int)));
            match self.nodes[current].parent {
                Some(parent) => {
                    proof {
                        lemma_ancestor_parent(before, current as int, node as int);
                        assert forall|i: int| 0 <= i < before.nodes.len() implies #[trigger] now[i] == (
                        if i > parent && before.is_ancestor(i, node as int) {
                            before.credited(i, reward as int)
                        } else {
                            before.nodes[i]
                        }) by {
                            if i != current {
                                assert(now[i] == mid[i]);
                            }
                            if parent < i < current && before.is_ancestor(i, node as int) {
                                lemma_ancestors_chain(before, i, current as int, node as int);
                                lemma_ancestor_first(before, i, parent as int);
                            }
                        }
                    }
                    current = parent;
                },
                None => {
                    at_root = true;
                    proof {
                        assert(current == 0);
                        let goal = before.backpropagated(node as int, reward as int).nodes;
                        assert forall|i: int| 0 <= i < before.nodes.len() implies #[trigger] now[i]
                            == goal[i] by {
                            if i != current {
                                assert(now[i] == mid[i]);
                            }
                        }
                        assert(now =~= goal);
                    }
                },
            }
        }
        proof {
            lemma_backpropagated_wf(before, node as int, reward as int);
            lemma_backpropagation_credits_path(before, node as int, reward as int);
        }
    }
}


impl TreeView {
    /// The visits of the first `count` children of a node, added up.
    pub open spec fn child_visits(self, parent: int, count: int) -> int
        decreases count,
    {
        if count <= 0 {
            0
        } else {
            self.child_visits(parent, count - 1) + self.nodes[self.nodes[parent].first_child + count
                - 1].visit
        }
    }

    /// The visits of all children of the root, added up.
    pub open spec fn root_child_visits(self) -> int {
        self.child_visits(0, self.nodes[0].child_count as int)
    }

    /// Every pass through the root went through one of its children: the
    /// visits of the root's children add up to the visits of the root. A
    /// root that has no children yet, but has moves open, has no visits.
    pub open spec fn balanced(self) -> bool {
        if self.is_leaf(0) {
            self.moves(0).len() > 0 ==> self.nodes[0].visit == 0
        } else {
            self.root_child_visits() == self.nodes[0].visit
        }
    }

    /// Whether a rollout from `from` can end at `leaf`.
    pub open spec fn rollout_end(self, from: int, leaf: int) -> bool {
        &&& 0 <= leaf < self.nodes.len()
        &&& self.is_leaf(leaf)
        &&& self.is_ancestor(from, leaf)
    }

    /// The tree after one iteration of the search whose rollout ended at
    /// `leaf`: the selected leaf is expanded, and the value of the rollout
    /// from it is carried from `leaf` up to the root.
    pub open spec fn iterated(self, table: Seq<Seq<u32>>, leaf: int) -> TreeView {
        let chosen = self.selected(table);
        let grown = self.expanded(chosen);
        grown.backpropagated(leaf, grown.rollout_value(chosen, leaf))
    }

    /// The tree after a run of iterations of the search whose rollouts ended
    /// at the given leaves, one after another.
    pub open spec fn searched(self, table: Seq<Seq<u32>>, leaves: Seq<int>) -> TreeView
        decreases leaves.len(),
    {
        if leaves.len() == 0 {
            self
        } else {
            self.searched(table, leaves.drop_last()).iterated(table, leaves.last())
        }
    }

    /// Whether each of the leaves is a place where the rollout of its
    /// iteration can end: a leaf at or below the node that the iteration
    /// selects and expands, in the tree as the iterations before have left
    /// it.
    pub open spec fn rollouts_end_at(self, table: Seq<Seq<u32>>, leaves: Seq<int>) -> bool
        decreases leaves.len(),
    {
        if leaves.len() == 0 {
            true
        } else {
            let before = self.searched(table, leaves.drop_last());
            self.rollouts_end_at(table, leaves.drop_last()) && before.expanded(
                before.selected(table),
            ).rollout_end(before.selected(table), leaves.last())
        }
    }

    /// Whether this tree has grown out of an earlier one: it is for the same
    /// side and target, and every node of the earlier tree is still in its
    /// place, with the round, hand, parent and move it had.
    pub open spec fn grown_from(self, earlier: TreeView) -> bool {
        &&& self.side == earlier.side
        &&& self.target == earlier.target
        &&& self.nodes.len() >= earlier.nodes.len()
        &&& forall|i: int|
            0 <= i < earlier.nodes.len() ==> {
                &&& (#[trigger] self.nodes[i]).state == earlier.nodes[i].state
                &&& self.nodes[i].hand == earlier.nodes[i].hand
                &&& self.nodes[i].parent == earlier.nodes[i].parent
                &&& self.nodes[i].action == earlier.nodes[i].action
            }
    }
}

/// Below a node whose children are all leaves there are only those children.
pub proof fn lemma_below_leaves(tree: TreeView, upper: int, node: int)
    requires
        tree.wf(),
        0 <= upper,
        0 <= node < tree.nodes.len(),
        tree.is_ancestor(upper, node),
        node != upper,
        forall|child: int| tree.is_child_of(child, upper) ==> tree.is_leaf(child),
    ensures
        tree.is_child_of(node, upper),
    decreases node,
{
    lemma_ancestor_first(tree, upper, node);
    assert(tree.node_wf(node));
    let parent = tree.nodes[node].parent.unwrap() as int;
    assert(tree.is_child_of(node, parent));
    assert(tree.is_ancestor(upper, parent));
    if parent != upper {
        lemma_below_leaves(tree, upper, parent);
        assert(tree.is_child_of(parent, upper));
        assert(tree.is_leaf(parent));
    }
}

/// A rollout from a node that was just expanded ends at the node itself or
/// at one of its fresh children, and passes no score on the way.
pub proof fn lemma_fresh_rollout(tree: TreeView, chosen: int, leaf: int)
    requires
        tree.wf(),
        0 <= chosen < tree.nodes.len(),
        tree.is_leaf(chosen),
        tree.nodes.len() + tree.moves(chosen).len() <= usize::MAX,
        tree.expanded(chosen).rollout_end(chosen, leaf),
    ensures
        tree.expanded(chosen).path_score(chosen, leaf) == 0,
        -WIN_REWARD <= tree.expanded(chosen).rollout_value(chosen, leaf) <= WIN_REWARD,
        leaf == chosen || tree.expanded(chosen).is_child_of(leaf, chosen),
        leaf == chosen <==> tree.moves(chosen).len() == 0,
{
    let grown = tree.expanded(chosen);
    lemma_expanded_wf(tree, chosen);
    assert(grown.node_wf(chosen));
    assert forall|child: int| grown.is_child_of(child, chosen) implies grown.is_leaf(child) by {
        assert(grown.nodes[child] == tree.fresh_child(chosen, child - tree.nodes.len()));
    }
    if leaf != chosen {
        lemma_below_leaves(grown, chosen, leaf);
        assert(grown.nodes[leaf] == tree.fresh_child(chosen, leaf - tree.nodes.len()));
        assert(grown.path_score(chosen, chosen) == 0);
    }
}

/// The child of the root that lies above a node other than the root.
pub proof fn lemma_root_child_above(tree: TreeView, node: int) -> (child: int)
    requires
        tree.wf(),
        0 < node < tree.nodes.len(),
    ensures
        tree.is_child_of(child, 0),
        tree.is_ancestor(child, node),
    decreases node,
{
    assert(tree.node_wf(node));
    let parent = tree.nodes[node].parent.unwrap() as int;
    if parent == 0 {
        node
    } else {
        lemma_root_child_above(tree, parent)
    }
}

/// Only one child of the root lies above a node.
pub proof fn lemma_root_child_above_unique(tree: TreeView, node: int, first: int, second: int)
    requires
        tree.wf(),
        tree.is_child_of(first, 0),
        tree.is_child_of(second, 0),
        tree.is_ancestor(first, node),
        tree.is_ancestor(second, node),
    ensures
        first == second,
{
    assert(tree.node_wf(0));
    if first != second {
        let upper = if first < second {
            first
        } else {
            second
        };
        let lower = if first < second {
            second
        } else {
            first
        };
        assert(tree.child_made(0, lower - tree.nodes[0].first_child));
        lemma_ancestors_chain(tree, upper, lower, node);
        lemma_ancestor_first(tree, upper, 0);
    }
}

/// Carrying a reward up from a node adds one to the visits of the first
/// `count` children of the root if the child of the root above the node is
/// among them, and nothing otherwise.
pub proof fn lemma_child_visits_after(tree: TreeView, node: int, reward: int, above: int, count: int)
    requires
        tree.wf(),
        0 < node < tree.nodes.len(),
        tree.nodes[0].visit < u32::MAX,
        tree.is_child_of(above, 0),
        tree.is_ancestor(above, node),
        0 <= count <= tree.nodes[0].child_count,
    ensures
        tree.backpropagated(node, reward).child_visits(0, count) == tree.child_visits(0, count) + (
        if above < tree.nodes[0].first_child + count {
            1int
        } else {
            0int
        }),
    decreases count,
{
    if count > 0 {
        lemma_child_visits_after(tree, node, reward, above, count - 1);
        let child = tree.nodes[0].first_child + count - 1;
        assert(tree.node_wf(0));
        assert(tree.node_wf(child));
        if tree.is_ancestor(child, node) {
            lemma_root_child_above_unique(tree, node, child, above);
        }
    }
}

/// An iteration of the search keeps the visits of the root and of its
/// children in balance.
pub proof fn lemma_iterated_balanced(tree: TreeView, table: Seq<Seq<u32>>, leaf: int)
    requires
        tree.wf(),
        tree.balanced(),
        tree.nodes[0].visit < u32::MAX,
        0 <= tree.selected(table) < tree.nodes.len(),
        tree.is_leaf(tree.selected(table)),
        tree.nodes.len() + tree.moves(tree.selected(table)).len() <= usize::MAX,
        tree.expanded(tree.selected(table)).rollout_end(tree.selected(table), leaf),
    ensures
        tree.iterated(table, leaf).balanced(),
{
    let chosen = tree.selected(table);
    let grown = tree.expanded(chosen);
    let reward = grown.rollout_value(chosen, leaf);
    let after = tree.iterated(table, leaf);
    lemma_expanded_wf(tree, chosen);
    lemma_fresh_rollout(tree, chosen, leaf);
    lemma_ancestor_first(grown, chosen, leaf);
    assert(tree.node_wf(0));
    assert(grown.node_wf(0));
    if tree.is_leaf(0) {
        assert(chosen == 0);
        if tree.moves(0).len() > 0 {
            lemma_child_visits_after(grown, leaf, reward, leaf, grown.nodes[0].child_count as int);
            lemma_fresh_visits(tree, grown.nodes[0].child_count as int);
            lemma_root_is_ancestor(grown, leaf);
        } else {
            assert(after.moves(0) == tree.moves(0));
        }
    } else {
        assert(chosen != 0);
        let above = lemma_root_child_above(grown, leaf);
        lemma_child_visits_after(grown, leaf, reward, above, grown.nodes[0].child_count as int);
        lemma_same_child_visits(tree, grown, tree.nodes[0].child_count as int);
        lemma_root_is_ancestor(grown, leaf);
    }
}

/// The fresh children of a root that was just expanded have no visits.
pub proof fn lemma_fresh_visits(tree: TreeView, count: int)
    requires
        tree.wf(),
        tree.is_leaf(0),
        0 <= count <= tree.moves(0).len(),
        tree.nodes.len() + tree.moves(0).len() <= usize::MAX,
    ensures
        tree.expanded(0).child_visits(0, count) == 0,
    decreases count,
{
    if count > 0 {
        lemma_fresh_visits(tree, count - 1);
        let grown = tree.expanded(0);
        assert(grown.nodes[grown.nodes[0].first_child + count - 1] == tree.fresh_child(0, count - 1));
    }
}

/// Two trees whose roots have the same children with the same visits have
/// the same sum of those visits.
pub proof fn lemma_same_child_visits(tree: TreeView, other: TreeView, count: int)
    requires
        tree.nodes[0].first_child == other.nodes[0].first_child,
        0 <= count,
        forall|child: int|
            tree.nodes[0].first_child <= child < tree.nodes[0].first_child + count ==> (
            #[trigger] tree.nodes[child]).visit == other.nodes[child].visit,
    ensures
        tree.child_visits(0, count) == other.child_visits(0, count),
    decreases count,
{
    if count > 0 {
        lemma_same_child_visits(tree, other, count - 1);
    }
}


/// Expanding a leaf leaves every node that was there in its place.
pub proof fn lemma_expanded_grown(tree: TreeView, node: int)
    requires
        0 <= node < tree.nodes.len(),
    ensures
        tree.expanded(node).grown_from(tree),
{
}

/// Carrying a reward up the tree leaves every node in its place.
pub proof fn lemma_backpropagated_grown(tree: TreeView, node: int, reward: int)
    ensures
        tree.backpropagated(node, reward).grown_from(tree),
{
}

impl SearchTree {
    /// One iteration of the search: selects a leaf, expands it, plays a
    /// round out at random from it, and carries the value of that rollout
    /// from the leaf where the rollout ended up to the root. Gives the leaf
    /// where the rollout ended.
    pub fn iterate(&mut self, exploration: &Exploration, rng: &mut RandomSource) -> (leaf: usize)
        requires
            old(self).wf(),
            old(self)@.nodes[0].visit < u32::MAX,
        ensures
            final(self)@ == old(self)@.iterated(exploration@, leaf as int),
            old(self)@.expanded(old(self)@.selected(exploration@)).rollout_end(
                old(self)@.selected(exploration@),
                leaf as int,
            ),
            final(self).wf(),
            final(self)@.grown_from(old(self)@),
            final(self)@.nodes[0].visit == old(self)@.nodes[0].visit + 1,
            final(self)@.is_leaf(0) <==> old(self)@.is_leaf(0) && old(self)@.moves(0).len() == 0,
            old(self)@.balanced() ==> final(self)@.balanced(),
    {
        let ghost before = self@;
        let ghost table = exploration@;
        let chosen = self.select(exploration);
        self.expand(chosen);
        let ghost grown = self@;
        assert(self.nodes.len() == grown.nodes.len());
        let (leaf, value) = self.simulate(chosen, rng);
        proof {
            assert(before.node_wf(0));
            assert(grown.node_wf(0));
            lemma_fresh_rollout(before, chosen as int, leaf as int);
            lemma_root_is_ancestor(grown, leaf as int);
            lemma_expanded_grown(before, chosen as int);
            lemma_backpropagated_grown(grown, leaf as int, value as int);
            if before.balanced() {
                lemma_iterated_balanced(before, table, leaf as int);
            }
        }
        self.backpropagate(leaf, value as i32);
        leaf
    }

    /// Runs the given number of iterations of the search. Gives the leaves
    /// where the rollouts ended, in the order of the iterations.
    pub fn search(&mut self, iterations: u32, exploration: &Exploration, rng: &mut RandomSource) -> (leaves:
        Vec<usize>)
        requires
            old(self).wf(),
            old(self)@.nodes[0].visit + iterations <= u32::MAX,
        ensures
            leaves@.len() == iterations,
            old(self)@.rollouts_end_at(exploration@, leaves@.map_values(|leaf: usize| leaf as int)),
            final(self)@ == old(self)@.searched(exploration@, leaves@.map_values(|leaf: usize| leaf as int)),
            final(self).wf(),
            final(self)@.grown_from(old(self)@),
            final(self)@.nodes[0].visit == old(self)@.nodes[0].visit + iterations,
            final(self)@.is_leaf(0) <==> old(self)@.is_leaf(0) && (iterations == 0 || old(
                self,
            )@.moves(0).len() == 0),
            old(self)@.balanced() ==> final(self)@.balanced(),
            old(self)@.balanced() && !final(self)@.is_leaf(0) ==> final(self)@.root_child_visits()
                == old(self)@.nodes[0].visit + iterations,
    {
        let ghost before = self@;
        let ghost table = exploration@;
        let mut leaves: Vec<usize> = Vec::new();
        let mut done: u32 = 0;
        assert(leaves@.map_values(|leaf: usize| leaf as int) =~= Seq::<int>::empty());
        while done < iterations
            invariant
                done <= iterations,
                table == exploration@,
                before.wf(),
                before.nodes[0].visit + iterations <= u32::MAX,
                leaves@.len() == done,
                before.rollouts_end_at(table, leaves@.map_values(|leaf: usize| leaf as int)),
                self@ == before.searched(table, leaves@.map_values(|leaf: usize| leaf as int)),
                self.wf(),
                self@.grown_from(before),
                self@.nodes[0].visit == before.nodes[0].visit + done,
                self@.is_leaf(0) <==> before.is_leaf(0) && (done == 0 || before.moves(0).len() == 0),
                before.balanced() ==> self@.balanced(),
            decreases iterations - done,
        {
            let ghost mid = self@;
            let ghost ends = leaves@.map_values(|leaf: usize| leaf as int);
            assert(mid.moves(0) == before.moves(0));
            let leaf = self.iterate(exploration, rng);
            leaves.push(leaf);
            done += 1;
            assert(leaves@.map_values(|leaf: usize| leaf as int).drop_last() =~= ends);
            assert(leaves@.map_values(|leaf: usize| leaf as int).last() == leaf as int);
        }
        leaves
    }
}

/// How many children an expansion makes: one for each of the ten draws, one
/// for standing and one for each card in the hand, when the side to decide
/// is playing and the deck has cards.
pub proof fn lemma_expansion_count(tree: TreeView, node: int)
    requires
        0 <= node < tree.nodes.len(),
        tree.nodes[node].state.status[tree.side as int] == Status::Playing,
        tree.nodes[node].state.game.deck.len() > 0,
        tree.nodes[node].hand.len() + 11 <= usize::MAX,
    ensures
        tree.expanded(node).nodes[node].child_count == 10 + 1 + tree.nodes[node].hand.len(),
        tree.expanded(node).nodes.len() == tree.nodes.len() + 10 + 1 + tree.nodes[node].hand.len(),
{
    lemma_legal_actions_count(tree.nodes[node].state, tree.nodes[node].hand, tree.side as int);
}


impl TreeView {
    /// Whether `child` is the child of `parent` that was visited most: no
    /// child of `parent` was visited more often, and every child made before
    /// it was visited less often.
    pub open spec fn is_most_visited(self, parent: int, child: int) -> bool {
        &&& self.is_child_of(child, parent)
        &&& forall|other: int| #[trigger]
            self.is_child_of(other, parent) ==> self.nodes[other].visit <= self.nodes[child].visit
        &&& forall|other: int|
            #[trigger] self.is_child_of(other, parent) && other < child ==> self.nodes[other].visit
                < self.nodes[child].visit
    }

    /// The child of `parent` that was visited most.
    pub open spec fn most_visited(self, parent: int) -> int {
        choose|child: int| self.is_most_visited(parent, child)
    }

    /// What the tree recommends: the moves from the root to the child of the
    /// root that was visited most; nothing while the root has no children.
    pub open spec fn recommended(self) -> Option<Seq<ActionView>> {
        if self.is_leaf(0) {
            None
        } else {
            Some(self.path_to(self.most_visited(0)))
        }
    }

    /// The tree that a search starts from: a root for the given round and
    /// hand, without children, visits or score.
    pub open spec fn root_only(
        state: RoundView,
        hand: Seq<CardView>,
        side: usize,
        target: i8,
    ) -> TreeView {
        TreeView {
            nodes: seq![
                NodeView {
                    state,
                    hand,
                    parent: None,
                    action: None,
                    first_child: 0,
                    child_count: 0,
                    visit: 0,
                    score: 0,
                },
            ],
            side,
            target,
        }
    }

    /// The moves that lead from the root to the node, in the order made.
    pub open spec fn path_to(self, node: int) -> Seq<ActionView>
        decreases node,
    {
        if 0 < node < self.nodes.len() && self.nodes[node].parent is Some
            && self.nodes[node].parent.unwrap() < node && self.nodes[node].action is Some {
            self.path_to(self.nodes[node].parent.unwrap() as int).push(
                self.nodes[node].action.unwrap(),
            )
        } else {
            Seq::empty()
        }
    }
}

/// Only one child can be the most visited.
pub proof fn lemma_most_visited_unique(tree: TreeView, parent: int, child: int)
    requires
        tree.is_most_visited(parent, child),
    ensures
        tree.most_visited(parent) == child,
{
    let chosen = tree.most_visited(parent);
    assert(tree.is_most_visited(parent, chosen));
    assert(tree.is_child_of(chosen, parent));
    assert(tree.is_child_of(child, parent));
}

/// Selection moves to a child that was never visited before it moves to any
/// child that was: where a node has such a child, the best child is the
/// first of them, whatever the bonuses.
pub proof fn lemma_unvisited_child_first(
    tree: TreeView,
    parent: int,
    best: int,
    unvisited: int,
    table: Seq<Seq<u32>>,
)
    requires
        tree.is_best_child(parent, best, table),
        tree.is_child_of(unvisited, parent),
        tree.nodes[unvisited].visit == 0,
    ensures
        tree.nodes[best].visit == 0,
        best <= unvisited,
{
    assert(!tree.ucb(best, table).below(tree.ucb(unvisited, table)));
    if unvisited < best {
        assert(tree.ucb(unvisited, table).below(tree.ucb(best, table)));
    }
}

/// Making the moves on the way from the root to a node, one after another
/// from the root's round and hand, is legal at every step and ends in the
/// node's round and hand.
pub proof fn lemma_path_replays(tree: TreeView, node: int)
    requires
        tree.wf(),
        0 <= node < tree.nodes.len(),
    ensures
        all_legal(
            tree.nodes[0].state,
            tree.nodes[0].hand,
            tree.side as int,
            tree.path_to(node),
            tree.target as int,
        ),
        after_actions(
            tree.nodes[0].state,
            tree.nodes[0].hand,
            tree.side as int,
            tree.path_to(node),
            tree.target as int,
        ) == (tree.nodes[node].state, tree.nodes[node].hand),
    decreases node,
{
    assert(tree.node_wf(node));
    if node != 0 {
        let parent = tree.nodes[node].parent.unwrap() as int;
        let k = node - tree.nodes[parent].first_child;
        assert(tree.node_wf(parent));
        assert(tree.child_made(parent, k));
        lemma_path_replays(tree, parent);
        let action = tree.moves(parent)[k];
        assert(tree.moves(parent).contains(action));
        lemma_legal_actions_are_the_legal_ones(
            tree.nodes[parent].state,
            tree.nodes[parent].hand,
            tree.side as int,
            action,
        );
        assert(tree.path_to(node).drop_last() =~= tree.path_to(parent));
    }
}

impl SearchTree {
    /// The child of a node that was visited most, and among several visited
    /// most the one made first. A leaf has none.
    pub fn most_visited_child(&self, node: usize) -> (best: Option<usize>)
        requires
            self.wf(),
            node < self@.nodes.len(),
        ensures
            best is None <==> self@.is_leaf(node as int),
            best matches Some(child) ==> self@.is_most_visited(node as int, child as int) && child
                == self@.most_visited(node as int),
    {
        let ghost tree = self@;
        assert(tree.node_wf(node as int));
        let first = self.nodes[node].first_child;
        let count = self.nodes[node].child_count;
        if count == 0 {
            return None;
        }
        assert(self.nodes.len() == tree.nodes.len());
        let mut best = first;
        let mut k: usize = 1;
        while k < count
            invariant
                1 <= k <= count,
                tree == self@,
                self.nodes.len() == tree.nodes.len(),
                node < first,
                first + count <= tree.nodes.len(),
                first <= best < first + k,
                forall|other: int|
                    first <= other < first + k ==> (#[trigger] tree.nodes[other]).visit
                        <= tree.nodes[best as int].visit,
                forall|other: int|
                    first <= other < best ==> (#[trigger] tree.nodes[other]).visit
                        < tree.nodes[best as int].visit,
            decreases count - k,
        {
            let child = first + k;
            if self.nodes[child].visit > self.nodes[best].visit {
                best = child;
            }
            k += 1;
        }
        proof {
            lemma_most_visited_unique(tree, node as int, best as int);
        }
        Some(best)
    }

    /// A child of a node, picked at random. A leaf has none.
    pub fn select_random_child(&self, node: usize, rng: &mut RandomSource) -> (picked: Option<usize>)
        requires
            self.wf(),
            node < self@.nodes.len(),
        ensures
            picked is None <==> self@.is_leaf(node as int),
            picked matches Some(child) ==> self@.is_child_of(child as int, node as int),
    {
        assert(self@.node_wf(node as int));
        assert(self.nodes.len() == self@.nodes.len());
        match rng.below(self.nodes[node].child_count) {
            Some(k) => Some(self.nodes[node].first_child + k),
            None => None,
        }
    }

    /// The moves that lead from the root to a node, in the order made.
    pub fn action_path(&self, node: usize) -> (path: Vec<NodeAction>)
        requires
            self.wf(),
            node < self@.nodes.len(),
        ensures
            action_views(path@) == self@.path_to(node as int),
    {
        let ghost tree = self@;
        let mut reversed: Vec<NodeAction> = Vec::new();
        let mut current = node;
        assert(tree.path_to(node as int) =~= tree.path_to(current as int) + action_views(
            reversed@,
        ).reverse());
        while current != 0
            invariant
                tree == self@,
                tree.wf(),
                current < tree.nodes.len(),
                tree.path_to(node as int) == tree.path_to(current as int) + action_views(
                    reversed@,
                ).reverse(),
            decreases current,
        {
            assert(tree.node_wf(current as int));
            let ghost before = action_views(reversed@);
            let ghost made = tree.nodes[current as int].action.unwrap();
            match &self.nodes[current].action {
                Some(action) => {
                    reversed.push(action.clone());
                },
                None => {},
            }
            assert(action_views(reversed@) =~= before.push(made));
            assert(before.push(made).reverse() =~= seq![made] + before.reverse());
            let parent = self.nodes[current].parent.unwrap();
            assert(tree.path_to(parent as int).push(made) + before.reverse() =~= tree.path_to(
                parent as int,
            ) + (seq![made] + before.reverse()));
            current = parent;
        }
        let ghost backwards = action_views(reversed@);
        assert(tree.path_to(node as int) =~= backwards.reverse());
        let mut path: Vec<NodeAction> = Vec::new();
        let mut left = reversed.len();
        while left > 0
            invariant
                left <= reversed.len(),
                backwards == action_views(reversed@),
                path@.len() == reversed.len() - left,
                forall|j: int|
                    0 <= j < path@.len() ==> (#[trigger] path@[j])@ == backwards[backwards.len() - 1
                        - j],
            decreases left,
        {
            left -= 1;
            path.push(reversed[left].clone());
        }
        assert(action_views(path@) =~= backwards.reverse());
        path
    }

    /// What the search recommends: the moves from the root to the child of
    /// the root that was visited most. A root without children gives no
    /// recommendation.
    pub fn recommendation(&self) -> (moves: Option<Vec<NodeAction>>)
        requires
            self.wf(),
        ensures
            moves is None <==> self@.is_leaf(0),
            moves is Some ==> self@.is_most_visited(0, self@.most_visited(0)),
            moves matches Some(path) ==> action_views(path@) == self@.path_to(self@.most_visited(0)),
            self@.recommended() == (match moves {
                Some(path) => Some(action_views(path@)),
                None => None,
            }),
    {
        match self.most_visited_child(0) {
            Some(child) => Some(self.action_path(child)),
            None => None,
        }
    }
}


/// How far the search has come at a node.
#[derive(Clone, Copy, PartialEq, Eq, Debug, Structural)]
pub enum NodePhase {
    /// The node has no children.
    Unexpanded,
    /// The node has children, none of them visited.
    Expanded,
    /// The node has children, one of them at least visited.
    Exploited,
}

impl TreeView {
    /// How far the search has come at a node.
    pub open spec fn phase(self, node: int) -> NodePhase {
        if self.is_leaf(node) {
            NodePhase::Unexpanded
        } else if exists|child: int| #[trigger]
            self.is_child_of(child, node) && self.nodes[child].visit > 0 {
            NodePhase::Exploited
        } else {
            NodePhase::Expanded
        }
    }

    /// Whether `child` is the first child of `parent` that the move made.
    pub open spec fn is_child_by(self, parent: int, child: int, action: ActionView) -> bool {
        &&& self.is_child_of(child, parent)
        &&& self.nodes[child].action == Some(action)
        &&& forall|other: int| #[trigger]
            self.is_child_of(other, parent) && other < child ==> self.nodes[other].action != Some(
                action,
            )
    }
}

impl SearchTree {
    /// How far the search has come at a node.
    pub fn phase(&self, node: usize) -> (phase: NodePhase)
        requires
            self.wf(),
            node < self@.nodes.len(),
        ensures
            phase == self@.phase(node as int),
    {
        let ghost tree = self@;
        assert(tree.node_wf(node as int));
        assert(self.nodes.len() == tree.nodes.len());
        let first = self.nodes[node].first_child;
        let count = self.nodes[node].child_count;
        if count == 0 {
            return NodePhase::Unexpanded;
        }
        let mut k: usize = 0;
        while k < count
            invariant
                k <= count,
                tree == self@,
                self.nodes.len() == tree.nodes.len(),
                node < first,
                first + count <= tree.nodes.len(),
                first == tree.nodes[node as int].first_child,
                count == tree.nodes[node as int].child_count,
                forall|child: int| first <= child < first + k ==> (#[trigger] tree.nodes[child]).visit == 0,
            decreases count - k,
        {
            if self.nodes[first + k].visit > 0 {
                assert(tree.is_child_of(first + k, node as int));
                return NodePhase::Exploited;
            }
            k += 1;
        }
        NodePhase::Expanded
    }

    /// The child of a node that the given move made, and the first such
    /// child if the move was open more than once. There is none if the node
    /// has no child made by that move.
    pub fn child_by_action(&self, node: usize, action: &NodeAction) -> (found: Option<usize>)
        requires
            self.wf(),
            node < self@.nodes.len(),
        ensures
            found matches Some(child) ==> self@.is_child_by(node as int, child as int, action@),
            found is None ==> forall|child: int| #[trigger]
                self@.is_child_of(child, node as int) ==> self@.nodes[child].action != Some(action@),
    {
        let ghost tree = self@;
        assert(tree.node_wf(node as int));
        assert(self.nodes.len() == tree.nodes.len());
        let first = self.nodes[node].first_child;
        let count = self.nodes[node].child_count;
        let mut k: usize = 0;
        while k < count
            invariant
                k <= count,
                tree == self@,
                self.nodes.len() == tree.nodes.len(),
                count > 0 ==> node < first && first + count <= tree.nodes.len(),
                first == tree.nodes[node as int].first_child,
                count == tree.nodes[node as int].child_count,
                forall|child: int|
                    first <= child < first + k ==> (#[trigger] tree.nodes[child]).action != Some(
                        action@,
                    ),
            decreases count - k,
        {
            let same = match &self.nodes[first + k].action {
                Some(made) => made.same_as(action),
                None => false,
            };
            if same {
                return Some(first + k);
            }
            k += 1;
        }
        None
    }
}

} // verus!
