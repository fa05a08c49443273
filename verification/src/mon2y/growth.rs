use vstd::prelude::*;

use super::game::State;
use super::invariants::{
    follows_game, leads_to_placeholder, lemma_child_index_update, lemma_expand_follows_game,
    lemma_expand_keeps_expanded, lemma_follows_game_same, lemma_fresh_follows_game, lemma_leads_same,
    lemma_propagate_follows_game, open_slots, played,
};
use super::mcts::{grown, search_ends, searched};
use super::model::{credit, expand, fresh, lemma_first_slot, propagate, reward_for, NodeView};
use super::scoring::UcbTerms;
use super::tree::{iterated, lemma_selects_leads, selects};
use super::{Reward, Score};

verus! {

/// The expanded nodes in the first `n` of the slots and below them.
pub open spec fn nodes_among<SV, ActionType>(kids: Seq<(ActionType, NodeView<SV, ActionType>)>, n: nat) -> nat
    decreases kids, n,
{
    if n == 0 || n > kids.len() {
        0
    } else {
        nodes_among(kids, (n - 1) as nat) + nodes(kids[n - 1].1)
    }
}

/// The expanded nodes of a tree: the positions that the search has reached.
pub open spec fn nodes<SV, ActionType>(node: NodeView<SV, ActionType>) -> nat
    decreases node,
{
    match node {
        NodeView::Placeholder { .. } => 0,
        NodeView::Expanded { children, .. } => 1 + nodes_among(children, children.len()),
    }
}

/// Slots that hold as many nodes one by one hold as many together.
pub proof fn lemma_nodes_among_same<SV, ActionType>(
    a: Seq<(ActionType, NodeView<SV, ActionType>)>,
    b: Seq<(ActionType, NodeView<SV, ActionType>)>,
    n: nat,
)
    requires
        n <= a.len(),
        n <= b.len(),
        forall|i: int| 0 <= i < n ==> nodes((#[trigger] a[i]).1) == nodes(b[i].1),
    ensures
        nodes_among(a, n) == nodes_among(b, n),
    decreases n,
{
    if n > 0 {
        lemma_nodes_among_same(a, b, (n - 1) as nat);
    }
}

/// How the number of nodes changes when one child is replaced.
pub proof fn lemma_nodes_among_update<SV, ActionType>(
    kids: Seq<(ActionType, NodeView<SV, ActionType>)>,
    n: nat,
    i: int,
    slot: (ActionType, NodeView<SV, ActionType>),
)
    requires
        n <= kids.len(),
        0 <= i < kids.len(),
    ensures
        nodes_among(kids.update(i, slot), n) == nodes_among(kids, n) + (if i < n {
            nodes(slot.1) - nodes(kids[i].1)
        } else {
            0
        }),
    decreases n,
{
    if n > 0 {
        lemma_nodes_among_update(kids, (n - 1) as nat, i, slot);
    }
}

/// Trees that differ in remembered scores only have as many nodes.
pub proof fn lemma_nodes_same<SV, ActionType>(a: NodeView<SV, ActionType>, b: NodeView<SV, ActionType>)
    requires
        a.same_statistics(b),
    ensures
        nodes(a) == nodes(b),
    decreases a,
{
    a.lemma_same_statistics(b);
    if a is Expanded {
        assert forall|i: int| 0 <= i < a.kids().len() implies nodes((#[trigger] a.kids()[i]).1) == nodes(
            b.kids()[i].1,
        ) by {
            assert(a.kids()[i].0 == b.kids()[i].0);
            lemma_nodes_same(a.kids()[i].1, b.kids()[i].1);
        }
        lemma_nodes_among_same(a.kids(), b.kids(), a.kids().len());
    }
}

/// Visits add no node.
pub proof fn lemma_credit_nodes<S: State>(
    node: NodeView<S::V, S::ActionType>,
    path: Seq<S::ActionType>,
    rewards: Seq<Reward>,
    own: Reward,
)
    ensures
        nodes(credit::<S>(node, path, rewards, own)) == nodes(node),
    decreases path.len(),
{
    let after = credit::<S>(node, path, rewards, own);
    if path.len() == 0 || node is Placeholder || node.child_index(path[0]) >= node.kids().len() {
        assert(after.kids() == node.kids());
    } else {
        let i = node.child_index(path[0]);
        let next = reward_for(S::actor(node.position()), rewards);
        let below = credit::<S>(node.child(path[0]), path.skip(1), rewards, next);
        lemma_first_slot(node.kids(), path[0], 0);
        lemma_credit_nodes::<S>(node.child(path[0]), path.skip(1), rewards, next);
        assert(after.kids() == node.kids().update(i, (path[0], below)));
        lemma_nodes_among_update(node.kids(), node.kids().len(), i, (path[0], below));
    }
}

/// Visits below the root add no node.
pub proof fn lemma_propagate_nodes<S: State>(
    node: NodeView<S::V, S::ActionType>,
    path: Seq<S::ActionType>,
    rewards: Seq<Reward>,
)
    ensures
        nodes(propagate::<S>(node, path, rewards)) == nodes(node),
{
    let after = propagate::<S>(node, path, rewards);
    if path.len() == 0 || node is Placeholder || node.child_index(path[0]) >= node.kids().len() {
    } else {
        let i = node.child_index(path[0]);
        let next = reward_for(S::actor(node.position()), rewards);
        let below = credit::<S>(node.child(path[0]), path.skip(1), rewards, next);
        lemma_first_slot(node.kids(), path[0], 0);
        lemma_credit_nodes::<S>(node.child(path[0]), path.skip(1), rewards, next);
        assert(after.kids() == node.kids().update(i, (path[0], below)));
        lemma_nodes_among_update(node.kids(), node.kids().len(), i, (path[0], below));
    }
}

/// Slots that all hold placeholders hold no node.
pub proof fn lemma_no_nodes<SV, ActionType>(kids: Seq<(ActionType, NodeView<SV, ActionType>)>, n: nat)
    requires
        n <= kids.len(),
        forall|i: int| 0 <= i < kids.len() ==> (#[trigger] kids[i]).1 is Placeholder,
    ensures
        nodes_among(kids, n) == 0,
    decreases n,
{
    if n > 0 {
        lemma_no_nodes(kids, (n - 1) as nat);
        assert(kids[n - 1].1 is Placeholder);
        assert(nodes(kids[n - 1].1) == 0);
        assert(nodes_among(kids, n) == nodes_among(kids, (n - 1) as nat) + nodes(kids[n - 1].1));
    }
}

/// Expanding a path that leads to a placeholder adds one node.
pub proof fn lemma_expand_nodes<S: State>(node: NodeView<S::V, S::ActionType>, path: Seq<S::ActionType>)
    requires
        node is Expanded,
        leads_to_placeholder(node, path),
    ensures
        nodes(expand::<S>(node, path)) == nodes(node) + 1,
    decreases path.len(),
{
    let i = node.child_index(path[0]);
    let child = node.child(path[0]);
    let rest = path.skip(1);
    let grew = super::model::grown::<S>(node, path[0]);
    let below = expand::<S>(grew, rest);
    let once = expand::<S>(node, path);
    lemma_first_slot(node.kids(), path[0], 0);
    lemma_child_index_update(node, path[0], below, path[0]);
    lemma_expand_keeps_expanded::<S>(grew, rest);
    assert(once.kids() == node.kids().update(i, (path[0], below)));
    if child is Expanded {
        lemma_expand_nodes::<S>(child, rest);
    } else {
        assert(rest.len() == 0);
        assert(below == grew);
        assert forall|j: int| 0 <= j < grew.kids().len() implies (#[trigger] grew.kids()[j]).1 is Placeholder by {}
        lemma_no_nodes(grew.kids(), grew.kids().len());
    }
    lemma_nodes_among_update(node.kids(), node.kids().len(), i, (path[0], below));
}

/// What iterations grow from a position of the game: a tree that follows the
/// game from that position, with one node for the root and one more for each
/// iteration.
pub proof fn lemma_grown<S: State, F: Fn(UcbTerms) -> Score>(
    start: S::V,
    constant: Score,
    scorer: F,
    iterations: nat,
    tree: NodeView<S::V, S::ActionType>,
)
    requires
        S::inv(start),
        grown::<S, F>(start, constant, scorer, iterations, tree),
    ensures
        tree is Expanded,
        tree.position() == start,
        follows_game::<S>(tree),
        nodes(tree) == iterations + 1,
    decreases iterations,
{
    if iterations == 0 {
        lemma_fresh_follows_game::<S>(start, None);
        let first = fresh::<S>(start, None);
        assert forall|j: int| 0 <= j < first.kids().len() implies (#[trigger] first.kids()[j]).1 is Placeholder by {}
        lemma_no_nodes(first.kids(), first.kids().len());
    } else {
        let (before, path, scored, reward) = choose|
            before: NodeView<S::V, S::ActionType>,
            path: Seq<S::ActionType>,
            scored: NodeView<S::V, S::ActionType>,
            reward: Seq<Reward>,
        |
            {
                &&& grown::<S, F>(start, constant, scorer, (iterations - 1) as nat, before)
                &&& selects(before, constant, scorer, path)
                &&& #[trigger] iterated::<S>(before, scored, path, reward, tree)
            };
        lemma_grown::<S, F>(start, constant, scorer, (iterations - 1) as nat, before);
        lemma_selects_leads(before, constant, scorer, path);
        before.lemma_same_statistics(scored);
        scored.lemma_same_statistics(before);
        lemma_follows_game_same::<S>(before, scored);
        lemma_leads_same(before, scored, path);
        lemma_nodes_same(scored, before);
        lemma_expand_follows_game::<S>(scored, path);
        lemma_expand_keeps_expanded::<S>(scored, path);
        lemma_expand_nodes::<S>(scored, path);
        lemma_propagate_follows_game::<S>(expand::<S>(scored, path), path, reward);
        lemma_propagate_nodes::<S>(expand::<S>(scored, path), path, reward);
    }
}

/// A search without a time limit ends before its budget is used up where the
/// game is small: if no tree that follows the game from the position holds
/// more than `bound` nodes, and the budget is `bound` iterations or more, the
/// search ends on a tree that is fully explored, after fewer iterations than
/// `bound`.
pub proof fn lemma_small_game_ends_early<S: State, F: Fn(UcbTerms) -> Score>(
    start: S::V,
    constant: Score,
    scorer: F,
    most: int,
    tree: NodeView<S::V, S::ActionType>,
    bound: nat,
)
    requires
        S::inv(start),
        search_ends::<S, F>(start, constant, scorer, most, false, tree),
        forall|other: NodeView<S::V, S::ActionType>|
            other is Expanded && other.position() == start && follows_game::<S>(other) ==> #[trigger] nodes(other)
                <= bound,
        bound <= most,
    ensures
        tree.fully_explored(),
        nodes(tree) == played(tree) + 1,
        played(tree) < bound,
{
    let (iterations, last) = choose|iterations: nat, last: NodeView<S::V, S::ActionType>|
        {
            &&& iterations <= most
            &&& #[trigger] grown::<S, F>(start, constant, scorer, iterations, last)
            &&& searched::<S>(start, iterations as int, tree)
            &&& tree == last || (last.fully_explored() && tree.same_statistics(last))
            &&& iterations == most || last.fully_explored()
            &&& most < tree.kids().len() || open_slots(tree) == 0
        };
    lemma_grown::<S, F>(start, constant, scorer, iterations, last);
    assert(nodes(last) <= bound);
    if tree != last {
        tree.lemma_same_statistics(last);
        lemma_nodes_same(tree, last);
    }
    assert(nodes(tree) == iterations + 1);
    assert(played(tree) == iterations);
}

} // verus!
