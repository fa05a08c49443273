use vstd::prelude::*;

use super::game::{lemma_offered, offered, Action, State};
use super::model::{
    credit, expand, expandable, fresh, fresh_slots, grown, lemma_credit_is_propagate, lemma_first_slot,
    lemma_first_slot_same, propagate, reward_for, rewarded, NodeView,
};
use super::Reward;

verus! {

/// Whether the tree follows the game: every expanded node holds a position of
/// the game and has one child slot per open move of that position; a slot for
/// an outcome of a chance move carries its weight; and an expanded child
/// holds the position that its move leads to.
pub open spec fn follows_game<S: State>(node: NodeView<S::V, S::ActionType>) -> bool
    decreases node,
{
    match node {
        NodeView::Placeholder { .. } => true,
        NodeView::Expanded { state, children, game_action, .. } => {
            &&& S::inv(state)
            &&& game_action == (S::actor(state) is GameAction)
            &&& children.len() == fresh_slots::<S>(state).len()
            &&& forall|i: int|
                0 <= i < children.len() ==> {
                    &&& (#[trigger] children[i]).0 == fresh_slots::<S>(state)[i].0
                    &&& children[i].1.slot_weight() == fresh_slots::<S>(state)[i].1.slot_weight()
                    &&& children[i].1 is Expanded ==> children[i].1.position() == children[i].0.successor(
                        state,
                    )
                    &&& follows_game::<S>(children[i].1)
                }
        },
    }
}

/// The visits of the first `n` children, summed up.
pub open spec fn child_visits<SV, ActionType>(kids: Seq<(ActionType, NodeView<SV, ActionType>)>, n: int) -> int
    decreases n,
{
    if n <= 0 {
        0
    } else {
        child_visits(kids, n - 1) + kids[n - 1].1.visits()
    }
}

/// How many visits went through the node into its children: for the root of
/// a search tree, the number of iterations that ended with visits.
pub open spec fn played<SV, ActionType>(node: NodeView<SV, ActionType>) -> int {
    child_visits(node.kids(), node.kids().len() as int)
}

/// Whether the visits add up below the node: every expanded node below it
/// was visited once more than its children together. The same is asked of
/// the node itself unless it is the root, which is never visited.
pub open spec fn visits_add_up<SV, ActionType>(node: NodeView<SV, ActionType>, root: bool) -> bool
    decreases node,
{
    match node {
        NodeView::Placeholder { .. } => true,
        NodeView::Expanded { children, visit_count, .. } => {
            &&& root || visit_count == child_visits(children, children.len() as int) + 1
            &&& forall|i: int| 0 <= i < children.len() ==> visits_add_up((#[trigger] children[i]).1, false)
        },
    }
}

/// Whether `path` leads from `node` through expanded nodes to a placeholder.
pub open spec fn leads_to_placeholder<SV, ActionType>(
    node: NodeView<SV, ActionType>,
    path: Seq<ActionType>,
) -> bool
    decreases path.len(),
{
    &&& path.len() > 0
    &&& node.child_index(path[0]) < node.kids().len()
    &&& match node.child(path[0]) {
        NodeView::Placeholder { .. } => path.len() == 1,
        NodeView::Expanded { .. } => leads_to_placeholder(node.child(path[0]), path.skip(1)),
    }
}

/// In a tree that follows the game, the child slots of an expanded node are
/// for the open moves of its position, in their order, and for nothing else.
pub proof fn lemma_children_are_open_moves<S: State>(node: NodeView<S::V, S::ActionType>)
    requires
        follows_game::<S>(node),
        node is Expanded,
    ensures
        node.kids().len() == offered::<S>(node.position()).len(),
        forall|i: int|
            0 <= i < node.kids().len() ==> (#[trigger] node.kids()[i]).0 == offered::<S>(node.position())[i],
        node.distinct_slots(),
{
    lemma_offered::<S>(node.position());
    assert forall|i: int| 0 <= i < node.kids().len() implies (#[trigger] node.kids()[i]).0 == offered::<S>(
        node.position(),
    )[i] by {
        assert(node.kids()[i].0 == fresh_slots::<S>(node.position())[i].0);
    }
    assert forall|i: int, j: int| 0 <= i < j < node.kids().len() implies (#[trigger] node.kids()[i]).0 != (
    #[trigger] node.kids()[j]).0 by {
        assert(node.kids()[i].0 == offered::<S>(node.position())[i]);
        assert(node.kids()[j].0 == offered::<S>(node.position())[j]);
    }
}

/// The node that is created for a position of the game follows the game, and
/// its visits add up as those of a root do: it has no child with a visit.
pub proof fn lemma_fresh_follows_game<S: State>(v: S::V, weight: Option<u32>)
    requires
        S::inv(v),
    ensures
        follows_game::<S>(fresh::<S>(v, weight)),
        visits_add_up(fresh::<S>(v, weight), true),
        child_visits(fresh::<S>(v, weight).kids(), fresh::<S>(v, weight).kids().len() as int) == 0,
{
    let node = fresh::<S>(v, weight);
    assert(node.kids() == fresh_slots::<S>(v));
    assert forall|i: int| 0 <= i < node.kids().len() implies (#[trigger] node.kids()[i]).1 is Placeholder by {}
    lemma_unvisited_slots(node.kids(), node.kids().len() as int);
    assert forall|i: int| 0 <= i < node.kids().len() implies {
        &&& follows_game::<S>((#[trigger] node.kids()[i]).1)
        &&& visits_add_up(node.kids()[i].1, false)
    } by {}
}

/// Children that are all placeholders have no visits.
pub proof fn lemma_unvisited_slots<SV, ActionType>(kids: Seq<(ActionType, NodeView<SV, ActionType>)>, n: int)
    requires
        n <= kids.len(),
        forall|i: int| 0 <= i < kids.len() ==> (#[trigger] kids[i]).1 is Placeholder,
    ensures
        child_visits(kids, n) == 0,
    decreases n,
{
    if n > 0 {
        lemma_unvisited_slots(kids, n - 1);
    }
}

/// No child was visited more often than the children together.
pub proof fn lemma_child_visits_bound<SV, ActionType>(
    kids: Seq<(ActionType, NodeView<SV, ActionType>)>,
    n: int,
    i: int,
)
    requires
        0 <= i < n <= kids.len(),
    ensures
        kids[i].1.visits() <= child_visits(kids, n),
    decreases n,
{
    lemma_child_visits_positive(kids, n - 1);
    if i < n - 1 {
        lemma_child_visits_bound(kids, n - 1, i);
    }
}

/// The sum of the visits is not negative.
pub proof fn lemma_child_visits_positive<SV, ActionType>(
    kids: Seq<(ActionType, NodeView<SV, ActionType>)>,
    n: int,
)
    ensures
        child_visits(kids, n) >= 0,
    decreases n,
{
    if n > 0 {
        lemma_child_visits_positive(kids, n - 1);
    }
}

/// How the sum of the visits changes when one child is replaced.
pub proof fn lemma_child_visits_update<SV, ActionType>(
    kids: Seq<(ActionType, NodeView<SV, ActionType>)>,
    n: int,
    i: int,
    slot: (ActionType, NodeView<SV, ActionType>),
)
    requires
        0 <= n <= kids.len(),
        0 <= i < kids.len(),
    ensures
        child_visits(kids.update(i, slot), n) == child_visits(kids, n) + (if i < n {
            slot.1.visits() - kids[i].1.visits()
        } else {
            0
        }),
    decreases n,
{
    if n > 0 {
        lemma_child_visits_update(kids, n - 1, i, slot);
    }
}

/// Where the visits add up, no node below the root was visited more often
/// than its parent: along every path below the root the visits never rise.
pub proof fn lemma_visits_never_rise<SV, ActionType>(node: NodeView<SV, ActionType>, i: int)
    requires
        visits_add_up(node, false),
        0 <= i < node.kids().len(),
    ensures
        node.kids()[i].1.visits() <= node.visits(),
        visits_add_up(node.kids()[i].1, false),
{
    lemma_child_visits_bound(node.kids(), node.kids().len() as int, i);
}

/// Along a path below a node that is not the root, each node was visited at
/// most as often as the node.
pub proof fn lemma_visits_along_path<SV, ActionType>(node: NodeView<SV, ActionType>, path: Seq<ActionType>)
    requires
        visits_add_up(node, false),
        node.has_path(path),
    ensures
        node.at(path).visits() <= node.visits(),
        visits_add_up(node.at(path), false),
    decreases path.len(),
{
    if path.len() > 0 {
        let i = node.child_index(path[0]);
        lemma_first_slot(node.kids(), path[0], 0);
        lemma_visits_never_rise(node, i);
        lemma_visits_along_path(node.child(path[0]), path.skip(1));
    }
}

/// Below the root, each node was visited at most as often as the child of
/// the root that the path to it goes through, and no node more often than
/// iterations went by.
pub proof fn lemma_visits_below_root<SV, ActionType>(root: NodeView<SV, ActionType>, path: Seq<ActionType>)
    requires
        visits_add_up(root, true),
        root.has_path(path),
        path.len() > 0,
    ensures
        root.at(path).visits() <= root.child(path[0]).visits() <= played(root),
{
    let i = root.child_index(path[0]);
    lemma_first_slot(root.kids(), path[0], 0);
    lemma_child_visits_bound(root.kids(), root.kids().len() as int, i);
    lemma_visits_along_path(root.child(path[0]), path.skip(1));
}

/// A node that is fully explored has only children that are fully explored.
pub proof fn lemma_fully_explored_children<SV, ActionType>(node: NodeView<SV, ActionType>, i: int)
    requires
        node.fully_explored(),
        0 <= i < node.kids().len(),
    ensures
        node.kids()[i].1 is Expanded,
        node.kids()[i].1.fully_explored(),
{
}

/// In a tree that follows the game, a node in whose position the game is
/// over is fully explored: no move is open there, so it has no child.
pub proof fn lemma_game_over_fully_explored<S: State>(node: NodeView<S::V, S::ActionType>)
    requires
        follows_game::<S>(node),
        node is Expanded,
        S::is_terminal(node.position()),
    ensures
        node.kids().len() == 0,
        node.fully_explored(),
{
    lemma_offered::<S>(node.position());
}

/// In a tree that follows the game, an expanded node is fully explored
/// exactly when the game is over in its position or each of its children is
/// expanded and fully explored. A placeholder is not fully explored.
pub proof fn lemma_fully_explored_means<S: State>(node: NodeView<S::V, S::ActionType>)
    requires
        follows_game::<S>(node),
    ensures
        node is Placeholder ==> !node.fully_explored(),
        node is Expanded ==> (node.fully_explored() <==> (S::is_terminal(node.position()) || forall|i: int|
            0 <= i < node.kids().len() ==> (#[trigger] node.kids()[i]).1 is Expanded
                && node.kids()[i].1.fully_explored())),
{
    if node is Expanded {
        lemma_offered::<S>(node.position());
        if node.fully_explored() {
            assert forall|i: int| 0 <= i < node.kids().len() implies (#[trigger] node.kids()[i]).1 is Expanded
                && node.kids()[i].1.fully_explored() by {
                lemma_fully_explored_children(node, i);
            }
        }
        if forall|i: int|
            0 <= i < node.kids().len() ==> (#[trigger] node.kids()[i]).1 is Expanded
                && node.kids()[i].1.fully_explored() {
            assert forall|i: int| 0 <= i < node.kids().len() implies (#[trigger] node.kids()[i]).1.fully_explored() by {}
        }
    }
}

/// Replacing a child by another for the same move leaves the first slot of
/// every move where it was.
pub proof fn lemma_child_index_update<SV, ActionType>(
    node: NodeView<SV, ActionType>,
    action: ActionType,
    child: NodeView<SV, ActionType>,
    other: ActionType,
)
    requires
        node.child_index(action) < node.kids().len(),
    ensures
        node.with_kids(node.kids().update(node.child_index(action), (action, child))).child_index(other)
            == node.child_index(other),
{
    let i = node.child_index(action);
    lemma_first_slot(node.kids(), action, 0);
    lemma_first_slot_same(node.kids().update(i, (action, child)), node.kids(), other, 0);
    if node is Expanded {
        assert(node.with_kids(node.kids().update(i, (action, child))).kids() == node.kids().update(
            i,
            (action, child),
        ));
    }
}

/// Expanding a path a second time changes nothing: the tree is the one that
/// expanding it once gave.
pub proof fn lemma_expand_twice<S: State>(node: NodeView<S::V, S::ActionType>, path: Seq<S::ActionType>)
    ensures
        expand::<S>(expand::<S>(node, path), path) == expand::<S>(node, path),
    decreases path.len(),
{
    if path.len() == 0 || node is Placeholder || node.child_index(path[0]) >= node.kids().len() {
    } else {
        let i = node.child_index(path[0]);
        let below = expand::<S>(grown::<S>(node, path[0]), path.skip(1));
        let once = expand::<S>(node, path);
        lemma_expand_twice::<S>(grown::<S>(node, path[0]), path.skip(1));
        lemma_child_index_update(node, path[0], below, path[0]);
        lemma_first_slot(node.kids(), path[0], 0);
        assert(once.kids() == node.kids().update(i, (path[0], below)));
        assert(once.child(path[0]) == below);
        lemma_expand_keeps_expanded::<S>(grown::<S>(node, path[0]), path.skip(1));
        assert(grown::<S>(once, path[0]) == below);
        assert(once.kids().update(i, (path[0], below)) =~= once.kids());
    }
}

/// Expanding below an expanded node leaves it an expanded node, with its
/// position, statistics and weight.
pub proof fn lemma_expand_keeps_expanded<S: State>(node: NodeView<S::V, S::ActionType>, path: Seq<S::ActionType>)
    requires
        node is Expanded,
    ensures
        expand::<S>(node, path) is Expanded,
        expand::<S>(node, path).position() == node.position(),
        expand::<S>(node, path).visits() == node.visits(),
        expand::<S>(node, path).value() == node.value(),
        expand::<S>(node, path).is_chance() == node.is_chance(),
        expand::<S>(node, path).slot_weight() == node.slot_weight(),
        expand::<S>(node, path).kids().len() == node.kids().len(),
        forall|i: int|
            0 <= i < node.kids().len() ==> (#[trigger] expand::<S>(node, path).kids()[i]).0 == node.kids()[i].0,
{
    if path.len() == 0 || node.child_index(path[0]) >= node.kids().len() {
    } else {
        lemma_first_slot(node.kids(), path[0], 0);
    }
}

/// Trees that differ in remembered scores only have the same first slot for
/// every move.
pub proof fn lemma_child_index_same<SV, ActionType>(
    a: NodeView<SV, ActionType>,
    b: NodeView<SV, ActionType>,
    action: ActionType,
)
    requires
        a.same_statistics(b),
    ensures
        a.child_index(action) == b.child_index(action),
        0 <= a.child_index(action) <= a.kids().len(),
        a.child_index(action) < a.kids().len() ==> a.child(action).same_statistics(b.child(action)),
{
    a.lemma_same_statistics(b);
    lemma_first_slot_same(a.kids(), b.kids(), action, 0);
    lemma_first_slot(a.kids(), action, 0);
}

/// Of trees that differ in remembered scores only, one follows the game when
/// the other does.
pub proof fn lemma_follows_game_same<S: State>(
    a: NodeView<S::V, S::ActionType>,
    b: NodeView<S::V, S::ActionType>,
)
    requires
        a.same_statistics(b),
        follows_game::<S>(a),
    ensures
        follows_game::<S>(b),
    decreases a,
{
    a.lemma_same_statistics(b);
    if a is Expanded {
        assert forall|i: int| 0 <= i < b.kids().len() implies {
            &&& (#[trigger] b.kids()[i]).0 == fresh_slots::<S>(b.position())[i].0
            &&& b.kids()[i].1.slot_weight() == fresh_slots::<S>(b.position())[i].1.slot_weight()
            &&& b.kids()[i].1 is Expanded ==> b.kids()[i].1.position() == b.kids()[i].0.successor(
                b.position(),
            )
            &&& follows_game::<S>(b.kids()[i].1)
        } by {
            assert(a.kids()[i].0 == b.kids()[i].0);
            a.kids()[i].1.lemma_same_statistics(b.kids()[i].1);
            lemma_follows_game_same::<S>(a.kids()[i].1, b.kids()[i].1);
        }
    }
}

/// Children with the same visits have the same visits together.
pub proof fn lemma_child_visits_same<SV, ActionType>(
    a: Seq<(ActionType, NodeView<SV, ActionType>)>,
    b: Seq<(ActionType, NodeView<SV, ActionType>)>,
    n: int,
)
    requires
        n <= a.len(),
        n <= b.len(),
        forall|i: int| 0 <= i < n ==> (#[trigger] a[i]).1.visits() == b[i].1.visits(),
    ensures
        child_visits(a, n) == child_visits(b, n),
    decreases n,
{
    if n > 0 {
        lemma_child_visits_same(a, b, n - 1);
    }
}

/// Trees that differ in remembered scores only had as many visits go
/// through the root.
pub proof fn lemma_played_same<SV, ActionType>(a: NodeView<SV, ActionType>, b: NodeView<SV, ActionType>)
    requires
        a.same_statistics(b),
    ensures
        played(a) == played(b),
{
    a.lemma_same_statistics(b);
    assert forall|i: int| 0 <= i < a.kids().len() implies (#[trigger] a.kids()[i]).1.visits()
        == b.kids()[i].1.visits() by {
        assert(a.kids()[i].0 == b.kids()[i].0);
        a.kids()[i].1.lemma_same_statistics(b.kids()[i].1);
    }
    lemma_child_visits_same(a.kids(), b.kids(), a.kids().len() as int);
}

/// Of trees that differ in remembered scores only, the visits of one add up
/// when those of the other do.
pub proof fn lemma_visits_add_up_same<SV, ActionType>(
    a: NodeView<SV, ActionType>,
    b: NodeView<SV, ActionType>,
    root: bool,
)
    requires
        a.same_statistics(b),
        visits_add_up(a, root),
    ensures
        visits_add_up(b, root),
    decreases a,
{
    a.lemma_same_statistics(b);
    if a is Expanded {
        assert forall|i: int| 0 <= i < b.kids().len() implies {
            &&& visits_add_up((#[trigger] b.kids()[i]).1, false)
            &&& a.kids()[i].1.visits() == b.kids()[i].1.visits()
        } by {
            assert(a.kids()[i].0 == b.kids()[i].0);
            a.kids()[i].1.lemma_same_statistics(b.kids()[i].1);
            lemma_visits_add_up_same(a.kids()[i].1, b.kids()[i].1, false);
        }
        lemma_child_visits_same(a.kids(), b.kids(), a.kids().len() as int);
    }
}

/// Of trees that differ in remembered scores only, a path leads to a
/// placeholder in one when it does in the other.
pub proof fn lemma_leads_same<SV, ActionType>(
    a: NodeView<SV, ActionType>,
    b: NodeView<SV, ActionType>,
    path: Seq<ActionType>,
)
    requires
        a.same_statistics(b),
        leads_to_placeholder(a, path),
    ensures
        leads_to_placeholder(b, path),
    decreases path.len(),
{
    a.lemma_same_statistics(b);
    lemma_child_index_same(a, b, path[0]);
    a.child(path[0]).lemma_same_statistics(b.child(path[0]));
    if a.child(path[0]) is Expanded {
        lemma_leads_same(a.child(path[0]), b.child(path[0]), path.skip(1));
    }
}

/// In a tree that follows the game, a path that leads to a placeholder can be
/// expanded.
pub proof fn lemma_expandable<S: State>(node: NodeView<S::V, S::ActionType>, path: Seq<S::ActionType>)
    requires
        follows_game::<S>(node),
        leads_to_placeholder(node, path),
    ensures
        expandable::<S>(node, path),
        node is Expanded,
    decreases path.len(),
{
    let i = node.child_index(path[0]);
    lemma_first_slot(node.kids(), path[0], 0);
    lemma_children_are_open_moves::<S>(node);
    lemma_offered::<S>(node.position());
    assert(node.kids()[i].0 == offered::<S>(node.position())[i]);
    if node.child(path[0]) is Expanded {
        lemma_expandable::<S>(node.child(path[0]), path.skip(1));
    } else {
        assert(expandable::<S>(grown::<S>(node, path[0]), path.skip(1)));
    }
}

/// Expanding a path that leads to a placeholder keeps a tree that follows the
/// game one that does, and puts at the end of the path a node that was never
/// visited, for a position of the game.
pub proof fn lemma_expand_follows_game<S: State>(node: NodeView<S::V, S::ActionType>, path: Seq<S::ActionType>)
    requires
        follows_game::<S>(node),
        leads_to_placeholder(node, path),
    ensures
        follows_game::<S>(expand::<S>(node, path)),
        expand::<S>(node, path).has_path(path),
        expand::<S>(node, path).at(path) is Expanded,
        expand::<S>(node, path).at(path).visits() == 0,
        S::inv(expand::<S>(node, path).at(path).position()),
    decreases path.len(),
{
    let i = node.child_index(path[0]);
    let child = node.child(path[0]);
    let rest = path.skip(1);
    let below = expand::<S>(grown::<S>(node, path[0]), rest);
    let once = expand::<S>(node, path);
    lemma_expandable::<S>(node, path);
    lemma_first_slot(node.kids(), path[0], 0);
    lemma_children_are_open_moves::<S>(node);
    lemma_offered::<S>(node.position());
    assert(node.kids()[i].0 == offered::<S>(node.position())[i]);
    lemma_child_index_update(node, path[0], below, path[0]);
    lemma_expand_keeps_expanded::<S>(grown::<S>(node, path[0]), rest);
    assert(once.kids() == node.kids().update(i, (path[0], below)));
    assert(once.child(path[0]) == below);
    if child is Expanded {
        lemma_expand_follows_game::<S>(child, rest);
    } else {
        lemma_fresh_follows_game::<S>(path[0].successor(node.position()), child.slot_weight());
        assert(rest.len() == 0);
        assert(below.has_path(rest));
        assert(below.at(rest) == below);
    }
    assert(once.at(path) == below.at(rest));
    assert forall|j: int| 0 <= j < once.kids().len() implies {
        &&& (#[trigger] once.kids()[j]).0 == fresh_slots::<S>(once.position())[j].0
        &&& once.kids()[j].1.slot_weight() == fresh_slots::<S>(once.position())[j].1.slot_weight()
        &&& once.kids()[j].1 is Expanded ==> once.kids()[j].1.position() == once.kids()[j].0.successor(
            once.position(),
        )
        &&& follows_game::<S>(once.kids()[j].1)
    } by {
        if j != i {
            assert(once.kids()[j] == node.kids()[j]);
        } else {
            assert(node.kids()[i].1 == child);
        }
    }
}

/// Visits keep a tree that follows the game one that does.
pub proof fn lemma_credit_follows_game<S: State>(
    node: NodeView<S::V, S::ActionType>,
    path: Seq<S::ActionType>,
    rewards: Seq<Reward>,
    own: Reward,
)
    requires
        follows_game::<S>(node),
    ensures
        follows_game::<S>(credit::<S>(node, path, rewards, own)),
        node is Expanded ==> credit::<S>(node, path, rewards, own) is Expanded && credit::<S>(
            node,
            path,
            rewards,
            own,
        ).position() == node.position(),
        credit::<S>(node, path, rewards, own).slot_weight() == node.slot_weight(),
    decreases path.len(),
{
    let after = credit::<S>(node, path, rewards, own);
    if path.len() == 0 || node is Placeholder || node.child_index(path[0]) >= node.kids().len() {
        if node is Expanded {
            assert(after.kids() == node.kids());
            assert forall|j: int| 0 <= j < after.kids().len() implies {
                &&& (#[trigger] after.kids()[j]).0 == fresh_slots::<S>(after.position())[j].0
                &&& after.kids()[j].1.slot_weight() == fresh_slots::<S>(after.position())[j].1.slot_weight()
                &&& after.kids()[j].1 is Expanded ==> after.kids()[j].1.position()
                    == after.kids()[j].0.successor(after.position())
                &&& follows_game::<S>(after.kids()[j].1)
            } by {
                assert(after.kids()[j] == node.kids()[j]);
            }
        }
    } else {
        let i = node.child_index(path[0]);
        let next = reward_for(S::actor(node.position()), rewards);
        let below = credit::<S>(node.child(path[0]), path.skip(1), rewards, next);
        lemma_first_slot(node.kids(), path[0], 0);
        lemma_credit_follows_game::<S>(node.child(path[0]), path.skip(1), rewards, next);
        assert(after.kids() == node.kids().update(i, (path[0], below)));
        assert forall|j: int| 0 <= j < after.kids().len() implies {
            &&& (#[trigger] after.kids()[j]).0 == fresh_slots::<S>(after.position())[j].0
            &&& after.kids()[j].1.slot_weight() == fresh_slots::<S>(after.position())[j].1.slot_weight()
            &&& after.kids()[j].1 is Expanded ==> after.kids()[j].1.position() == after.kids()[j].0.successor(
                after.position(),
            )
            &&& follows_game::<S>(after.kids()[j].1)
        } by {
            if j != i {
                assert(after.kids()[j] == node.kids()[j]);
            } else {
                assert(node.kids()[i].1 == node.child(path[0]));
            }
        }
    }
}

/// In a tree that follows the game, rewards with one entry per player hold
/// an entry for each player who chose a move of a path: a move leaves the
/// number of players as it is.
pub proof fn lemma_rewarded<S: State>(
    node: NodeView<S::V, S::ActionType>,
    path: Seq<S::ActionType>,
    rewards: Seq<Reward>,
)
    requires
        follows_game::<S>(node),
        node is Expanded ==> rewards.len() == S::players(node.position()),
    ensures
        rewarded::<S>(node, path, rewards),
    decreases path.len(),
{
    if path.len() > 0 && node is Expanded && node.child_index(path[0]) < node.kids().len() {
        let i = node.child_index(path[0]);
        lemma_first_slot(node.kids(), path[0], 0);
        lemma_children_are_open_moves::<S>(node);
        lemma_offered::<S>(node.position());
        assert(node.kids()[i].0 == offered::<S>(node.position())[i]);
        assert(follows_game::<S>(node.kids()[i].1));
        lemma_rewarded::<S>(node.child(path[0]), path.skip(1), rewards);
    }
}

/// In a tree that follows the game, the position of every expanded node has
/// as many players as that of the root.
pub proof fn lemma_players_along<S: State>(node: NodeView<S::V, S::ActionType>, path: Seq<S::ActionType>)
    requires
        follows_game::<S>(node),
        node.has_path(path),
        node.at(path) is Expanded,
    ensures
        node is Expanded,
        S::players(node.at(path).position()) == S::players(node.position()),
    decreases path.len(),
{
    if path.len() > 0 {
        let i = node.child_index(path[0]);
        lemma_first_slot(node.kids(), path[0], 0);
        lemma_children_are_open_moves::<S>(node);
        lemma_offered::<S>(node.position());
        assert(node.kids()[i].0 == offered::<S>(node.position())[i]);
        assert(follows_game::<S>(node.kids()[i].1));
        lemma_players_along::<S>(node.child(path[0]), path.skip(1));
    }
}

/// Visits along a path below a node keep a tree that follows the game one
/// that does, and leave the node with its position.
pub proof fn lemma_propagate_follows_game<S: State>(
    node: NodeView<S::V, S::ActionType>,
    path: Seq<S::ActionType>,
    rewards: Seq<Reward>,
)
    requires
        follows_game::<S>(node),
    ensures
        follows_game::<S>(propagate::<S>(node, path, rewards)),
        propagate::<S>(node, path, rewards) is Expanded <==> node is Expanded,
        node is Expanded ==> propagate::<S>(node, path, rewards).position() == node.position(),
        propagate::<S>(node, path, rewards).visits() == node.visits(),
        propagate::<S>(node, path, rewards).value() == node.value(),
        propagate::<S>(node, path, rewards).kids().len() == node.kids().len(),
{
    let after = propagate::<S>(node, path, rewards);
    if path.len() == 0 || node is Placeholder || node.child_index(path[0]) >= node.kids().len() {
    } else {
        let i = node.child_index(path[0]);
        let next = reward_for(S::actor(node.position()), rewards);
        let below = credit::<S>(node.child(path[0]), path.skip(1), rewards, next);
        lemma_first_slot(node.kids(), path[0], 0);
        lemma_credit_follows_game::<S>(node.child(path[0]), path.skip(1), rewards, next);
        assert(after.kids() == node.kids().update(i, (path[0], below)));
        assert forall|j: int| 0 <= j < after.kids().len() implies {
            &&& (#[trigger] after.kids()[j]).0 == fresh_slots::<S>(after.position())[j].0
            &&& after.kids()[j].1.slot_weight() == fresh_slots::<S>(after.position())[j].1.slot_weight()
            &&& after.kids()[j].1 is Expanded ==> after.kids()[j].1.position() == after.kids()[j].0.successor(
                after.position(),
            )
            &&& follows_game::<S>(after.kids()[j].1)
        } by {
            if j != i {
                assert(after.kids()[j] == node.kids()[j]);
            } else {
                assert(node.kids()[i].1 == node.child(path[0]));
            }
        }
    }
}

/// One iteration keeps the visits adding up: after the path to a placeholder
/// is expanded and the nodes along it below the root are visited, one more
/// visit went through the root, and the root counts as many as before.
pub proof fn lemma_iteration_visits_add_up<S: State>(
    node: NodeView<S::V, S::ActionType>,
    path: Seq<S::ActionType>,
    rewards: Seq<Reward>,
)
    requires
        visits_add_up(node, true),
        leads_to_placeholder(node, path),
        node.child(path[0]).visits() < u32::MAX,
    ensures
        visits_add_up(propagate::<S>(expand::<S>(node, path), path, rewards), true),
        played(propagate::<S>(expand::<S>(node, path), path, rewards)) == played(node) + 1,
        propagate::<S>(expand::<S>(node, path), path, rewards).visits() == node.visits(),
        propagate::<S>(expand::<S>(node, path), path, rewards).value() == node.value(),
    decreases path.len(), 0int,
{
    let i = node.child_index(path[0]);
    let child = node.child(path[0]);
    let rest = path.skip(1);
    let grew = grown::<S>(node, path[0]);
    let below = expand::<S>(grew, rest);
    let once = expand::<S>(node, path);
    let next = reward_for(S::actor(once.position()), rewards);
    let visited = credit::<S>(below, rest, rewards, next);
    let after = propagate::<S>(once, path, rewards);
    lemma_first_slot(node.kids(), path[0], 0);
    lemma_child_index_update(node, path[0], below, path[0]);
    lemma_expand_keeps_expanded::<S>(grew, rest);
    assert(node is Expanded);
    assert(once.kids() == node.kids().update(i, (path[0], below)));
    assert(once.child(path[0]) == below);
    assert(after.kids() =~= node.kids().update(i, (path[0], visited)));
    if child is Expanded {
        lemma_node_visits_add_up::<S>(child, rest, rewards, next);
    } else {
        assert(rest.len() == 0);
        assert(below == grew);
        lemma_unvisited_slots(grew.kids(), grew.kids().len() as int);
        assert(visited.kids() == grew.kids());
        assert forall|j: int| 0 <= j < visited.kids().len() implies visits_add_up(
            (#[trigger] visited.kids()[j]).1,
            false,
        ) by {}
    }
    lemma_child_visits_update(node.kids(), node.kids().len() as int, i, (path[0], visited));
    assert forall|j: int| 0 <= j < after.kids().len() implies visits_add_up(
        (#[trigger] after.kids()[j]).1,
        false,
    ) by {
        if j != i {
            assert(after.kids()[j] == node.kids()[j]);
        }
    }
}

/// The same below the root: after the path to a placeholder below a node is
/// expanded and the node and those along the path are visited, the visits
/// still add up, and the node counts one more.
pub proof fn lemma_node_visits_add_up<S: State>(
    node: NodeView<S::V, S::ActionType>,
    path: Seq<S::ActionType>,
    rewards: Seq<Reward>,
    own: Reward,
)
    requires
        visits_add_up(node, false),
        node.visits() < u32::MAX,
        leads_to_placeholder(node, path),
    ensures
        visits_add_up(credit::<S>(expand::<S>(node, path), path, rewards, own), false),
        credit::<S>(expand::<S>(node, path), path, rewards, own).visits() == node.visits() + 1,
    decreases path.len(), 1int,
{
    let i = node.child_index(path[0]);
    let once = expand::<S>(node, path);
    lemma_first_slot(node.kids(), path[0], 0);
    lemma_visits_never_rise(node, i);
    lemma_expand_keeps_expanded::<S>(node, path);
    lemma_iteration_visits_add_up::<S>(node, path, rewards);
    lemma_credit_is_propagate::<S>(once, path, rewards, own);
    let after = credit::<S>(once, path, rewards, own);
    let below = propagate::<S>(once, path, rewards);
    assert(once.visited(own).kids() == once.kids());
    assert(after.kids() == below.kids());
    assert(after.visits() == once.visits() + 1);
    assert forall|j: int| 0 <= j < after.kids().len() implies visits_add_up(
        (#[trigger] after.kids()[j]).1,
        false,
    ) by {
        assert(visits_add_up(below.kids()[j].1, false));
    }
}

/// The placeholders among the first `n` children.
pub open spec fn placeholders<SV, ActionType>(kids: Seq<(ActionType, NodeView<SV, ActionType>)>, n: int) -> int
    decreases n,
{
    if n <= 0 {
        0
    } else {
        placeholders(kids, n - 1) + (if kids[n - 1].1 is Placeholder {
            1int
        } else {
            0int
        })
    }
}

/// How many children of the node were not reached yet.
pub open spec fn open_slots<SV, ActionType>(node: NodeView<SV, ActionType>) -> int {
    placeholders(node.kids(), node.kids().len() as int)
}

/// There are as many placeholders as children that are placeholders: none
/// where no child is one, one at least where a child is one, and no more
/// than there are children.
pub proof fn lemma_placeholders<SV, ActionType>(kids: Seq<(ActionType, NodeView<SV, ActionType>)>, n: int)
    requires
        0 <= n <= kids.len(),
    ensures
        0 <= placeholders(kids, n) <= n,
        (forall|i: int| 0 <= i < n ==> (#[trigger] kids[i]).1 is Expanded) <==> placeholders(kids, n) == 0,
        (forall|i: int| 0 <= i < n ==> (#[trigger] kids[i]).1 is Placeholder) ==> placeholders(kids, n) == n,
    decreases n,
{
    if n > 0 {
        lemma_placeholders(kids, n - 1);
        if placeholders(kids, n) == 0 {
            assert forall|i: int| 0 <= i < n implies (#[trigger] kids[i]).1 is Expanded by {
                if i < n - 1 {
                    assert(kids[i].1 is Expanded);
                }
            }
        }
    }
}

/// How the number of placeholders changes when one child is replaced.
pub proof fn lemma_placeholders_update<SV, ActionType>(
    kids: Seq<(ActionType, NodeView<SV, ActionType>)>,
    n: int,
    i: int,
    slot: (ActionType, NodeView<SV, ActionType>),
)
    requires
        0 <= n <= kids.len(),
        0 <= i < kids.len(),
    ensures
        placeholders(kids.update(i, slot), n) == placeholders(kids, n) + (if i < n {
            (if slot.1 is Placeholder {
                1int
            } else {
                0int
            }) - (if kids[i].1 is Placeholder {
                1int
            } else {
                0int
            })
        } else {
            0
        }),
    decreases n,
{
    if n > 0 {
        lemma_placeholders_update(kids, n - 1, i, slot);
    }
}

/// Children of which the same are placeholders hold as many placeholders.
pub proof fn lemma_placeholders_same<SV, ActionType>(
    a: Seq<(ActionType, NodeView<SV, ActionType>)>,
    b: Seq<(ActionType, NodeView<SV, ActionType>)>,
    n: int,
)
    requires
        n <= a.len(),
        n <= b.len(),
        forall|i: int| 0 <= i < n ==> ((#[trigger] a[i]).1 is Placeholder <==> b[i].1 is Placeholder),
    ensures
        placeholders(a, n) == placeholders(b, n),
    decreases n,
{
    if n > 0 {
        lemma_placeholders_same(a, b, n - 1);
    }
}

/// An iteration into a placeholder below the root leaves one placeholder
/// less there; one that goes into an expanded child leaves as many.
pub proof fn lemma_iteration_fills<S: State>(
    before: NodeView<S::V, S::ActionType>,
    scored: NodeView<S::V, S::ActionType>,
    path: Seq<S::ActionType>,
    rewards: Seq<Reward>,
)
    requires
        scored.same_statistics(before),
        leads_to_placeholder(before, path),
    ensures
        open_slots(propagate::<S>(expand::<S>(scored, path), path, rewards)) == open_slots(before) - (if before.child(
            path[0],
        ) is Placeholder {
            1int
        } else {
            0int
        }),
        propagate::<S>(expand::<S>(scored, path), path, rewards).kids().len() == before.kids().len(),
{
    before.lemma_same_statistics(scored);
    scored.lemma_same_statistics(before);
    lemma_leads_same(before, scored, path);
    lemma_child_index_same(before, scored, path[0]);
    let i = scored.child_index(path[0]);
    let rest = path.skip(1);
    let grew = grown::<S>(scored, path[0]);
    let below = expand::<S>(grew, rest);
    let once = expand::<S>(scored, path);
    let next = reward_for(S::actor(once.position()), rewards);
    let visited = credit::<S>(below, rest, rewards, next);
    let after = propagate::<S>(once, path, rewards);
    lemma_first_slot(scored.kids(), path[0], 0);
    lemma_child_index_update(scored, path[0], below, path[0]);
    lemma_expand_keeps_expanded::<S>(grew, rest);
    assert(scored is Expanded);
    assert(once.kids() == scored.kids().update(i, (path[0], below)));
    assert(once.child(path[0]) == below);
    assert(after.kids() =~= scored.kids().update(i, (path[0], visited)));
    assert(visited is Expanded);
    assert forall|j: int| 0 <= j < before.kids().len() implies ((#[trigger] before.kids()[j]).1 is Placeholder
        <==> scored.kids()[j].1 is Placeholder) by {
        assert(scored.kids()[j].0 == before.kids()[j].0);
        scored.kids()[j].1.lemma_same_statistics(before.kids()[j].1);
    }
    lemma_placeholders_same(before.kids(), scored.kids(), before.kids().len() as int);
    lemma_placeholders_update(scored.kids(), scored.kids().len() as int, i, (path[0], visited));
}

/// What a visit along a path brings to the first node on it: one more visit,
/// and the reward of the player to move in the position of its parent, or
/// nothing where chance moves there.
pub proof fn lemma_credit_by_parent<S: State>(
    node: NodeView<S::V, S::ActionType>,
    path: Seq<S::ActionType>,
    rewards: Seq<Reward>,
    own: Reward,
)
    requires
        node is Expanded,
        path.len() > 0,
        node.child_index(path[0]) < node.kids().len(),
        node.child(path[0]) is Expanded,
        node.child(path[0]).visits() < u32::MAX,
    ensures
        credit::<S>(node, path, rewards, own).child(path[0]).visits() == node.child(path[0]).visits() + 1,
        credit::<S>(node, path, rewards, own).child(path[0]).value() == (node.child(path[0]).value()
            + reward_for(S::actor(node.position()), rewards)) as i128,
        S::actor(node.position()) is GameAction ==> credit::<S>(node, path, rewards, own).child(
            path[0],
        ).value() == node.child(path[0]).value(),
{
    let i = node.child_index(path[0]);
    let next = reward_for(S::actor(node.position()), rewards);
    let below = credit::<S>(node.child(path[0]), path.skip(1), rewards, next);
    let after = credit::<S>(node, path, rewards, own);
    lemma_first_slot(node.kids(), path[0], 0);
    lemma_child_index_update(node.visited(own), path[0], below, path[0]);
    assert(node.visited(own).kids() == node.kids());
    assert(after.kids() == node.kids().update(i, (path[0], below)));
    assert(after.child(path[0]) == below);
}

/// What the visits along a path bring at the root: the child that the first
/// move leads into counts one more visit and adds the reward of the player
/// to move at the root, or nothing where chance moves there. The root keeps
/// its own count and sum, and every other child stays as it is.
pub proof fn lemma_propagate_by_parent<S: State>(
    root: NodeView<S::V, S::ActionType>,
    path: Seq<S::ActionType>,
    rewards: Seq<Reward>,
)
    requires
        root is Expanded,
        path.len() > 0,
        root.child_index(path[0]) < root.kids().len(),
        root.child(path[0]) is Expanded,
        root.child(path[0]).visits() < u32::MAX,
    ensures
        propagate::<S>(root, path, rewards).visits() == root.visits(),
        propagate::<S>(root, path, rewards).value() == root.value(),
        propagate::<S>(root, path, rewards).kids().len() == root.kids().len(),
        propagate::<S>(root, path, rewards).child(path[0]).visits() == root.child(path[0]).visits() + 1,
        propagate::<S>(root, path, rewards).child(path[0]).value() == (root.child(path[0]).value()
            + reward_for(S::actor(root.position()), rewards)) as i128,
        S::actor(root.position()) is GameAction ==> propagate::<S>(root, path, rewards).child(path[0]).value()
            == root.child(path[0]).value(),
        forall|j: int|
            0 <= j < root.kids().len() && j != root.child_index(path[0]) ==> #[trigger] propagate::<S>(
                root,
                path,
                rewards,
            ).kids()[j] == root.kids()[j],
{
    let i = root.child_index(path[0]);
    let next = reward_for(S::actor(root.position()), rewards);
    let below = credit::<S>(root.child(path[0]), path.skip(1), rewards, next);
    let after = propagate::<S>(root, path, rewards);
    lemma_first_slot(root.kids(), path[0], 0);
    lemma_child_index_update(root, path[0], below, path[0]);
    assert(after.kids() == root.kids().update(i, (path[0], below)));
    assert(after.child(path[0]) == below);
}

} // verus!
