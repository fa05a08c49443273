use vstd::prelude::*;

use super::game::{Action, State};
use super::invariants::{
    follows_game, leads_to_placeholder, lemma_child_index_same, lemma_child_index_update,
    lemma_expand_follows_game, lemma_expand_keeps_expanded, lemma_expandable, lemma_follows_game_same,
    lemma_leads_same, lemma_players_along, lemma_propagate_follows_game, lemma_rewarded,
    lemma_visits_never_rise, visits_add_up,
};
use super::model::{
    credit, creditable, expand, fresh, grown, lemma_first_slot, propagable, propagate, reward_for, NodeView,
};
use super::scoring::{answers, UcbTerms};
use super::tree::{lemma_selects_leads, selects, Selection, Tree};
use super::{Reward, Score};

verus! {

/// Whether `path` leads from `node` through expanded nodes to an expanded
/// node.
pub open spec fn trodden<SV, ActionType>(node: NodeView<SV, ActionType>, path: Seq<ActionType>) -> bool
    decreases path.len(),
{
    &&& node is Expanded
    &&& path.len() > 0 ==> node.child_index(path[0]) < node.kids().len() && trodden(
        node.child(path[0]),
        path.skip(1),
    )
}

/// Whether no node was visited more often than its parent.
pub open spec fn visits_fall<SV, ActionType>(node: NodeView<SV, ActionType>) -> bool
    decreases node,
{
    match node {
        NodeView::Placeholder { .. } => true,
        NodeView::Expanded { children, visit_count, .. } => forall|i: int|
            0 <= i < children.len() ==> (#[trigger] children[i]).1.visits() <= visit_count && visits_fall(
                children[i].1,
            ),
    }
}

/// Whether below the root no node was visited more often than its parent.
/// The root itself is never visited, so nothing is asked of its own count.
pub open spec fn falls_below<SV, ActionType>(root: NodeView<SV, ActionType>) -> bool {
    forall|i: int| 0 <= i < root.kids().len() ==> visits_fall((#[trigger] root.kids()[i]).1)
}

/// Whether every child of the root has room for one more visit.
pub open spec fn roomy<SV, ActionType>(root: NodeView<SV, ActionType>) -> bool {
    forall|i: int| 0 <= i < root.kids().len() ==> (#[trigger] root.kids()[i]).1.visits() < u32::MAX
}

/// Where the visits add up below a node that is not the root, no node was
/// visited more often than its parent.
pub proof fn lemma_add_up_falls<SV, ActionType>(node: NodeView<SV, ActionType>)
    requires
        visits_add_up(node, false),
    ensures
        visits_fall(node),
    decreases node,
{
    if node is Expanded {
        assert forall|i: int| 0 <= i < node.kids().len() implies (#[trigger] node.kids()[i]).1.visits()
            <= node.visits() && visits_fall(node.kids()[i].1) by {
            lemma_visits_never_rise(node, i);
            lemma_add_up_falls(node.kids()[i].1);
        }
    }
}

/// Where the visits add up below the root, no node below it was visited
/// more often than its parent.
pub proof fn lemma_add_up_falls_below<SV, ActionType>(root: NodeView<SV, ActionType>)
    requires
        visits_add_up(root, true),
    ensures
        falls_below(root),
{
    assert forall|i: int| 0 <= i < root.kids().len() implies visits_fall((#[trigger] root.kids()[i]).1) by {
        lemma_add_up_falls(root.kids()[i].1);
    }
}

/// Of trees that differ in remembered scores only, one has the visits
/// falling below the root, and room in the children of the root, when the
/// other has.
pub proof fn lemma_falls_below_same<SV, ActionType>(a: NodeView<SV, ActionType>, b: NodeView<SV, ActionType>)
    requires
        a.same_statistics(b),
    ensures
        falls_below(a) ==> falls_below(b),
        roomy(a) ==> roomy(b),
{
    a.lemma_same_statistics(b);
    assert forall|i: int| 0 <= i < b.kids().len() implies {
        &&& visits_fall(a.kids()[i].1) ==> visits_fall((#[trigger] b.kids()[i]).1)
        &&& a.kids()[i].1.visits() == b.kids()[i].1.visits()
    } by {
        assert(a.kids()[i].0 == b.kids()[i].0);
        a.kids()[i].1.lemma_same_statistics(b.kids()[i].1);
        lemma_steps_same(a.kids()[i].1, b.kids()[i].1, Seq::empty());
    }
    if falls_below(a) {
        assert forall|i: int| 0 <= i < b.kids().len() implies visits_fall((#[trigger] b.kids()[i]).1) by {
            assert(visits_fall(a.kids()[i].1));
        }
    }
    if roomy(a) {
        assert forall|i: int| 0 <= i < b.kids().len() implies (#[trigger] b.kids()[i]).1.visits() < u32::MAX by {
            assert(a.kids()[i].1.visits() < u32::MAX);
        }
    }
}

/// Expanding a path keeps the visits falling below the root, and the room
/// in the children of the root.
pub proof fn lemma_expand_keeps_below<S: State>(root: NodeView<S::V, S::ActionType>, along: Seq<S::ActionType>)
    ensures
        falls_below(root) ==> falls_below(expand::<S>(root, along)),
        roomy(root) ==> roomy(expand::<S>(root, along)),
{
    if along.len() == 0 || root is Placeholder || root.child_index(along[0]) >= root.kids().len() {
    } else {
        let i = root.child_index(along[0]);
        let grew = grown::<S>(root, along[0]);
        let below = expand::<S>(grew, along.skip(1));
        let after = expand::<S>(root, along);
        lemma_first_slot(root.kids(), along[0], 0);
        lemma_expand_keeps_expanded::<S>(grew, along.skip(1));
        lemma_expand_keeps_steps::<S>(grew, along.skip(1), Seq::empty());
        assert(after.kids() == root.kids().update(i, (along[0], below)));
        if root.child(along[0]) is Placeholder {
            lemma_fresh_visits_fall::<S>(along[0].successor(root.position()), root.child(along[0]).slot_weight());
        }
        if falls_below(root) {
            assert forall|j: int| 0 <= j < after.kids().len() implies visits_fall(
                (#[trigger] after.kids()[j]).1,
            ) by {
                if j != i {
                    assert(after.kids()[j] == root.kids()[j]);
                } else {
                    assert(visits_fall(root.kids()[i].1));
                }
            }
        }
        if roomy(root) {
            assert forall|j: int| 0 <= j < after.kids().len() implies (#[trigger] after.kids()[j]).1.visits()
                < u32::MAX by {
                if j != i {
                    assert(after.kids()[j] == root.kids()[j]);
                } else {
                    assert(root.kids()[i].1.visits() < u32::MAX);
                }
            }
        }
    }
}

/// Visits along a trodden path below the root keep every trodden path
/// trodden.
pub proof fn lemma_propagate_keeps_paths<S: State>(
    root: NodeView<S::V, S::ActionType>,
    along: Seq<S::ActionType>,
    rewards: Seq<Reward>,
    path: Seq<S::ActionType>,
)
    requires
        trodden(root, path),
    ensures
        trodden(propagate::<S>(root, along, rewards), path),
{
    let after = propagate::<S>(root, along, rewards);
    if along.len() == 0 || root.child_index(along[0]) >= root.kids().len() {
    } else {
        let i = root.child_index(along[0]);
        let next = reward_for(S::actor(root.position()), rewards);
        let below = credit::<S>(root.child(along[0]), along.skip(1), rewards, next);
        lemma_first_slot(root.kids(), along[0], 0);
        assert(after.kids() == root.kids().update(i, (along[0], below)));
        if path.len() > 0 {
            lemma_child_index_update(root, along[0], below, path[0]);
            lemma_first_slot(root.kids(), path[0], 0);
            assert(after.child_index(path[0]) == root.child_index(path[0]));
            assert(trodden(root.child(path[0]), path.skip(1)));
            if root.child_index(path[0]) == i {
                assert(root.child(path[0]) == root.child(along[0]));
                assert(after.kids()[i] == (along[0], below));
                assert(after.child(path[0]) == below);
                lemma_credit_keeps_paths::<S>(root.child(along[0]), along.skip(1), rewards, next, path.skip(1));
            } else {
                assert(after.kids()[root.child_index(path[0])] == root.kids()[root.child_index(path[0])]);
                assert(after.child(path[0]) == root.child(path[0]));
            }
        }
    }
}

/// Visits along a trodden path below the root, whose first node has room
/// for one more, keep the visits falling below the root.
pub proof fn lemma_propagate_keeps_below<S: State>(
    root: NodeView<S::V, S::ActionType>,
    along: Seq<S::ActionType>,
    rewards: Seq<Reward>,
)
    requires
        trodden(root, along),
        falls_below(root),
        along.len() > 0 ==> root.child(along[0]).visits() < u32::MAX,
    ensures
        falls_below(propagate::<S>(root, along, rewards)),
{
    let after = propagate::<S>(root, along, rewards);
    if along.len() == 0 {
    } else {
        let i = root.child_index(along[0]);
        let next = reward_for(S::actor(root.position()), rewards);
        let below = credit::<S>(root.child(along[0]), along.skip(1), rewards, next);
        lemma_first_slot(root.kids(), along[0], 0);
        assert(after.kids() == root.kids().update(i, (along[0], below)));
        assert(visits_fall(root.kids()[i].1));
        lemma_credit_keeps_steps::<S>(root.child(along[0]), along.skip(1), rewards, next, Seq::empty());
        assert forall|j: int| 0 <= j < after.kids().len() implies visits_fall((#[trigger] after.kids()[j]).1) by {
            if j != i {
                assert(after.kids()[j] == root.kids()[j]);
            }
        }
    }
}

/// Where the tree follows the game and the visits fall below the root, the
/// nodes along a trodden path below the root can be visited if the first of
/// them has room for one more visit.
pub proof fn lemma_propagable<S: State>(root: NodeView<S::V, S::ActionType>, path: Seq<S::ActionType>)
    requires
        follows_game::<S>(root),
        falls_below(root),
        trodden(root, path),
        path.len() > 0 ==> root.child(path[0]).visits() < u32::MAX,
    ensures
        propagable::<S>(root, path),
{
    if path.len() > 0 {
        let i = root.child_index(path[0]);
        lemma_first_slot(root.kids(), path[0], 0);
        assert(visits_fall(root.kids()[i].1));
        assert(follows_game::<S>(root.kids()[i].1));
        lemma_trodden_creditable::<S>(root.child(path[0]), path.skip(1));
    }
}

/// In the node that is created for a position no node was visited more often
/// than its parent.
pub proof fn lemma_fresh_visits_fall<S: State>(v: S::V, weight: Option<u32>)
    ensures
        visits_fall(fresh::<S>(v, weight)),
{
    let node = fresh::<S>(v, weight);
    assert forall|i: int| 0 <= i < node.kids().len() implies (#[trigger] node.kids()[i]).1.visits() <= 0
        && visits_fall(node.kids()[i].1) by {}
}

/// Trees that differ in remembered scores only have the same trodden paths,
/// and in one no node was visited more often than its parent if that is so
/// in the other.
pub proof fn lemma_steps_same<SV, ActionType>(
    a: NodeView<SV, ActionType>,
    b: NodeView<SV, ActionType>,
    path: Seq<ActionType>,
)
    requires
        a.same_statistics(b),
    ensures
        trodden(a, path) ==> trodden(b, path),
        visits_fall(a) ==> visits_fall(b),
    decreases a, path.len(),
{
    a.lemma_same_statistics(b);
    if trodden(a, path) && path.len() > 0 {
        lemma_child_index_same(a, b, path[0]);
        lemma_steps_same(a.child(path[0]), b.child(path[0]), path.skip(1));
    }
    if visits_fall(a) && a is Expanded {
        assert forall|i: int| 0 <= i < b.kids().len() implies (#[trigger] b.kids()[i]).1.visits()
            <= b.visits() && visits_fall(b.kids()[i].1) by {
            assert(a.kids()[i].0 == b.kids()[i].0);
            a.kids()[i].1.lemma_same_statistics(b.kids()[i].1);
            lemma_steps_same(a.kids()[i].1, b.kids()[i].1, Seq::empty());
        }
    }
}

/// Expanding a path keeps every trodden path trodden, and adds no visits.
pub proof fn lemma_expand_keeps_steps<S: State>(
    node: NodeView<S::V, S::ActionType>,
    along: Seq<S::ActionType>,
    path: Seq<S::ActionType>,
)
    ensures
        trodden(node, path) ==> trodden(expand::<S>(node, along), path),
        visits_fall(node) ==> visits_fall(expand::<S>(node, along)),
        expand::<S>(node, along).visits() == node.visits(),
    decreases along.len(),
{
    if along.len() == 0 || node is Placeholder || node.child_index(along[0]) >= node.kids().len() {
    } else {
        let i = node.child_index(along[0]);
        let grew = grown::<S>(node, along[0]);
        let below = expand::<S>(grew, along.skip(1));
        let after = expand::<S>(node, along);
        lemma_first_slot(node.kids(), along[0], 0);
        lemma_expand_keeps_expanded::<S>(grew, along.skip(1));
        assert(after.kids() == node.kids().update(i, (along[0], below)));
        if trodden(node, path) && path.len() > 0 {
            lemma_child_index_update(node, along[0], below, path[0]);
            lemma_first_slot(node.kids(), path[0], 0);
            let j = node.child_index(path[0]);
            assert(after.child_index(path[0]) == j);
            assert(trodden(node.child(path[0]), path.skip(1)));
            if j == i {
                assert(node.child(path[0]) == node.child(along[0]));
                assert(node.child(along[0]) is Expanded);
                assert(grew == node.child(along[0]));
                lemma_expand_keeps_steps::<S>(grew, along.skip(1), path.skip(1));
                assert(after.kids()[j] == (along[0], below));
                assert(after.child(path[0]) == below);
            } else {
                assert(after.kids()[j] == node.kids()[j]);
                assert(after.child(path[0]) == node.child(path[0]));
            }
        }
        if visits_fall(node) {
            if node.child(along[0]) is Expanded {
                assert(visits_fall(node.kids()[i].1));
            } else {
                lemma_fresh_visits_fall::<S>(along[0].successor(node.position()), node.child(
                    along[0],
                ).slot_weight());
            }
            lemma_expand_keeps_steps::<S>(grew, along.skip(1), Seq::empty());
            assert forall|j: int| 0 <= j < after.kids().len() implies (#[trigger] after.kids()[j]).1.visits()
                <= after.visits() && visits_fall(after.kids()[j].1) by {
                if j != i {
                    assert(after.kids()[j] == node.kids()[j]);
                } else {
                    assert(node.kids()[i].1.visits() <= node.visits());
                }
            }
        }
    }
}

/// Visits along a trodden path keep every trodden path trodden, and no node
/// comes to be visited more often than its parent.
pub proof fn lemma_credit_keeps_steps<S: State>(
    node: NodeView<S::V, S::ActionType>,
    along: Seq<S::ActionType>,
    rewards: Seq<Reward>,
    own: Reward,
    path: Seq<S::ActionType>,
)
    requires
        trodden(node, along),
        node.visits() < u32::MAX,
    ensures
        trodden(node, path) ==> trodden(credit::<S>(node, along, rewards, own), path),
        visits_fall(node) ==> visits_fall(credit::<S>(node, along, rewards, own)),
        credit::<S>(node, along, rewards, own).visits() == node.visits() + 1,
    decreases along.len(),
{
    let after = credit::<S>(node, along, rewards, own);
    if along.len() == 0 {
        assert(after.kids() == node.kids());
        if visits_fall(node) {
            assert forall|j: int| 0 <= j < after.kids().len() implies (#[trigger] after.kids()[j]).1.visits()
                <= after.visits() && visits_fall(after.kids()[j].1) by {
                assert(after.kids()[j] == node.kids()[j]);
            }
        }
        if trodden(node, path) && path.len() > 0 {
            assert(after.child_index(path[0]) == node.child_index(path[0]));
            assert(after.child(path[0]) == node.child(path[0]));
        }
    } else {
        let i = node.child_index(along[0]);
        let next = reward_for(S::actor(node.position()), rewards);
        let below = credit::<S>(node.child(along[0]), along.skip(1), rewards, next);
        lemma_first_slot(node.kids(), along[0], 0);
        assert(after.kids() == node.kids().update(i, (along[0], below)));
        if visits_fall(node) {
            assert(node.kids()[i].1.visits() <= node.visits());
        }
        if visits_fall(node) || (trodden(node, path) && path.len() > 0 && node.child_index(path[0]) == i) {
            if node.child(along[0]).visits() < u32::MAX {
                lemma_credit_keeps_steps::<S>(
                    node.child(along[0]),
                    along.skip(1),
                    rewards,
                    next,
                    path.skip(1),
                );
            }
        }
        if trodden(node, path) && path.len() > 0 {
            lemma_child_index_update(node.visited(own), along[0], below, path[0]);
            lemma_first_slot(node.kids(), path[0], 0);
            assert(node.visited(own).kids() == node.kids());
            assert(after.child_index(path[0]) == node.child_index(path[0]));
            assert(trodden(node.child(path[0]), path.skip(1)));
            if node.child_index(path[0]) == i {
                assert(node.child(path[0]) == node.child(along[0]));
                assert(after.kids()[i] == (along[0], below));
                assert(after.child(path[0]) == below);
                lemma_credit_keeps_expanded::<S>(node.child(along[0]), along.skip(1), rewards, next);
                if node.child(along[0]).visits() < u32::MAX {
                } else {
                    lemma_credit_keeps_paths::<S>(
                        node.child(along[0]),
                        along.skip(1),
                        rewards,
                        next,
                        path.skip(1),
                    );
                }
            } else {
                assert(after.kids()[node.child_index(path[0])] == node.kids()[node.child_index(path[0])]);
                assert(after.child(path[0]) == node.child(path[0]));
            }
        }
        if visits_fall(node) {
            assert forall|j: int| 0 <= j < after.kids().len() implies (#[trigger] after.kids()[j]).1.visits()
                <= after.visits() && visits_fall(after.kids()[j].1) by {
                if j != i {
                    assert(after.kids()[j] == node.kids()[j]);
                }
            }
        }
    }
}

/// Visits leave an expanded node expanded.
pub proof fn lemma_credit_keeps_expanded<S: State>(
    node: NodeView<S::V, S::ActionType>,
    along: Seq<S::ActionType>,
    rewards: Seq<Reward>,
    own: Reward,
)
    requires
        node is Expanded,
    ensures
        credit::<S>(node, along, rewards, own) is Expanded,
{
}

/// Visits keep every trodden path trodden.
pub proof fn lemma_credit_keeps_paths<S: State>(
    node: NodeView<S::V, S::ActionType>,
    along: Seq<S::ActionType>,
    rewards: Seq<Reward>,
    own: Reward,
    path: Seq<S::ActionType>,
)
    requires
        trodden(node, path),
    ensures
        trodden(credit::<S>(node, along, rewards, own), path),
    decreases along.len(),
{
    let after = credit::<S>(node, along, rewards, own);
    if along.len() == 0 || node.child_index(along[0]) >= node.kids().len() {
        assert(after.kids() == node.kids());
        if path.len() > 0 {
            assert(after.child_index(path[0]) == node.child_index(path[0]));
            assert(after.child(path[0]) == node.child(path[0]));
        }
    } else {
        let i = node.child_index(along[0]);
        let next = reward_for(S::actor(node.position()), rewards);
        let below = credit::<S>(node.child(along[0]), along.skip(1), rewards, next);
        lemma_first_slot(node.kids(), along[0], 0);
        assert(after.kids() == node.kids().update(i, (along[0], below)));
        if path.len() > 0 {
            lemma_child_index_update(node.visited(own), along[0], below, path[0]);
            lemma_first_slot(node.kids(), path[0], 0);
            assert(node.visited(own).kids() == node.kids());
            assert(after.child_index(path[0]) == node.child_index(path[0]));
            assert(trodden(node.child(path[0]), path.skip(1)));
            if node.child_index(path[0]) == i {
                assert(node.child(path[0]) == node.child(along[0]));
                assert(after.kids()[i] == (along[0], below));
                assert(after.child(path[0]) == below);
                lemma_credit_keeps_paths::<S>(node.child(along[0]), along.skip(1), rewards, next, path.skip(1));
            } else {
                assert(after.kids()[node.child_index(path[0])] == node.kids()[node.child_index(path[0])]);
                assert(after.child(path[0]) == node.child(path[0]));
            }
        }
    }
}

/// A path that leads to a placeholder is trodden once it is expanded.
pub proof fn lemma_expanded_is_trodden<S: State>(node: NodeView<S::V, S::ActionType>, path: Seq<S::ActionType>)
    requires
        node is Expanded,
        leads_to_placeholder(node, path),
    ensures
        trodden(expand::<S>(node, path), path),
    decreases path.len(),
{
    let i = node.child_index(path[0]);
    let grew = grown::<S>(node, path[0]);
    let below = expand::<S>(grew, path.skip(1));
    let after = expand::<S>(node, path);
    lemma_first_slot(node.kids(), path[0], 0);
    lemma_child_index_update(node, path[0], below, path[0]);
    lemma_expand_keeps_expanded::<S>(grew, path.skip(1));
    assert(after.kids() == node.kids().update(i, (path[0], below)));
    assert(after.child(path[0]) == below);
    if node.child(path[0]) is Expanded {
        lemma_expanded_is_trodden::<S>(node.child(path[0]), path.skip(1));
    } else {
        assert(trodden(below, path.skip(1)));
    }
}

/// Where the tree follows the game and no node was visited more often than
/// its parent, a node with room for one more visit can be visited, and with
/// it the nodes along a trodden path below it.
pub proof fn lemma_trodden_creditable<S: State>(node: NodeView<S::V, S::ActionType>, path: Seq<S::ActionType>)
    requires
        follows_game::<S>(node),
        visits_fall(node),
        node.visits() < u32::MAX,
        trodden(node, path),
    ensures
        creditable::<S>(node, path),
        node.has_path(path),
        S::inv(node.at(path).position()),
        node.at(path) is Expanded,
    decreases path.len(),
{
    if path.len() > 0 {
        let i = node.child_index(path[0]);
        lemma_first_slot(node.kids(), path[0], 0);
        assert(node.kids()[i].1.visits() <= node.visits());
        assert(follows_game::<S>(node.kids()[i].1));
        lemma_trodden_creditable::<S>(node.child(path[0]), path.skip(1));
    }
}

impl<StateType, ActionType> Tree<StateType, ActionType> where
    StateType: State<ActionType = ActionType>,
    ActionType: Action<StateType = StateType>,
 {
    /// Whether the tree is ready for the steps of a search: it is well
    /// formed, follows the game, and below the root no node was visited more
    /// often than its parent.
    pub open spec fn ready(&self) -> bool {
        &&& self.wf()
        &&& follows_game::<StateType>(self@)
        &&& falls_below(self@)
    }

    /// The first step of an iteration: selects a path to a placeholder and
    /// expands it. The path is then trodden, and stays so whatever steps
    /// follow. Nothing is returned where the tree is fully explored.
    pub fn begin_iteration<F>(&mut self, scorer: &F) -> (selected: Option<Vec<ActionType>>) where
        F: Fn(UcbTerms) -> Score,

        requires
            old(self).ready(),
            answers(*scorer),
        ensures
            final(self).ready(),
            final(self).constant == old(self).constant,
            final(self)@.visits() == old(self)@.visits(),
            roomy(old(self)@) ==> roomy(final(self)@),
            forall|path: Seq<ActionType>| trodden(old(self)@, path) ==> trodden(final(self)@, path),
            match selected {
                None => old(self)@.fully_explored() && final(self)@.same_statistics(old(self)@),
                Some(path) => {
                    &&& selects(old(self)@, old(self).constant, *scorer, path@)
                    &&& trodden(final(self)@, path@)
                    &&& exists|scored: NodeView<StateType::V, ActionType>|
                        #![trigger scored.same_statistics(old(self)@)]
                        scored.same_statistics(old(self)@) && final(self)@ == expand::<StateType>(scored, path@)
                },
            },
    {
        let ghost before = self@;
        let selection = self.selection(scorer);
        let ghost scored = self@;
        proof {
            scored.lemma_same_statistics(before);
            before.lemma_same_statistics(scored);
            lemma_follows_game_same::<StateType>(before, scored);
            lemma_falls_below_same(before, scored);
            assert forall|path: Seq<ActionType>| trodden(before, path) implies trodden(scored, path) by {
                lemma_steps_same(before, scored, path);
            }
        }
        match selection {
            Selection::FullyExplored => None,
            Selection::Selection(path) => {
                proof {
                    lemma_selects_leads(before, self.constant, *scorer, path@);
                    lemma_leads_same(before, scored, path@);
                    lemma_expandable::<StateType>(scored, path@);
                    lemma_expand_follows_game::<StateType>(scored, path@);
                    lemma_expanded_is_trodden::<StateType>(scored, path@);
                    lemma_expand_keeps_below::<StateType>(scored, path@);
                    lemma_expand_keeps_steps::<StateType>(scored, path@, Seq::empty());
                    assert forall|other: Seq<ActionType>| trodden(before, other) implies trodden(
                        expand::<StateType>(scored, path@),
                        other,
                    ) by {
                        lemma_expand_keeps_steps::<StateType>(scored, path@, other);
                    }
                    assert(path@.skip(0) =~= path@);
                }
                self.root.expand_along(&path, 0);
                Some(path)
            },
        }
    }

    /// The position at the end of a trodden path: where the play-out of an
    /// iteration starts.
    pub fn leaf_state(&self, path: &Vec<ActionType>) -> (state: &StateType)
        requires
            self.ready(),
            trodden(self@, path@),
        ensures
            StateType::inv(state@),
            state@ == self@.at(path@).position(),
            StateType::players(state@) == StateType::players(self@.position()),
    {
        proof {
            lemma_trodden_paths::<StateType>(self@, path@);
            lemma_players_along::<StateType>(self@, path@);
        }
        self.root.descendant(path).state()
    }

    /// The last step of an iteration: visits the nodes along a trodden path
    /// below the root with the rewards of the play-out, one per player.
    /// Nothing is done where the first node on the path has no room for one
    /// more visit.
    pub fn finish_iteration(&mut self, path: &Vec<ActionType>, reward: &Vec<Reward>) -> (counted: bool)
        requires
            old(self).ready(),
            trodden(old(self)@, path@),
            reward@.len() == StateType::players(old(self)@.position()),
        ensures
            final(self).ready(),
            final(self).constant == old(self).constant,
            forall|other: Seq<ActionType>| trodden(old(self)@, other) ==> trodden(final(self)@, other),
            counted == (path@.len() == 0 || old(self)@.child(path@[0]).visits() < u32::MAX),
            counted ==> final(self)@ == propagate::<StateType>(old(self)@, path@, reward@),
            !counted ==> final(self)@ == old(self)@,
    {
        if path.len() > 0 && self.root.get_child(path[0]).visit_count() == u32::MAX {
            return false;
        }
        proof {
            lemma_propagable::<StateType>(self@, path@);
            lemma_rewarded::<StateType>(self@, path@, reward@);
            lemma_propagate_follows_game::<StateType>(self@, path@, reward@);
            lemma_propagate_keeps_below::<StateType>(self@, path@, reward@);
            assert forall|other: Seq<ActionType>| trodden(self@, other) implies trodden(
                propagate::<StateType>(self@, path@, reward@),
                other,
            ) by {
                lemma_propagate_keeps_paths::<StateType>(self@, path@, reward@, other);
            }
        }
        self.credit_path(path, reward);
        true
    }
}

/// In a tree that follows the game a trodden path names an expanded node
/// with a position of the game.
pub proof fn lemma_trodden_paths<S: State>(node: NodeView<S::V, S::ActionType>, path: Seq<S::ActionType>)
    requires
        follows_game::<S>(node),
        trodden(node, path),
    ensures
        node.has_path(path),
        node.at(path) is Expanded,
        S::inv(node.at(path).position()),
    decreases path.len(),
{
    if path.len() > 0 {
        let i = node.child_index(path[0]);
        lemma_first_slot(node.kids(), path[0], 0);
        assert(follows_game::<S>(node.kids()[i].1));
        lemma_trodden_paths::<S>(node.child(path[0]), path.skip(1));
    }
}

} // verus!
