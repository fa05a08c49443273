use vstd::laws_eq::obeys_concrete_eq;
use vstd::prelude::*;
use vstd::std_specs::cmp::PartialEqSpec;

pub use super::model::NodeView;
pub use super::scoring::{best_pick, UcbTerms};

use super::game::{lemma_offered, offered, Action, Actor, ActorView, State};
use super::model::{
    credit, creditable, expand, expandable, first_slot, fresh, fresh_slots, grown, lemma_credit_is_propagate,
    lemma_first_slot, lemma_first_slot_same, propagable, propagate, rewarded,
};
use super::{Reward, Score, SCORE_INFINITY};

verus! {

/// The most recently computed selection score of a node, with the statistics
/// it was computed from.
#[derive(Debug, Clone, Copy)]
pub struct CachedUcb {
    pub ucb: Score,
    pub value_sum: i128,
    pub visit_count: u32,
    pub parent_visit_count: u32,
}

/// A node of the search tree.
#[derive(Debug)]
pub enum Node<StateType, ActionType> {
    /// A position that was reached, with one child slot per open move.
    Expanded {
        state: StateType,
        children: Vec<(ActionType, Node<StateType, ActionType>)>,
        visit_count: u32,
        /// Sum of the rewards of the player who chose the move into this node.
        value_sum: i128,
        cached_ucb: Option<CachedUcb>,
        cached_fully_explored: Option<bool>,
        game_action: bool,
        weight: Option<u32>,
    },
    /// A child slot that was not reached yet.
    Placeholder { weight: Option<u32> },
}

/// The position of the first slot for `action`, or the number of slots if
/// there is none.
pub fn find_slot<T, ActionType: Action>(slots: &Vec<(ActionType, T)>, action: ActionType) -> (i: usize)
    ensures
        i == first_slot(slots@, action, 0),
        i <= slots.len(),
{
    let mut i: usize = 0;
    while i < slots.len()
        invariant
            i <= slots.len(),
            first_slot(slots@, action, 0) == first_slot(slots@, action, i as int),
        decreases slots.len() - i,
    {
        proof {
            ActionType::lemma_eq();
            reveal(obeys_concrete_eq);
        }
        if slots[i].0 == action {
            return i;
        }
        i += 1;
    }
    i
}

impl<StateType: View, ActionType> View for Node<StateType, ActionType> {
    type V = NodeView<StateType::V, ActionType>;

    open spec fn view(&self) -> NodeView<StateType::V, ActionType> {
        self.model()
    }
}

impl<StateType: View, ActionType> Node<StateType, ActionType> {
    /// The mathematical value of the node, which `@` gives.
    pub open spec fn model(&self) -> NodeView<StateType::V, ActionType>
        decreases self,
    {
        match self {
            Node::Placeholder { weight } => NodeView::Placeholder { weight: *weight },
            Node::Expanded {
                state,
                children,
                visit_count,
                value_sum,
                cached_ucb,
                game_action,
                weight,
                ..
            } => NodeView::Expanded {
                state: state@,
                children: Seq::new(
                    children@.len(),
                    |i: int|
                        if 0 <= i < children@.len() {
                            (children@[i].0, children@[i].1.model())
                        } else {
                            arbitrary()
                        },
                ),
                visit_count: *visit_count,
                value_sum: *value_sum,
                cached_ucb: *cached_ucb,
                game_action: *game_action,
                weight: *weight,
            },
        }
    }

    /// The child slots as they are stored, none for a placeholder.
    pub open spec fn slots(&self) -> Seq<(ActionType, Node<StateType, ActionType>)> {
        match self {
            Node::Expanded { children, .. } => children@,
            Node::Placeholder { .. } => Seq::empty(),
        }
    }

    /// The memo of whether the subtree is fully explored.
    pub open spec fn memo(&self) -> Option<bool> {
        match self {
            Node::Expanded { cached_fully_explored, .. } => *cached_fully_explored,
            Node::Placeholder { .. } => None,
        }
    }

    /// The node is well formed: no move has two child slots, the value is
    /// within what the visits can have added, a remembered score is infinity
    /// exactly where it is remembered for no visit, a memo of whether the
    /// subtree is fully explored is right, and the same holds of every child.
    pub open spec fn wf(&self) -> bool
        decreases self,
    {
        match self {
            Node::Placeholder { .. } => true,
            Node::Expanded { children, cached_fully_explored, .. } => {
                &&& forall|i: int| 0 <= i < children@.len() ==> (#[trigger] children@[i]).1.wf()
                &&& self@.distinct_slots()
                &&& self@.value_in_span()
                &&& self@.cache_sound()
                &&& (*cached_fully_explored matches Some(b) ==> b == self@.fully_explored())
            },
        }
    }

    /// The view of a node lists the views of its children.
    pub proof fn lemma_view_kids(&self)
        ensures
            self@.kids().len() == self.slots().len(),
            forall|i: int|
                0 <= i < self.slots().len() ==> #[trigger] self@.kids()[i] == (
                    self.slots()[i].0,
                    self.slots()[i].1@,
                ),
            self is Expanded <==> self@ is Expanded,
    {
        match self {
            Node::Placeholder { .. } => {},
            Node::Expanded { children, .. } => {},
        }
    }

    /// How often the node was visited, never for a placeholder.
    pub fn visit_count(&self) -> (count: u32)
        ensures
            count == self@.visits(),
    {
        match self {
            Node::Expanded { visit_count, .. } => *visit_count,
            Node::Placeholder { .. } => 0,
        }
    }

    /// Whether chance moves in the position of the node.
    pub fn game_action(&self) -> (chance: bool)
        ensures
            chance == self@.is_chance(),
    {
        match self {
            Node::Expanded { game_action, .. } => *game_action,
            Node::Placeholder { .. } => false,
        }
    }

    /// The sum of the rewards that the visits brought.
    pub fn value_sum(&self) -> (sum: i128)
        ensures
            sum == self@.value(),
    {
        match self {
            Node::Expanded { value_sum, .. } => *value_sum,
            Node::Placeholder { .. } => 0,
        }
    }

    /// The weight of the slot, one where it carries none.
    pub fn weight(&self) -> (weight: u32)
        ensures
            weight == (match self@.slot_weight() {
                Some(w) => w,
                None => 1u32,
            }),
    {
        match self {
            Node::Expanded { weight, .. } => match weight {
                Some(w) => *w,
                None => 1,
            },
            Node::Placeholder { weight } => match weight {
                Some(w) => *w,
                None => 1,
            },
        }
    }

    /// Counts one more visit that brought `reward`, and forgets the memo of
    /// whether the subtree is fully explored. A placeholder stays as it is.
    pub fn visit(&mut self, reward: Reward)
        requires
            old(self).wf(),
            old(self)@.visits() < u32::MAX,
        ensures
            final(self).wf(),
            final(self)@ == old(self)@.visited(reward),
            final(self).slots() == old(self).slots(),
            final(self).memo() is None,
    {
        match self {
            Node::Expanded { visit_count, value_sum, cached_fully_explored, .. } => {
                *visit_count += 1;
                *value_sum += reward as i128;
                *cached_fully_explored = None;
            },
            Node::Placeholder { .. } => {},
        }
        proof {
            assert(self@.kids() =~= old(self)@.kids());
        }
    }

    /// Remembers `ucb` as the score computed from the given statistics: a
    /// score for no visit is infinity, and no other is.
    pub fn cache_ucb(&mut self, ucb: Score, value_sum: i128, visit_count: u32, parent_visit_count: u32)
        requires
            old(self).wf(),
            (ucb == SCORE_INFINITY) == (visit_count == 0),
        ensures
            final(self).wf(),
            final(self).slots() == old(self).slots(),
            final(self).memo() == old(self).memo(),
            final(self)@ == old(self)@.with_cache(
                Some(CachedUcb { ucb, value_sum, visit_count, parent_visit_count }),
            ),
    {
        match self {
            Node::Expanded { cached_ucb, .. } => {
                *cached_ucb = Some(CachedUcb { ucb, value_sum, visit_count, parent_visit_count });
            },
            Node::Placeholder { .. } => {},
        }
        proof {
            assert(self@.kids() =~= old(self)@.kids());
        }
    }

    /// Whether the subtree is fully explored. The answer is remembered in the
    /// node, and in each node below that had to be asked.
    pub fn fully_explored(&mut self) -> (explored: bool)
        requires
            old(self).wf(),
        ensures
            final(self).wf(),
            final(self)@ == old(self)@,
            explored == old(self)@.fully_explored(),
        decreases *old(self),
    {
        match self {
            Node::Expanded { children, cached_fully_explored, .. } => {
                if let Some(known) = *cached_fully_explored {
                    return known;
                }
                let ghost before = children@;
                let mut all: bool = true;
                let mut i: usize = 0;
                while i < children.len() && all
                    invariant
                        before == old(self).slots(),
                        *old(self) is Expanded,
                        i <= children.len(),
                        children@.len() == before.len(),
                        forall|j: int|
                            0 <= j < children@.len() ==> {
                                &&& (#[trigger] children@[j]).0 == before[j].0
                                &&& children@[j].1@ == before[j].1@
                                &&& children@[j].1.wf()
                            },
                        forall|j: int| i <= j < children@.len() ==> #[trigger] children@[j] == before[j],
                        all ==> forall|j: int| 0 <= j < i ==> (#[trigger] before[j]).1@.fully_explored(),
                        !all ==> i > 0 && !before[i - 1].1@.fully_explored(),
                    decreases children.len() - i,
                {
                    let child = &mut children[i];
                    all = child.1.fully_explored();
                    i += 1;
                }
                *cached_fully_explored = Some(all);
                proof {
                    old(self).lemma_view_kids();
                    assert(self@.kids() =~= old(self)@.kids());
                    if all {
                        assert forall|j: int| 0 <= j < old(self)@.kids().len() implies (
                        #[trigger] old(self)@.kids()[j]).1.fully_explored() by {
                            assert(before[j].1@.fully_explored());
                        }
                    } else {
                        assert(old(self)@.kids()[i - 1].1 == before[i - 1].1@);
                    }
                }
                all
            },
            Node::Placeholder { .. } => false,
        }
    }

    /// The remembered score, if it was computed from exactly these statistics.
    pub fn cached_ucb(&self, value_sum: i128, visit_count: u32, parent_visit_count: u32) -> (ucb: Option<Score>)
        ensures
            ucb == self@.cache_hit(value_sum, visit_count, parent_visit_count),
    {
        match self {
            Node::Expanded { cached_ucb, .. } => match cached_ucb {
                Some(c) => {
                    if c.value_sum == value_sum && c.visit_count == visit_count
                        && c.parent_visit_count == parent_visit_count {
                        Some(c.ucb)
                    } else {
                        None
                    }
                },
                None => None,
            },
            Node::Placeholder { .. } => None,
        }
    }
}

impl<StateType: View, ActionType: Action> Node<StateType, ActionType> {
    /// The first slot for a move is the same in the node and in its view.
    pub proof fn lemma_child_index(&self, action: ActionType)
        ensures
            self@.child_index(action) == first_slot(self.slots(), action, 0),
            0 <= self@.child_index(action) <= self.slots().len(),
            self@.child_index(action) < self.slots().len() ==> {
                &&& self.slots()[self@.child_index(action)].0 == action
                &&& self@.child(action) == self.slots()[self@.child_index(action)].1@
            },
    {
        self.lemma_view_kids();
        lemma_first_slot_same(self@.kids(), self.slots(), action, 0);
        lemma_first_slot(self.slots(), action, 0);
    }

    /// Puts `child` in the slot for `action`, in place of what was there, or in
    /// a new last slot if the node had none for it.
    pub fn insert_child(&mut self, action: ActionType, child: Node<StateType, ActionType>)
        requires
            *old(self) is Expanded,
            old(self).wf(),
            child.wf(),
        ensures
            final(self).wf(),
            final(self)@ == old(self)@.with_child(action, child@),
    {
        proof {
            old(self).lemma_child_index(action);
            old(self).lemma_view_kids();
        }
        match self {
            Node::Expanded { children, cached_fully_explored, .. } => {
                let i = find_slot(children, action);
                if i < children.len() {
                    children[i] = (action, child);
                } else {
                    children.push((action, child));
                }
                *cached_fully_explored = None;
            },
            Node::Placeholder { .. } => {},
        }
        proof {
            self.lemma_view_kids();
            let i = old(self)@.child_index(action);
            if i < old(self).slots().len() {
                assert(self@.kids() =~= old(self)@.kids().update(i, (action, child@)));
            } else {
                assert(self@.kids() =~= old(self)@.kids().push((action, child@)));
            }
            assert forall|a: int, b: int| 0 <= a < b < self@.kids().len() implies (
            #[trigger] self@.kids()[a]).0 != (#[trigger] self@.kids()[b]).0 by {
                if i < old(self).slots().len() {
                    assert(self@.kids()[a].0 == old(self)@.kids()[a].0);
                    assert(self@.kids()[b].0 == old(self)@.kids()[b].0);
                } else if b < old(self).slots().len() {
                    assert(self@.kids()[a].0 == old(self)@.kids()[a].0);
                    assert(self@.kids()[b].0 == old(self)@.kids()[b].0);
                } else {
                    lemma_first_slot(old(self).slots(), action, 0);
                    assert(old(self).slots()[a].0 != action);
                }
            }
        }
    }

    /// The child in the slot for `action`.
    pub fn get_child(&self, action: ActionType) -> (child: &Node<StateType, ActionType>)
        requires
            self@.child_index(action) < self@.kids().len(),
        ensures
            *child == self.slots()[self@.child_index(action)].1,
            child@ == self@.child(action),
            self.wf() ==> child.wf(),
    {
        proof {
            self.lemma_child_index(action);
            self.lemma_view_kids();
        }
        match self {
            Node::Expanded { children, .. } => {
                let i = find_slot(children, action);
                &children[i].1
            },
            Node::Placeholder { .. } => vstd::pervasive::unreached(),
        }
    }

    /// The node that `path` names: the child for its first move, then the
    /// child of that for the second, and so on.
    pub fn get_node_by_path(&self, path: Vec<ActionType>) -> (node: &Node<StateType, ActionType>)
        requires
            path@.len() > 0,
            self@.has_path(path@),
        ensures
            node@ == self@.at(path@),
            self.wf() ==> node.wf(),
    {
        self.descendant(&path)
    }

    /// The node that `path` names, the node itself for the empty path.
    pub fn descendant(&self, path: &Vec<ActionType>) -> (node: &Node<StateType, ActionType>)
        requires
            self@.has_path(path@),
        ensures
            node@ == self@.at(path@),
            self.wf() ==> node.wf(),
    {
        let mut node = self;
        let mut k: usize = 0;
        assert(path@.skip(0) =~= path@);
        while k < path.len()
            invariant
                k <= path.len(),
                node@.has_path(path@.skip(k as int)),
                node@.at(path@.skip(k as int)) == self@.at(path@),
                self.wf() ==> node.wf(),
            decreases path.len() - k,
        {
            proof {
                assert(path@.skip(k as int).skip(1) =~= path@.skip(k + 1));
                assert(path@.skip(k as int)[0] == path@[k as int]);
            }
            node = node.get_child(path[k]);
            k += 1;
        }
        node
    }
}

/// Creates the node for a position: one placeholder per move that a player may
/// choose from, or per outcome of a chance move, each outcome with its weight.
pub fn create_expanded_node<StateType>(state: StateType, weight: Option<u32>) -> (node: Node<
    StateType,
    StateType::ActionType,
>) where StateType: State
    requires
        StateType::inv(state@),
    ensures
        node.wf(),
        node@ == fresh::<StateType>(state@, weight),
{
    let actor = state.next_actor();
    let mut children: Vec<(StateType::ActionType, Node<StateType, StateType::ActionType>)> = Vec::new();
    let ghost v = state@;
    proof {
        lemma_offered::<StateType>(v);
    }
    let game_action = match actor {
        Actor::Player(_) => {
            let actions = state.permitted_actions();
            let mut i: usize = 0;
            while i < actions.len()
                invariant
                    i <= actions.len(),
                    actions@ == offered::<StateType>(v),
                    StateType::actor(v) is Player,
                    children@.len() == i,
                    forall|j: int|
                        0 <= j < i ==> {
                            &&& (#[trigger] children@[j]).0 == actions@[j]
                            &&& children@[j].1 == Node::<StateType, StateType::ActionType>::Placeholder {
                                weight: None,
                            }
                        },
                decreases actions.len() - i,
            {
                children.push((actions[i], Node::Placeholder { weight: None }));
                i += 1;
            }
            false
        },
        Actor::GameAction(outcomes) => {
            let mut i: usize = 0;
            while i < outcomes.len()
                invariant
                    i <= outcomes.len(),
                    StateType::actor(v) == ActorView::GameAction(outcomes@),
                    children@.len() == i,
                    forall|j: int|
                        0 <= j < i ==> {
                            &&& (#[trigger] children@[j]).0 == outcomes@[j].0
                            &&& children@[j].1 == Node::<StateType, StateType::ActionType>::Placeholder {
                                weight: Some(outcomes@[j].1),
                            }
                        },
                decreases outcomes.len() - i,
            {
                children.push((outcomes[i].0, Node::Placeholder { weight: Some(outcomes[i].1) }));
                i += 1;
            }
            true
        },
    };
    assert(forall|j: int| 0 <= j < children@.len() ==> (#[trigger] children@[j]).1 is Placeholder);
    let node = Node::Expanded {
        state,
        children,
        visit_count: 0,
        value_sum: 0,
        cached_ucb: None,
        cached_fully_explored: None,
        game_action,
        weight,
    };
    proof {
        node.lemma_view_kids();
        assert(node@.kids() =~= fresh_slots::<StateType>(v));
        assert forall|i: int, j: int| 0 <= i < j < node@.kids().len() implies (
        #[trigger] node@.kids()[i]).0 != (#[trigger] node@.kids()[j]).0 by {
            assert(offered::<StateType>(v)[i] != offered::<StateType>(v)[j]);
        }
        assert(forall|j: int| 0 <= j < node.slots().len() ==> (#[trigger] node.slots()[j]).1.wf());
    }
    node
}

impl<StateType, ActionType> Node<StateType, ActionType> where
    StateType: State<ActionType = ActionType>,
    ActionType: Action<StateType = StateType>,
 {
    /// Creates the node for a position, as [`create_expanded_node`] does.
    pub fn new_expanded(state: StateType, weight: Option<u32>) -> (node: Node<StateType, ActionType>)
        requires
            StateType::inv(state@),
        ensures
            node.wf(),
            node@ == fresh::<StateType>(state@, weight),
    {
        create_expanded_node(state, weight)
    }

    /// The node that takes the place of this placeholder when `action` is taken
    /// in the position of its parent: it keeps the weight of the slot.
    pub fn expansion(&self, action: ActionType, parent_state: &StateType) -> (node: Node<
        StateType,
        ActionType,
    >)
        requires
            self is Placeholder,
            action.applicable(parent_state@),
            StateType::inv(action.successor(parent_state@)),
        ensures
            node.wf(),
            node@ == fresh::<StateType>(action.successor(parent_state@), self@.slot_weight()),
    {
        match self {
            Node::Expanded { .. } => vstd::pervasive::unreached(),
            Node::Placeholder { weight, .. } => {
                let state = action.execute(parent_state);
                Self::new_expanded(state, *weight)
            },
        }
    }

    /// The position of an expanded node.
    pub fn state(&self) -> (state: &StateType)
        requires
            self is Expanded,
        ensures
            state@ == self@.position(),
    {
        match self {
            Node::Expanded { state, .. } => state,
            Node::Placeholder { .. } => vstd::pervasive::unreached(),
        }
    }
}

impl<StateType, ActionType> Node<StateType, ActionType> where
    StateType: State<ActionType = ActionType>,
    ActionType: Action<StateType = StateType>,
 {
    /// Expands the placeholders along `path`, from move number `from` on.
    pub fn expand_along(&mut self, path: &Vec<ActionType>, from: usize)
        requires
            old(self).wf(),
            from <= path.len(),
            expandable::<StateType>(old(self)@, path@.skip(from as int)),
        ensures
            final(self).wf(),
            final(self)@ == expand::<StateType>(old(self)@, path@.skip(from as int)),
        decreases path.len() - from,
    {
        if from >= path.len() {
            return ;
        }
        let action = path[from];
        let ghost rest = path@.skip(from as int);
        let ghost parent = self@;
        proof {
            assert(rest[0] == action);
            assert(rest.skip(1) =~= path@.skip(from + 1));
            self.lemma_child_index(action);
            self.lemma_view_kids();
        }
        match self {
            Node::Expanded { state, children, cached_fully_explored, .. } => {
                let slot = find_slot(children, action);
                let ghost before = children@;
                let fill = match &children[slot].1 {
                    Node::Placeholder { .. } => Some(children[slot].1.expansion(action, state)),
                    Node::Expanded { .. } => None,
                };
                match fill {
                    Some(node) => {
                        children[slot] = (action, node);
                    },
                    None => {},
                }
                *cached_fully_explored = None;
                assert(children@[slot as int].1@ == grown::<StateType>(parent, action));
                let ghost middle = children@;
                let child = &mut children[slot].1;
                child.expand_along(path, from + 1);
                proof {
                    let after = *child;
                    self.lemma_view_kids();
                    assert(self.slots() =~= middle.update(slot as int, (action, after)));
                    assert(self@.kids() =~= parent.kids().update(
                        slot as int,
                        (action, expand::<StateType>(grown::<StateType>(parent, action), rest.skip(1))),
                    ));
                    assert forall|a: int, b: int| 0 <= a < b < self@.kids().len() implies (
                    #[trigger] self@.kids()[a]).0 != (#[trigger] self@.kids()[b]).0 by {
                        assert(parent.kids()[a].0 != parent.kids()[b].0);
                    }
                }
            },
            Node::Placeholder { .. } => {},
        }
    }
}

impl<StateType, ActionType> Node<StateType, ActionType> where
    StateType: State<ActionType = ActionType>,
    ActionType: Action<StateType = StateType>,
 {
    /// Visits the node with `own`, and the nodes along `path` below it, from
    /// move number `from` on, each with the reward of the player to move in
    /// the position of its parent.
    pub fn credit_along(&mut self, path: &Vec<ActionType>, from: usize, reward: &Vec<Reward>, own: Reward)
        requires
            old(self).wf(),
            from <= path.len(),
            creditable::<StateType>(old(self)@, path@.skip(from as int)),
            rewarded::<StateType>(old(self)@, path@.skip(from as int), reward@),
        ensures
            final(self).wf(),
            final(self)@ == credit::<StateType>(old(self)@, path@.skip(from as int), reward@, own),
        decreases path.len() - from, 1int,
    {
        proof {
            lemma_credit_is_propagate::<StateType>(self@, path@.skip(from as int), reward@, own);
        }
        self.visit(own);
        proof {
            assert(self@.kids() == old(self)@.kids());
        }
        self.credit_below(path, from, reward);
    }

    /// Visits the nodes along `path` below the node, from move number `from`
    /// on, each with the reward of the player to move in the position of its
    /// parent. The node itself is not visited.
    pub fn credit_below(&mut self, path: &Vec<ActionType>, from: usize, reward: &Vec<Reward>)
        requires
            old(self).wf(),
            from <= path.len(),
            propagable::<StateType>(old(self)@, path@.skip(from as int)),
            rewarded::<StateType>(old(self)@, path@.skip(from as int), reward@),
        ensures
            final(self).wf(),
            final(self)@ == propagate::<StateType>(old(self)@, path@.skip(from as int), reward@),
        decreases path.len() - from, 0int,
    {
        let ghost parent = self@;
        let ghost rest = path@.skip(from as int);
        if from >= path.len() {
            return ;
        }
        let action = path[from];
        proof {
            assert(rest[0] == action);
            assert(rest.skip(1) =~= path@.skip(from + 1));
            self.lemma_child_index(action);
            self.lemma_view_kids();
        }
        match self {
            Node::Expanded { state, children, cached_fully_explored, .. } => {
                let next: Reward = match state.next_actor() {
                    Actor::Player(id) => reward[id as usize],
                    Actor::GameAction(_) => 0,
                };
                let slot = find_slot(children, action);
                let ghost middle = children@;
                let child = &mut children[slot].1;
                child.credit_along(path, from + 1, reward, next);
                *cached_fully_explored = None;
                proof {
                    let after = *child;
                    self.lemma_view_kids();
                    assert(self.slots() =~= middle.update(slot as int, (action, after)));
                    assert(self@.kids() =~= parent.kids().update(
                        slot as int,
                        (action, credit::<StateType>(parent.child(action), rest.skip(1), reward@, next)),
                    ));
                    assert(self@ == parent.with_kids(self@.kids()));
                    assert forall|a: int, b: int| 0 <= a < b < self@.kids().len() implies (
                    #[trigger] self@.kids()[a]).0 != (#[trigger] self@.kids()[b]).0 by {
                        assert(parent.kids()[a].0 != parent.kids()[b].0);
                    }
                }
            },
            Node::Placeholder { .. } => {},
        }
    }
}

} // verus!
