use vstd::prelude::*;

use super::game::{offered, slot_weight, Action, ActorView, State};
use super::node::CachedUcb;
use super::{Reward, Score, SCORE_INFINITY};

verus! {

/// The largest size of one reward, as a bound on a node's value per visit.
pub open spec fn reward_span() -> int {
    0x8000_0000_0000_0000
}

/// The mathematical value of a node: all of it but the memo of whether the
/// subtree is fully explored, which in a well-formed node says no more than
/// the subtree itself.
pub enum NodeView<SV, ActionType> {
    Expanded {
        state: SV,
        children: Seq<(ActionType, NodeView<SV, ActionType>)>,
        visit_count: u32,
        value_sum: i128,
        cached_ucb: Option<CachedUcb>,
        game_action: bool,
        weight: Option<u32>,
    },
    Placeholder { weight: Option<u32> },
}

impl<SV, ActionType> NodeView<SV, ActionType> {
    /// The child slots, none for a placeholder.
    pub open spec fn kids(self) -> Seq<(ActionType, NodeView<SV, ActionType>)> {
        match self {
            NodeView::Expanded { children, .. } => children,
            NodeView::Placeholder { .. } => Seq::empty(),
        }
    }

    /// How often the node was visited, never for a placeholder.
    pub open spec fn visits(self) -> u32 {
        match self {
            NodeView::Expanded { visit_count, .. } => visit_count,
            NodeView::Placeholder { .. } => 0,
        }
    }

    /// The sum of the rewards that the visits brought.
    pub open spec fn value(self) -> i128 {
        match self {
            NodeView::Expanded { value_sum, .. } => value_sum,
            NodeView::Placeholder { .. } => 0,
        }
    }

    /// Whether chance moves in the position of the node.
    pub open spec fn is_chance(self) -> bool {
        match self {
            NodeView::Expanded { game_action, .. } => game_action,
            NodeView::Placeholder { .. } => false,
        }
    }

    /// The weight of the slot that the node stands in, if it carries one.
    pub open spec fn slot_weight(self) -> Option<u32> {
        match self {
            NodeView::Expanded { weight, .. } => weight,
            NodeView::Placeholder { weight } => weight,
        }
    }

    /// The score that the node remembers, with what it was computed from.
    pub open spec fn cache(self) -> Option<CachedUcb> {
        match self {
            NodeView::Expanded { cached_ucb, .. } => cached_ucb,
            NodeView::Placeholder { .. } => None,
        }
    }

    /// The position of the first child slot for `action`, or the number of
    /// slots if there is none.
    pub open spec fn child_index(self, action: ActionType) -> int {
        first_slot(self.kids(), action, 0)
    }

    /// The child in the first slot for `action`.
    pub open spec fn child(self, action: ActionType) -> NodeView<SV, ActionType>
        recommends
            self.child_index(action) < self.kids().len(),
    {
        self.kids()[self.child_index(action)].1
    }

    /// The position of an expanded node.
    pub open spec fn position(self) -> SV
        recommends
            self is Expanded,
    {
        self->state
    }

    /// The node with `child` in the first slot for `action`, or in a new last
    /// slot if there was none.
    pub open spec fn with_child(self, action: ActionType, child: Self) -> Self {
        let i = self.child_index(action);
        if i < self.kids().len() {
            self.with_kids(self.kids().update(i, (action, child)))
        } else {
            self.with_kids(self.kids().push((action, child)))
        }
    }

    /// Whether `path` names a node below this one: each move has a child slot.
    pub open spec fn has_path(self, path: Seq<ActionType>) -> bool
        decreases path.len(),
    {
        path.len() == 0 || (self.child_index(path[0]) < self.kids().len() && self.child(
            path[0],
        ).has_path(path.skip(1)))
    }

    /// The node that `path` names.
    pub open spec fn at(self, path: Seq<ActionType>) -> Self
        recommends
            self.has_path(path),
        decreases path.len(),
    {
        if path.len() == 0 {
            self
        } else {
            self.child(path[0]).at(path.skip(1))
        }
    }

    /// No move has two child slots.
    pub open spec fn distinct_slots(self) -> bool {
        forall|i: int, j: int|
            0 <= i < j < self.kids().len() ==> (#[trigger] self.kids()[i]).0 != (
            #[trigger] self.kids()[j]).0
    }

    /// A node is fully explored when every child slot holds an expanded node
    /// that is fully explored: further search below it can learn nothing.
    pub open spec fn fully_explored(self) -> bool
        decreases self,
    {
        match self {
            NodeView::Placeholder { .. } => false,
            NodeView::Expanded { children, .. } => forall|i: int|
                0 <= i < children.len() ==> (#[trigger] children[i]).1.fully_explored(),
        }
    }

    /// The size of the value is within what the visits can have added.
    pub open spec fn value_in_span(self) -> bool {
        -(self.visits() * reward_span()) <= self.value() <= self.visits() * reward_span()
    }

    /// The node after one more visit that brought `reward`.
    pub open spec fn visited(self, reward: Reward) -> Self {
        match self {
            NodeView::Expanded {
                state,
                children,
                visit_count,
                value_sum,
                cached_ucb,
                game_action,
                weight,
            } => NodeView::Expanded {
                state,
                children,
                visit_count: (visit_count + 1) as u32,
                value_sum: (value_sum + reward) as i128,
                cached_ucb,
                game_action,
                weight,
            },
            NodeView::Placeholder { .. } => self,
        }
    }

    /// The node with `cache` as its remembered score.
    pub open spec fn with_cache(self, cache: Option<CachedUcb>) -> Self {
        match self {
            NodeView::Expanded {
                state,
                children,
                visit_count,
                value_sum,
                cached_ucb,
                game_action,
                weight,
            } => NodeView::Expanded {
                state,
                children,
                visit_count,
                value_sum,
                cached_ucb: cache,
                game_action,
                weight,
            },
            NodeView::Placeholder { .. } => self,
        }
    }

    /// The node with `children` as its child slots.
    pub open spec fn with_kids(self, kids: Seq<(ActionType, NodeView<SV, ActionType>)>) -> Self {
        match self {
            NodeView::Expanded {
                state,
                children,
                visit_count,
                value_sum,
                cached_ucb,
                game_action,
                weight,
            } => NodeView::Expanded {
                state,
                children: kids,
                visit_count,
                value_sum,
                cached_ucb,
                game_action,
                weight,
            },
            NodeView::Placeholder { .. } => self,
        }
    }

    /// The tree without the remembered scores: positions, slots and statistics.
    pub open spec fn skeleton(self) -> Self
        decreases self,
    {
        match self {
            NodeView::Placeholder { .. } => self,
            NodeView::Expanded {
                state,
                children,
                visit_count,
                value_sum,
                cached_ucb,
                game_action,
                weight,
            } => NodeView::Expanded {
                state,
                children: Seq::new(
                    children.len(),
                    |i: int|
                        if 0 <= i < children.len() {
                            (children[i].0, children[i].1.skeleton())
                        } else {
                            arbitrary()
                        },
                ),
                visit_count,
                value_sum,
                cached_ucb: None,
                game_action,
                weight,
            },
        }
    }

    /// Whether two trees differ in nothing but remembered scores.
    pub open spec fn same_statistics(self, other: Self) -> bool {
        self.skeleton() == other.skeleton()
    }

    /// The greatest height among the first `n` of the slots.
    pub open spec fn tallest(kids: Seq<(ActionType, Self)>, n: nat) -> nat
        decreases kids, n,
    {
        if n == 0 || n > kids.len() {
            0
        } else {
            let rest = Self::tallest(kids, (n - 1) as nat);
            let last = kids[n - 1].1.height();
            if last > rest {
                last
            } else {
                rest
            }
        }
    }

    /// The length of the longest path below the node.
    pub open spec fn height(self) -> nat
        decreases self,
    {
        match self {
            NodeView::Placeholder { .. } => 0,
            NodeView::Expanded { children, .. } => 1 + Self::tallest(children, children.len()),
        }
    }

    /// Each of the first `n` slots is at most as high as the tallest of them.
    pub proof fn lemma_tallest(kids: Seq<(ActionType, Self)>, n: nat, i: int)
        requires
            0 <= i < n <= kids.len(),
        ensures
            kids[i].1.height() <= Self::tallest(kids, n),
        decreases n,
    {
        if i < n - 1 {
            Self::lemma_tallest(kids, (n - 1) as nat, i);
        }
    }

    /// A child is lower than its parent.
    pub proof fn lemma_child_lower(self, i: int)
        requires
            0 <= i < self.kids().len(),
        ensures
            self.kids()[i].1.height() < self.height(),
    {
        Self::lemma_tallest(self.kids(), self.kids().len(), i);
    }

    /// The tallest of the slots depends on the heights of the slots only.
    pub proof fn lemma_tallest_same(a: Seq<(ActionType, Self)>, b: Seq<(ActionType, Self)>, n: nat)
        requires
            n <= a.len(),
            n <= b.len(),
            forall|i: int| 0 <= i < n ==> (#[trigger] a[i]).1.height() == b[i].1.height(),
        ensures
            Self::tallest(a, n) == Self::tallest(b, n),
        decreases n,
    {
        if n > 0 {
            Self::lemma_tallest_same(a, b, (n - 1) as nat);
        }
    }

    /// The skeleton of a node is as high as the node and is fully explored
    /// when the node is.
    pub proof fn lemma_skeleton(self)
        ensures
            self.skeleton().height() == self.height(),
            self.skeleton().fully_explored() == self.fully_explored(),
            self.skeleton().kids().len() == self.kids().len(),
            forall|i: int|
                0 <= i < self.kids().len() ==> #[trigger] self.skeleton().kids()[i] == (
                    self.kids()[i].0,
                    self.kids()[i].1.skeleton(),
                ),
            self.skeleton() is Expanded <==> self is Expanded,
            self.skeleton().visits() == self.visits(),
            self.skeleton().value() == self.value(),
            self.skeleton().is_chance() == self.is_chance(),
            self.skeleton().slot_weight() == self.slot_weight(),
            self is Expanded ==> self.skeleton().position() == self.position(),
        decreases self,
    {
        match self {
            NodeView::Placeholder { .. } => {},
            NodeView::Expanded { children, .. } => {
                let other = self.skeleton();
                assert forall|i: int| 0 <= i < children.len() implies {
                    &&& (#[trigger] other.kids()[i]).1.height() == children[i].1.height()
                    &&& other.kids()[i].1.fully_explored() == children[i].1.fully_explored()
                } by {
                    children[i].1.lemma_skeleton();
                }
                Self::lemma_tallest_same(other.kids(), children, children.len());
                if self.fully_explored() {
                    assert forall|i: int| 0 <= i < other.kids().len() implies (
                    #[trigger] other.kids()[i]).1.fully_explored() by {
                        assert(children[i].1.fully_explored());
                    }
                }
                if other.fully_explored() {
                    assert forall|i: int| 0 <= i < children.len() implies (
                    #[trigger] children[i]).1.fully_explored() by {
                        assert(other.kids()[i].1.fully_explored());
                    }
                }
            },
        }
    }

    /// Two trees that differ in remembered scores only have the same height,
    /// and one is fully explored when the other is.
    pub proof fn lemma_same_statistics(self, other: Self)
        requires
            self.same_statistics(other),
        ensures
            self.height() == other.height(),
            self.fully_explored() == other.fully_explored(),
            self is Expanded <==> other is Expanded,
            self.kids().len() == other.kids().len(),
            forall|i: int|
                0 <= i < self.kids().len() ==> {
                    &&& (#[trigger] self.kids()[i]).0 == other.kids()[i].0
                    &&& self.kids()[i].1.same_statistics(other.kids()[i].1)
                },
            self.visits() == other.visits(),
            self.value() == other.value(),
            self.is_chance() == other.is_chance(),
            self.slot_weight() == other.slot_weight(),
            self is Expanded ==> self.position() == other.position(),
    {
        self.lemma_skeleton();
        other.lemma_skeleton();
        assert forall|i: int| 0 <= i < self.kids().len() implies {
            &&& (#[trigger] self.kids()[i]).0 == other.kids()[i].0
            &&& self.kids()[i].1.same_statistics(other.kids()[i].1)
        } by {
            assert(self.skeleton().kids()[i] == other.skeleton().kids()[i]);
        }
    }

    /// Slots for the same moves, whose children differ pairwise in remembered
    /// scores only, make trees that differ in remembered scores only.
    pub proof fn lemma_same_statistics_kids(self, kids: Seq<(ActionType, Self)>)
        requires
            kids.len() == self.kids().len(),
            forall|i: int|
                0 <= i < kids.len() ==> {
                    &&& (#[trigger] kids[i]).0 == self.kids()[i].0
                    &&& kids[i].1.same_statistics(self.kids()[i].1)
                },
        ensures
            self.with_kids(kids).same_statistics(self),
    {
        assert(self.with_kids(kids).skeleton().kids() =~= self.skeleton().kids());
    }

    /// Whether a node is fully explored depends on its children only, and of
    /// each only on whether it is fully explored.
    pub proof fn lemma_explored_same_kids(self, kids: Seq<(ActionType, Self)>)
        requires
            kids.len() == self.kids().len(),
            forall|i: int|
                0 <= i < kids.len() ==> (#[trigger] kids[i]).1.fully_explored() == self.kids()[i].1.fully_explored(),
        ensures
            self.with_kids(kids).fully_explored() == self.fully_explored(),
    {
        match self {
            NodeView::Expanded { children, .. } => {
                let other = self.with_kids(kids);
                assert(other.kids() == kids);
                if self.fully_explored() {
                    assert forall|i: int| 0 <= i < kids.len() implies (#[trigger] kids[i]).1.fully_explored() by {
                        assert(children[i].1.fully_explored());
                    }
                }
                if other.fully_explored() {
                    assert forall|i: int| 0 <= i < children.len() implies (
                    #[trigger] children[i]).1.fully_explored() by {
                        assert(kids[i].1.fully_explored());
                    }
                }
            },
            NodeView::Placeholder { .. } => {},
        }
    }

    /// What a node remembers as its score does not bear on whether it is fully
    /// explored.
    pub proof fn lemma_with_cache_explored(self, cache: Option<CachedUcb>)
        ensures
            self.with_cache(cache).fully_explored() == self.fully_explored(),
    {
        match self {
            NodeView::Expanded { children, .. } => {
                let other = self.with_cache(cache);
                assert(other.kids() == children);
                if self.fully_explored() {
                    assert forall|i: int| 0 <= i < other.kids().len() implies (
                    #[trigger] other.kids()[i]).1.fully_explored() by {
                        assert(children[i].1.fully_explored());
                    }
                }
                if other.fully_explored() {
                    assert forall|i: int| 0 <= i < children.len() implies (
                    #[trigger] children[i]).1.fully_explored() by {
                        assert(other.kids()[i].1.fully_explored());
                    }
                }
            },
            NodeView::Placeholder { .. } => {},
        }
    }

    /// Whether the remembered score can be one of the statistics it is
    /// remembered with: infinity for no visit, and only then.
    pub open spec fn cache_sound(self) -> bool {
        match self.cache() {
            Some(c) => (c.ucb == SCORE_INFINITY) == (c.visit_count == 0),
            None => true,
        }
    }

    /// The remembered score, if it was computed from exactly these statistics.
    pub open spec fn cache_hit(self, value_sum: i128, visit_count: u32, parent_visit_count: u32) -> Option<Score> {
        match self.cache() {
            Some(c) => if c.value_sum == value_sum && c.visit_count == visit_count
                && c.parent_visit_count == parent_visit_count {
                Some(c.ucb)
            } else {
                None
            },
            None => None,
        }
    }
}

/// The first position at or after `from` whose slot is for `action`, or the
/// number of slots if there is none.
pub open spec fn first_slot<T, ActionType>(slots: Seq<(ActionType, T)>, action: ActionType, from: int) -> int
    decreases slots.len() - from,
{
    if from < 0 || from >= slots.len() {
        slots.len() as int
    } else if slots[from].0 == action {
        from
    } else {
        first_slot(slots, action, from + 1)
    }
}

/// What `first_slot` finds: a slot for the action with none before it, or the
/// end with no slot for the action at all.
pub proof fn lemma_first_slot<T, ActionType>(slots: Seq<(ActionType, T)>, action: ActionType, from: int)
    requires
        0 <= from <= slots.len(),
    ensures
        from <= first_slot(slots, action, from) <= slots.len(),
        first_slot(slots, action, from) < slots.len() ==> slots[first_slot(slots, action, from)].0
            == action,
        forall|j: int| from <= j < first_slot(slots, action, from) ==> (#[trigger] slots[j]).0 != action,
    decreases slots.len() - from,
{
    if from < slots.len() && slots[from].0 != action {
        lemma_first_slot(slots, action, from + 1);
    }
}

/// Two lists of slots for the same moves have the same first slot for each.
pub proof fn lemma_first_slot_same<T, U, ActionType>(
    a: Seq<(ActionType, T)>,
    b: Seq<(ActionType, U)>,
    action: ActionType,
    from: int,
)
    requires
        a.len() == b.len(),
        forall|i: int| 0 <= i < a.len() ==> (#[trigger] a[i]).0 == b[i].0,
    ensures
        first_slot(a, action, from) == first_slot(b, action, from),
    decreases a.len() - from,
{
    if 0 <= from < a.len() && a[from].0 != action {
        lemma_first_slot_same(a, b, action, from + 1);
    }
}

/// The slots of a node that was just created for position `v`: one
/// placeholder per open move.
pub open spec fn fresh_slots<S: State>(v: S::V) -> Seq<(S::ActionType, NodeView<S::V, S::ActionType>)> {
    Seq::new(
        offered::<S>(v).len(),
        |i: int| (offered::<S>(v)[i], NodeView::Placeholder { weight: slot_weight::<S>(v, i) }),
    )
}

/// The node that is created for position `v` in a slot of weight `weight`.
pub open spec fn fresh<S: State>(v: S::V, weight: Option<u32>) -> NodeView<S::V, S::ActionType> {
    NodeView::Expanded {
        state: v,
        children: fresh_slots::<S>(v),
        visit_count: 0,
        value_sum: 0,
        cached_ucb: None,
        game_action: S::actor(v) is GameAction,
        weight,
    }
}

/// The tree once the placeholders along `path` are expanded: each gives way
/// to the node of the position that its move leads to.
pub open spec fn expand<S: State>(
    node: NodeView<S::V, S::ActionType>,
    path: Seq<S::ActionType>,
) -> NodeView<S::V, S::ActionType>
    decreases path.len(),
{
    if path.len() == 0 || node is Placeholder || node.child_index(path[0]) >= node.kids().len() {
        node
    } else {
        node.with_kids(
            node.kids().update(
                node.child_index(path[0]),
                (path[0], expand::<S>(grown::<S>(node, path[0]), path.skip(1))),
            ),
        )
    }
}

/// The child of `node` for `action` once it is expanded: the child itself if
/// it was expanded before, else the node of the position that the move leads
/// to, with the weight of the slot.
pub open spec fn grown<S: State>(
    node: NodeView<S::V, S::ActionType>,
    action: S::ActionType,
) -> NodeView<S::V, S::ActionType> {
    match node.child(action) {
        NodeView::Placeholder { weight } => fresh::<S>(action.successor(node.position()), weight),
        NodeView::Expanded { .. } => node.child(action),
    }
}

/// Whether the tree can be expanded along `path`: each move has a child slot,
/// and where the slot holds a placeholder, the move may be taken in the
/// position of the parent and leads to a position of the game.
pub open spec fn expandable<S: State>(
    node: NodeView<S::V, S::ActionType>,
    path: Seq<S::ActionType>,
) -> bool
    decreases path.len(),
{
    path.len() == 0 || {
        &&& node is Expanded
        &&& node.child_index(path[0]) < node.kids().len()
        &&& node.child(path[0]) is Placeholder ==> {
            &&& path[0].applicable(node.position())
            &&& S::inv(path[0].successor(node.position()))
        }
        &&& expandable::<S>(grown::<S>(node, path[0]), path.skip(1))
    }
}

/// Whether the rewards hold an entry for whoever moves: for the player, where
/// a player moves.
pub open spec fn has_entry<ActionType>(actor: ActorView<ActionType>, rewards: Seq<Reward>) -> bool {
    actor matches ActorView::Player(id) ==> (id as int) < rewards.len()
}

/// The reward that a visit brings to a child of a node whose position has
/// `actor` to move: that of the player, nothing under a chance move.
pub open spec fn reward_for<ActionType>(actor: ActorView<ActionType>, rewards: Seq<Reward>) -> Reward
    recommends
        has_entry(actor, rewards),
{
    match actor {
        ActorView::Player(id) => rewards[id as int],
        ActorView::GameAction(_) => 0,
    }
}

/// Whether the rewards hold an entry for each player who chose a move of
/// `path` below `node`.
pub open spec fn rewarded<S: State>(
    node: NodeView<S::V, S::ActionType>,
    path: Seq<S::ActionType>,
    rewards: Seq<Reward>,
) -> bool
    decreases path.len(),
{
    path.len() > 0 && node is Expanded && node.child_index(path[0]) < node.kids().len() ==> {
        &&& has_entry(S::actor(node.position()), rewards)
        &&& rewarded::<S>(node.child(path[0]), path.skip(1), rewards)
    }
}

/// The tree once the node and those along `path` below it are visited: the
/// node with `own`, each other with the reward of the player to move in the
/// position of its parent.
pub open spec fn credit<S: State>(
    node: NodeView<S::V, S::ActionType>,
    path: Seq<S::ActionType>,
    rewards: Seq<Reward>,
    own: Reward,
) -> NodeView<S::V, S::ActionType>
    decreases path.len(),
{
    if path.len() == 0 || node is Placeholder || node.child_index(path[0]) >= node.kids().len() {
        node.visited(own)
    } else {
        node.visited(own).with_kids(
            node.kids().update(
                node.child_index(path[0]),
                (
                    path[0],
                    credit::<S>(
                        node.child(path[0]),
                        path.skip(1),
                        rewards,
                        reward_for(S::actor(node.position()), rewards),
                    ),
                ),
            ),
        )
    }
}

/// The tree once the nodes along `path` below `node` are visited, each with
/// the reward of the player to move in the position of its parent. The node
/// itself, which no move leads into, is not visited.
pub open spec fn propagate<S: State>(
    node: NodeView<S::V, S::ActionType>,
    path: Seq<S::ActionType>,
    rewards: Seq<Reward>,
) -> NodeView<S::V, S::ActionType> {
    if path.len() == 0 || node is Placeholder || node.child_index(path[0]) >= node.kids().len() {
        node
    } else {
        node.with_kids(
            node.kids().update(
                node.child_index(path[0]),
                (
                    path[0],
                    credit::<S>(
                        node.child(path[0]),
                        path.skip(1),
                        rewards,
                        reward_for(S::actor(node.position()), rewards),
                    ),
                ),
            ),
        )
    }
}

/// Whether the nodes along `path` below `node` can be visited: the node is
/// expanded and holds a position of the game, and the nodes below it along
/// the path can be visited.
pub open spec fn propagable<S: State>(node: NodeView<S::V, S::ActionType>, path: Seq<S::ActionType>) -> bool {
    path.len() > 0 ==> {
        &&& node is Expanded
        &&& S::inv(node.position())
        &&& node.child_index(path[0]) < node.kids().len()
        &&& creditable::<S>(node.child(path[0]), path.skip(1))
    }
}

/// A visit of a node and of those along a path below it is a visit of the
/// node, and then one of those along the path below it.
pub proof fn lemma_credit_is_propagate<S: State>(
    node: NodeView<S::V, S::ActionType>,
    path: Seq<S::ActionType>,
    rewards: Seq<Reward>,
    own: Reward,
)
    ensures
        credit::<S>(node, path, rewards, own) == propagate::<S>(node.visited(own), path, rewards),
{
    assert(node.visited(own).kids() == node.kids());
}

/// Whether the node and those along `path` below it can be visited: each is
/// expanded, has room for one more visit, and holds a position of the game.
pub open spec fn creditable<S: State>(
    node: NodeView<S::V, S::ActionType>,
    path: Seq<S::ActionType>,
) -> bool
    decreases path.len(),
{
    &&& node is Expanded
    &&& node.visits() < u32::MAX
    &&& path.len() > 0 ==> {
        &&& S::inv(node.position())
        &&& node.child_index(path[0]) < node.kids().len()
        &&& creditable::<S>(node.child(path[0]), path.skip(1))
    }
}

} // verus!
