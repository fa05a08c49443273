use std::time::{Duration, Instant};
use vstd::prelude::*;

use super::game::{lemma_offered, offered, Action, Actor, ActorView, State};
use super::invariants::{
    follows_game, lemma_child_visits_bound, lemma_child_visits_positive, lemma_children_are_open_moves,
    lemma_fresh_follows_game, lemma_iteration_fills, lemma_placeholders, lemma_played_same, open_slots, played,
    visits_add_up,
};
use super::model::lemma_first_slot;
use super::steps::lemma_add_up_falls_below;
use super::model::{fresh, reward_span, NodeView};
use super::node::{create_expanded_node, Node};
use super::scoring::{answers, UcbTerms};
use super::tree::{iterated, lemma_selects_leads, lemma_unvisited_first, selects, Selection, Tree};
use super::{BestTurnPolicy, Reward, Score};

verus! {

/// A point in time, as the clock of the system gives it.
#[verifier::external_type_specification]
#[verifier::external_body]
pub struct ExInstant(Instant);

/// The time at which a search starts.
///
/// Calls `std::time::Instant::now`. Nothing is claimed of the time.
#[verifier::external_body]
fn clock_start() -> Instant {
    Instant::now()
}

/// The time that has gone by since `start`.
///
/// Calls `std::time::Instant::elapsed`. Nothing is claimed of the time.
#[verifier::external_body]
fn clock_elapsed(start: &Instant) -> Duration {
    start.elapsed()
}

/// The length of a time span in nanoseconds.
///
/// Calls `std::time::Duration::as_nanos`. Nothing is claimed of the number.
#[verifier::external_body]
fn nanoseconds(span: &Duration) -> u128 {
    span.as_nanos()
}

/// Whether a search that took `elapsed` nanoseconds has used up its time.
pub fn out_of_time(elapsed: u128, limit: Option<u128>) -> (out: bool)
    ensures
        out == (limit matches Some(nanos) && elapsed > nanos),
{
    match limit {
        Some(nanos) => elapsed > nanos,
        None => false,
    }
}

/// Whether a search is to stop after an iteration: the iterations that are
/// finished have reached the budget, the iteration found the tree fully
/// explored, or the time limit is passed.
pub fn budget_spent(
    finished_iterations: usize,
    iterations: usize,
    explored: bool,
    elapsed: u128,
    limit: Option<u128>,
) -> (stop: bool)
    ensures
        stop == (finished_iterations >= iterations || explored || (limit matches Some(nanos) && elapsed
            > nanos)),
{
    finished_iterations >= iterations || explored || out_of_time(elapsed, limit)
}

/// Whether `rewards` name `player` the winner: the reward of the player is
/// greater than that of every other player.
pub open spec fn winning_for(rewards: Seq<Reward>, player: int) -> bool {
    &&& 0 <= player < rewards.len()
    &&& forall|j: int| 0 <= j < rewards.len() && j != player ==> rewards[j] < rewards[player]
}

/// Whether the move into child `i` of `root` is a proven win: the child is
/// expanded, the game is over there, and the rewards name the player to move
/// at the root the winner.
pub open spec fn proven_win<S: State>(root: NodeView<S::V, S::ActionType>, i: int) -> bool {
    &&& root.kids()[i].1 is Expanded
    &&& S::is_terminal(root.kids()[i].1.position())
    &&& S::actor(root.position()) matches ActorView::Player(id) && winning_for(
        S::rewards(root.kids()[i].1.position()),
        id as int,
    )
}

/// The first child at or after `from` whose move is a proven win, or the
/// number of children if there is none.
pub open spec fn first_win<S: State>(root: NodeView<S::V, S::ActionType>, from: int) -> int
    decreases root.kids().len() - from,
{
    if from < 0 || from >= root.kids().len() {
        root.kids().len() as int
    } else if proven_win::<S>(root, from) {
        from
    } else {
        first_win::<S>(root, from + 1)
    }
}

/// Of the first `n` children, the first among those visited most often.
pub open spec fn most_visited<SV, ActionType>(kids: Seq<(ActionType, NodeView<SV, ActionType>)>, n: int) -> int
    decreases n,
{
    if n <= 1 {
        0
    } else {
        let best = most_visited(kids, n - 1);
        if kids[n - 1].1.visits() > kids[best].1.visits() {
            n - 1
        } else {
            best
        }
    }
}

/// Whether the mean value of `a` is greater than that of `b`, where a node
/// without a visit has a lower mean value than any node with one.
pub open spec fn better_mean<SV, ActionType>(a: NodeView<SV, ActionType>, b: NodeView<SV, ActionType>) -> bool {
    a.visits() > 0 && (b.visits() == 0 || a.value() * b.visits() > b.value() * a.visits())
}

/// Of the first `n` children, the first among those of the greatest mean
/// value.
pub open spec fn best_mean<SV, ActionType>(kids: Seq<(ActionType, NodeView<SV, ActionType>)>, n: int) -> int
    decreases n,
{
    if n <= 1 {
        0
    } else {
        let best = best_mean(kids, n - 1);
        if better_mean(kids[n - 1].1, kids[best].1) {
            n - 1
        } else {
            best
        }
    }
}

/// The position of the child whose move the policy chooses.
pub open spec fn chosen<S: State>(root: NodeView<S::V, S::ActionType>, policy: BestTurnPolicy) -> int {
    match policy {
        BestTurnPolicy::MostVisits => if first_win::<S>(root, 0) < root.kids().len() {
            first_win::<S>(root, 0)
        } else {
            most_visited(root.kids(), root.kids().len() as int)
        },
        BestTurnPolicy::Ucb0 => best_mean(root.kids(), root.kids().len() as int),
    }
}

/// The chosen child is one of the children, and so are the results of the
/// functions that choose it.
pub proof fn lemma_chosen_in_range<S: State>(root: NodeView<S::V, S::ActionType>, n: int, from: int)
    requires
        0 < n <= root.kids().len(),
        0 <= from <= root.kids().len(),
    ensures
        0 <= most_visited(root.kids(), n) < n,
        0 <= best_mean(root.kids(), n) < n,
        from <= first_win::<S>(root, from) <= root.kids().len(),
    decreases n, root.kids().len() - from,
{
    if n > 1 {
        lemma_chosen_in_range::<S>(root, n - 1, from);
    } else if from < root.kids().len() {
        lemma_chosen_in_range::<S>(root, n, from + 1);
    }
}

/// Whether the rewards name the player the winner.
pub fn is_winning(rewards: &Vec<Reward>, player: u8) -> (winning: bool)
    ensures
        winning == winning_for(rewards@, player as int),
{
    let at = player as usize;
    if at >= rewards.len() {
        return false;
    }
    let mut j: usize = 0;
    while j < rewards.len()
        invariant
            j <= rewards.len(),
            at < rewards.len(),
            at == player,
            forall|k: int| 0 <= k < j && k != at ==> rewards@[k] < rewards@[at as int],
        decreases rewards.len() - j,
    {
        if j != at && rewards[j] >= rewards[at] {
            return false;
        }
        j += 1;
    }
    true
}

/// The product of a node's value and another node's visits fits in `i128`.
pub proof fn lemma_mean_product_fits(value: i128, visits: u32, other: u32)
    requires
        -(visits * reward_span()) <= value <= visits * reward_span(),
    ensures
        -0x8000_0000_0000_0000_0000_0000_0000_0000 < value * other
            < 0x8000_0000_0000_0000_0000_0000_0000_0000,
{
    assert(visits * reward_span() * other <= 0xffff_ffff * 0x8000_0000_0000_0000 * 0xffff_ffff)
        by (nonlinear_arith)
        requires
            0 <= visits <= 0xffff_ffff,
            0 <= other <= 0xffff_ffff,
            reward_span() == 0x8000_0000_0000_0000,
    ;
    assert(value * other <= visits * reward_span() * other) by (nonlinear_arith)
        requires
            value <= visits * reward_span(),
            0 <= other,
    ;
    assert(value * other >= -(visits * reward_span()) * other) by (nonlinear_arith)
        requires
            -(visits * reward_span()) <= value,
            0 <= other,
    ;
    assert(-(visits * reward_span()) * other == -(visits * reward_span() * other)) by (nonlinear_arith);
}

/// The move to make at the root of a finished tree.
///
/// With `MostVisits`: the first move that is a proven win, if there is one,
/// else the first of the moves whose child was visited most often. With
/// `Ucb0`: the first of the moves whose child has the greatest mean value,
/// children without a visit counting lowest.
pub fn best_action<StateType, ActionType>(root: &Node<StateType, ActionType>, policy: BestTurnPolicy) -> (action:
    ActionType) where
    StateType: State<ActionType = ActionType>,
    ActionType: Action<StateType = StateType>,

    requires
        root.wf(),
        follows_game::<StateType>(root@),
        root@.kids().len() > 0,
    ensures
        0 <= chosen::<StateType>(root@, policy) < root@.kids().len(),
        action == root@.kids()[chosen::<StateType>(root@, policy)].0,
{
    proof {
        root.lemma_view_kids();
        lemma_chosen_in_range::<StateType>(root@, root@.kids().len() as int, 0);
    }
    match root {
        Node::Expanded { state, children, .. } => {
            match policy {
                BestTurnPolicy::MostVisits => {
                    let actor = state.next_actor();
                    match actor {
                        Actor::Player(id) => {
                            let mut i: usize = 0;
                            while i < children.len()
                                invariant
                                    i <= children.len(),
                                    policy is MostVisits,
                                    children@ == root.slots(),
                                    root.wf(),
                                    follows_game::<StateType>(root@),
                                    StateType::actor(root@.position()) == ActorView::<ActionType>::Player(id),
                                    root@.kids().len() == children@.len(),
                                    forall|j: int|
                                        0 <= j < children@.len() ==> #[trigger] root@.kids()[j] == (
                                            children@[j].0,
                                            children@[j].1@,
                                        ),
                                    first_win::<StateType>(root@, 0) == first_win::<StateType>(root@, i as int),
                                decreases children.len() - i,
                            {
                                let won = match &children[i].1 {
                                    Node::Expanded { state: reached, .. } => {
                                        assert(follows_game::<StateType>(root@.kids()[i as int].1));
                                        if reached.terminal() {
                                            let rewards = reached.reward();
                                            is_winning(&rewards, id)
                                        } else {
                                            false
                                        }
                                    },
                                    Node::Placeholder { .. } => false,
                                };
                                assert(won == proven_win::<StateType>(root@, i as int));
                                if won {
                                    assert(first_win::<StateType>(root@, i as int) == i);
                                    return children[i].0;
                                }
                                i += 1;
                            }
                        },
                        Actor::GameAction(_) => {
                            proof {
                                lemma_no_win_by_chance::<StateType>(root@, 0);
                            }
                        },
                    }
                    let mut best: usize = 0;
                    let mut i: usize = 1;
                    while i < children.len()
                        invariant
                            1 <= i <= children.len(),
                            best < i,
                            root@.kids().len() == children@.len(),
                            forall|j: int|
                                0 <= j < children@.len() ==> #[trigger] root@.kids()[j] == (
                                    children@[j].0,
                                    children@[j].1@,
                                ),
                            best == most_visited(root@.kids(), i as int),
                        decreases children.len() - i,
                    {
                        if children[i].1.visit_count() > children[best].1.visit_count() {
                            best = i;
                        }
                        i += 1;
                    }
                    children[best].0
                },
                BestTurnPolicy::Ucb0 => {
                    let mut best: usize = 0;
                    let mut i: usize = 1;
                    while i < children.len()
                        invariant
                            1 <= i <= children.len(),
                            best < i,
                            root.wf(),
                            children@ == root.slots(),
                            root@.kids().len() == children@.len(),
                            forall|j: int|
                                0 <= j < children@.len() ==> #[trigger] root@.kids()[j] == (
                                    children@[j].0,
                                    children@[j].1@,
                                ),
                            best == best_mean(root@.kids(), i as int),
                        decreases children.len() - i,
                    {
                        let visits = children[i].1.visit_count();
                        let leader_visits = children[best].1.visit_count();
                        let value = children[i].1.value_sum();
                        let leader_value = children[best].1.value_sum();
                        proof {
                            assert(children@[i as int].1.wf());
                            assert(children@[best as int].1.wf());
                            lemma_mean_product_fits(value, visits, leader_visits);
                            lemma_mean_product_fits(leader_value, leader_visits, visits);
                        }
                        if visits > 0 && (leader_visits == 0 || value * (leader_visits as i128) > leader_value * (
                        visits as i128)) {
                            best = i;
                        }
                        i += 1;
                    }
                    children[best].0
                },
            }
        },
        Node::Placeholder { .. } => vstd::pervasive::unreached(),
    }
}

/// Where chance moves at the root, no move is a proven win.
pub proof fn lemma_no_win_by_chance<S: State>(root: NodeView<S::V, S::ActionType>, from: int)
    requires
        S::actor(root.position()) is GameAction,
        0 <= from <= root.kids().len(),
    ensures
        first_win::<S>(root, from) == root.kids().len(),
    decreases root.kids().len() - from,
{
    if from < root.kids().len() {
        lemma_no_win_by_chance::<S>(root, from + 1);
    }
}

/// Whether `action`, taken in position `v`, wins the game at once for the
/// player who moves there: the game is over after it, and the rewards name
/// the player the winner.
pub open spec fn wins<S: State>(v: S::V, action: S::ActionType) -> bool {
    &&& S::is_terminal(action.successor(v))
    &&& S::actor(v) matches ActorView::Player(id) && winning_for(S::rewards(action.successor(v)), id as int)
}

/// What `first_win` finds: a proven win with none before it, or the end with
/// no proven win at all.
pub proof fn lemma_first_win<S: State>(root: NodeView<S::V, S::ActionType>, from: int)
    requires
        0 <= from <= root.kids().len(),
    ensures
        from <= first_win::<S>(root, from) <= root.kids().len(),
        first_win::<S>(root, from) < root.kids().len() ==> proven_win::<S>(root, first_win::<S>(root, from)),
        forall|j: int| from <= j < first_win::<S>(root, from) ==> !proven_win::<S>(root, j),
    decreases root.kids().len() - from,
{
    if from < root.kids().len() && !proven_win::<S>(root, from) {
        lemma_first_win::<S>(root, from + 1);
    }
}

/// Where every child of the root is expanded and a move wins the game at
/// once, `MostVisits` chooses the first such move.
pub proof fn lemma_win_is_taken<S: State>(tree: NodeView<S::V, S::ActionType>, action: S::ActionType)
    requires
        follows_game::<S>(tree),
        tree is Expanded,
        open_slots(tree) == 0,
        offered::<S>(tree.position()).contains(action),
        wins::<S>(tree.position(), action),
    ensures
        0 <= chosen::<S>(tree, BestTurnPolicy::MostVisits) < tree.kids().len(),
        chosen::<S>(tree, BestTurnPolicy::MostVisits) == first_win::<S>(tree, 0),
        wins::<S>(tree.position(), tree.kids()[chosen::<S>(tree, BestTurnPolicy::MostVisits)].0),
{
    let v = tree.position();
    let i = choose|i: int| 0 <= i < offered::<S>(v).len() && offered::<S>(v)[i] == action;
    lemma_children_are_open_moves::<S>(tree);
    lemma_placeholders(tree.kids(), tree.kids().len() as int);
    lemma_first_win::<S>(tree, 0);
    assert(tree.kids()[i].0 == action);
    assert(tree.kids()[i].1 is Expanded);
    assert(proven_win::<S>(tree, i));
    let first = first_win::<S>(tree, 0);
    assert(first <= i);
    assert(tree.kids()[first].1 is Expanded);
}

/// The iterations that a search with the given budget runs if nothing stops
/// it before: as many as the budget says, one where the budget is nothing,
/// and no more than a visit count can hold.
pub open spec fn most_iterations(budget: int) -> int {
    if budget <= 0 {
        1
    } else if budget > u32::MAX {
        u32::MAX as int
    } else {
        budget
    }
}

/// Whether a tree can be what a search from position `start` leaves after
/// `iterations` iterations: its root holds `start` and was never visited,
/// the tree follows the game, the visits add up below the root, and one
/// visit per iteration went through the root.
pub open spec fn searched<S: State>(
    start: S::V,
    iterations: int,
    tree: NodeView<S::V, S::ActionType>,
) -> bool {
    &&& tree is Expanded
    &&& tree.position() == start
    &&& follows_game::<S>(tree)
    &&& visits_add_up(tree, true)
    &&& tree.visits() == 0
    &&& tree.value() == 0
    &&& played(tree) == iterations
}

/// Whether `iterations` iterations can lead from the node of position `start`
/// to `tree`: each selects a path in the tree as it stands, expands it, plays
/// the game out from its end and visits the nodes along it.
pub open spec fn grown<S: State, F: Fn(UcbTerms) -> Score>(
    start: S::V,
    constant: Score,
    scorer: F,
    iterations: nat,
    tree: NodeView<S::V, S::ActionType>,
) -> bool
    decreases iterations,
{
    if iterations == 0 {
        tree == fresh::<S>(start, None)
    } else {
        exists|
            before: NodeView<S::V, S::ActionType>,
            path: Seq<S::ActionType>,
            scored: NodeView<S::V, S::ActionType>,
            reward: Seq<Reward>,
        |
            {
                &&& grown::<S, F>(start, constant, scorer, (iterations - 1) as nat, before)
                &&& selects(before, constant, scorer, path)
                &&& #[trigger] iterated::<S>(before, scored, path, reward, tree)
            }
    }
}

/// Whether a search from position `start` can end with `tree`: some
/// iterations, `most` at the most, lead to it, or to a tree that is fully
/// explored and differs from it in remembered scores only. A search that is
/// not `timed` ends before `most` iterations only where the tree is fully
/// explored, and, where `most` is no less than the number of moves at the
/// root, leaves none of them unreached.
pub open spec fn search_ends<S: State, F: Fn(UcbTerms) -> Score>(
    start: S::V,
    constant: Score,
    scorer: F,
    most: int,
    timed: bool,
    tree: NodeView<S::V, S::ActionType>,
) -> bool {
    exists|iterations: nat, last: NodeView<S::V, S::ActionType>|
        {
            &&& iterations <= most
            &&& #[trigger] grown::<S, F>(start, constant, scorer, iterations, last)
            &&& searched::<S>(start, iterations as int, tree)
            &&& tree == last || (last.fully_explored() && tree.same_statistics(last))
            &&& timed || iterations == most || last.fully_explored()
            &&& timed || most < tree.kids().len() || open_slots(tree) == 0
        }
}

/// The move at a root that has no other: it is answered without a search.
pub fn only_move<StateType, ActionType>(root: &Node<StateType, ActionType>) -> (action: Option<ActionType>) where
    StateType: View,
    ActionType: Action,

    ensures
        action == (if root@.kids().len() == 1 {
            Some(root@.kids()[0].0)
        } else {
            None
        }),
{
    proof {
        root.lemma_view_kids();
    }
    match root {
        Node::Expanded { children, .. } => {
            if children.len() == 1 {
                Some(children[0].0)
            } else {
                None
            }
        },
        Node::Placeholder { .. } => None,
    }
}

/// Run multiple iterations of the search on a position and choose a move.
///
/// The game has to be running: a position in which it is over has no move
/// to answer with. A position with one open move is answered with that
/// move, without a search. Otherwise iterations run until `iterations` of them are done (one
/// at the least), the time limit is passed, the tree is fully explored, or
/// as many are done as a visit count can hold; then the policy chooses among
/// the moves at the root. Without a time limit the search ends before its
/// budget only on a tree that is fully explored; and with `MostVisits` and a
/// budget of no fewer iterations than there are moves, a move that wins the
/// game at once is chosen where there is one. With a seed the play-outs fall
/// the same way in every run.
pub fn calculate_best_turn<StateType, ActionType, F>(
    iterations: usize,
    time_limit: Option<Duration>,
    state: StateType,
    policy: BestTurnPolicy,
    exploration_constant: Score,
    scorer: &F,
    seed: Option<u64>,
) -> (action: ActionType) where
    StateType: State<ActionType = ActionType>,
    ActionType: Action<StateType = StateType>,
    F: Fn(UcbTerms) -> Score,

    requires
        StateType::inv(state@),
        !StateType::is_terminal(state@),
        answers(*scorer),
    ensures
        offered::<StateType>(state@).contains(action),
        offered::<StateType>(state@).len() == 1 ==> action == offered::<StateType>(state@)[0],
        offered::<StateType>(state@).len() > 1 ==> exists|tree: NodeView<StateType::V, ActionType>|
            {
                &&& #[trigger] search_ends::<StateType, F>(
                    state@,
                    exploration_constant,
                    *scorer,
                    most_iterations(iterations as int),
                    time_limit is Some,
                    tree,
                )
                &&& action == tree.kids()[chosen::<StateType>(tree, policy)].0
            },
        policy is MostVisits && time_limit is None && most_iterations(iterations as int) >= offered::<StateType>(
            state@,
        ).len() ==> forall|won: ActionType|
            #![trigger wins::<StateType>(state@, won)]
            offered::<StateType>(state@).contains(won) && wins::<StateType>(state@, won) ==> wins::<StateType>(
                state@,
                action,
            ),
{
    let ghost start = state@;
    let root_node = create_expanded_node(state, None);
    proof {
        lemma_offered::<StateType>(start);
        lemma_fresh_follows_game::<StateType>(start, None);
        lemma_children_are_open_moves::<StateType>(root_node@);
        root_node.lemma_view_kids();
    }
    match only_move(&root_node) {
        Some(action) => {
            return action;
        },
        None => {},
    }
    let mut tree = match seed {
        Some(seed) => Tree::seeded(root_node, exploration_constant, seed),
        None => Tree::new_with_constant(root_node, exploration_constant),
    };
    let limit: Option<u128> = match &time_limit {
        Some(span) => Some(nanoseconds(span)),
        None => None,
    };
    let time_started = clock_start();
    let mut finished_iterations: usize = 0;
    let ghost mut last = tree@;
    let ghost mut done: nat = 0;
    proof {
        lemma_placeholders(tree@.kids(), tree@.kids().len() as int);
    }
    loop
        invariant_except_break
            finished_iterations < iterations || finished_iterations == 0,
            finished_iterations < u32::MAX,
            finished_iterations == done,
            last == tree@,
        invariant
            tree.wf(),
            tree.constant == exploration_constant,
            follows_game::<StateType>(tree@),
            searched::<StateType>(start, done as int, tree@),
            grown::<StateType, F>(start, exploration_constant, *scorer, done, last),
            limit is Some <==> time_limit is Some,
            answers(*scorer),
            open_slots(tree@) == 0 || open_slots(tree@) + done <= offered::<StateType>(start).len(),
        ensures
            done <= most_iterations(iterations as int),
            tree@ == last || (last.fully_explored() && tree@.same_statistics(last)),
            time_limit is Some || done == most_iterations(iterations as int) || last.fully_explored(),
        decreases iterations - finished_iterations,
    {
        let ghost before = tree@;
        proof {
            tree.root.lemma_view_kids();
            assert forall|j: int| 0 <= j < before.kids().len() implies (#[trigger] before.kids()[j]).1.cache_sound() by {
                assert(tree.root.slots()[j].1.wf());
            }
            lemma_add_up_falls_below(before);
            assert forall|i: int| 0 <= i < before.kids().len() implies (#[trigger] before.kids()[i]).1.visits()
                < u32::MAX by {
                lemma_child_visits_bound(before.kids(), before.kids().len() as int, i);
            }
        }
        let result = tree.iterate(scorer);
        proof {
            match &result {
                Selection::FullyExplored => {
                    before.lemma_same_statistics(tree@);
                    tree@.lemma_same_statistics(before);
                    lemma_played_same(before, tree@);
                    lemma_placeholders(before.kids(), before.kids().len() as int);
                    lemma_placeholders(tree@.kids(), tree@.kids().len() as int);
                    assert forall|j: int| 0 <= j < tree@.kids().len() implies (#[trigger] tree@.kids()[j]).1
                        is Expanded by {
                        assert(before.kids()[j].1.fully_explored());
                        assert(before.kids()[j].1 is Expanded);
                        assert(tree@.kids()[j].0 == before.kids()[j].0);
                        tree@.kids()[j].1.lemma_same_statistics(before.kids()[j].1);
                    }
                    assert(open_slots(tree@) == 0);
                },
                Selection::Selection(path) => {
                    let (scored, reward) = choose|
                        scored: NodeView<StateType::V, ActionType>,
                        reward: Seq<Reward>,
                    | #[trigger]
                        iterated::<StateType>(before, scored, path@, reward, tree@);
                    assert(iterated::<StateType>(before, scored, path@, reward, tree@));
                    lemma_selects_leads(before, exploration_constant, *scorer, path@);
                    lemma_iteration_fills::<StateType>(before, scored, path@, reward);
                    lemma_placeholders(before.kids(), before.kids().len() as int);
                    if open_slots(before) > 0 {
                        let p = choose|p: int|
                            0 <= p < before.kids().len() && !((#[trigger] before.kids()[p]).1 is Expanded);
                        lemma_unvisited_first(before, exploration_constant, *scorer, path@, p);
                        lemma_first_slot(before.kids(), path@[0], 0);
                        let at = before.child_index(path@[0]);
                        lemma_child_visits_positive(before.kids()[at].1.kids(), before.kids()[at].1.kids().len() as int);
                        assert(visits_add_up(before.kids()[at].1, false));
                        assert(before.child(path@[0]) is Placeholder);
                        assert(open_slots(tree@) == open_slots(before) - 1);
                    } else {
                        lemma_first_slot(before.kids(), path@[0], 0);
                        assert(before.kids()[before.child_index(path@[0])].1 is Expanded);
                        assert(open_slots(tree@) == 0);
                    }
                    last = tree@;
                    done = done + 1;
                },
            }
        }
        finished_iterations += 1;
        let explored = match result {
            Selection::FullyExplored => true,
            Selection::Selection(_) => false,
        };
        let elapsed = clock_elapsed(&time_started);
        if budget_spent(finished_iterations, iterations, explored, nanoseconds(&elapsed), limit)
            || finished_iterations >= u32::MAX as usize {
            break ;
        }
    }
    proof {
        lemma_children_are_open_moves::<StateType>(tree@);
        tree.root.lemma_view_kids();
        lemma_chosen_in_range::<StateType>(tree@, tree@.kids().len() as int, 0);
        assert(grown::<StateType, F>(start, exploration_constant, *scorer, done, last));
        lemma_placeholders(tree@.kids(), tree@.kids().len() as int);
        if last.fully_explored() {
            if tree@ != last {
                tree@.lemma_same_statistics(last);
            }
            assert forall|j: int| 0 <= j < tree@.kids().len() implies (#[trigger] tree@.kids()[j]).1 is Expanded by {
                assert(tree@.kids()[j].1.fully_explored());
            }
        }
        if policy is MostVisits && time_limit is None && most_iterations(iterations as int) >= offered::<
            StateType,
        >(start).len() {
            assert forall|won: ActionType|
                #![trigger wins::<StateType>(start, won)]
                offered::<StateType>(start).contains(won) && wins::<StateType>(start, won) implies wins::<
                StateType,
            >(start, tree@.kids()[chosen::<StateType>(tree@, policy)].0) by {
                lemma_win_is_taken::<StateType>(tree@, won);
            }
        }
        assert(search_ends::<StateType, F>(
            start,
            exploration_constant,
            *scorer,
            most_iterations(iterations as int),
            time_limit is Some,
            tree@,
        ));
    }
    best_action(&tree.root, policy)
}

} // verus!
