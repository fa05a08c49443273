use vstd::prelude::*;

use super::game::{lemma_offered, offered, Action, Actor, State};
use super::invariants::{
    leads_to_placeholder, lemma_expand_follows_game, lemma_expandable, lemma_follows_game_same,
    lemma_iteration_visits_add_up, lemma_leads_same, lemma_played_same, lemma_players_along,
    lemma_propagate_follows_game, lemma_rewarded, lemma_visits_add_up_same, played, visits_add_up,
};
use super::model::{expand, expandable, lemma_first_slot, propagable, propagate, rewarded, NodeView};
use super::steps::{
    lemma_expand_keeps_below, lemma_expanded_is_trodden, lemma_falls_below_same, lemma_propagable,
    lemma_propagate_keeps_below, roomy,
};
use super::node::{find_slot, CachedUcb, Node};
use super::scoring::{
    answers, best_pick, candidates, is_candidate, lemma_candidates_hold, lemma_candidates_members, remembered,
    score_fits, scored_kids, scores_fit, ucb_terms, UcbTerms,
};
use super::ranking::{lemma_ranked, lemma_ranked_members, ranked};
use super::weighted_random::{weighted_random, Dice};
use super::{Reward, Score, DEFAULT_EXPLORATION_CONSTANT, SCORE_INFINITY};

verus! {

/// What selection found.
#[derive(Debug, PartialEq)]
pub enum Selection<ActionType> {
    /// Every node of the tree is fully explored: nothing is left to select.
    FullyExplored,
    /// The moves from the root to a placeholder.
    Selection(Vec<ActionType>),
}

/// A search tree.
pub struct Tree<StateType, ActionType> {
    pub root: Node<StateType, ActionType>,
    /// The exploration constant, in fixed-point units.
    pub constant: Score,
    /// The source of the random moves of the play-outs.
    pub dice: Dice,
}

/// Whether selection from `node` can give `path`: at each node the move is the
/// best candidate of a ranking of its children that are not fully explored,
/// placeholders end the path, and expanded children continue it.
pub open spec fn selects<SV, ActionType, F: Fn(UcbTerms) -> Score>(
    node: NodeView<SV, ActionType>,
    constant: Score,
    scorer: F,
    path: Seq<ActionType>,
) -> bool
    decreases path.len(),
{
    &&& path.len() > 0
    &&& exists|scores: Seq<Score>|
        {
            &&& scores_fit(node, constant, scorer, scores)
            &&& (#[trigger] ranked(candidates(node, scores, node.kids().len() as int))).len() > 0
            &&& ranked(candidates(node, scores, node.kids().len() as int))[0].0 == path[0]
        }
    &&& node.child_index(path[0]) < node.kids().len()
    &&& !node.child(path[0]).fully_explored()
    &&& match node.child(path[0]) {
        NodeView::Placeholder { .. } => path.len() == 1,
        NodeView::Expanded { .. } => selects(node.child(path[0]), constant, scorer, path.skip(1)),
    }
}

/// While a child without a visit is among the candidates, selection goes
/// into a child without a visit: such a child scores infinity, and every
/// child with a visit scores below it.
pub proof fn lemma_unvisited_first<SV, ActionType, F: Fn(UcbTerms) -> Score>(
    node: NodeView<SV, ActionType>,
    constant: Score,
    scorer: F,
    path: Seq<ActionType>,
    i: int,
)
    requires
        selects(node, constant, scorer, path),
        answers(scorer),
        node.distinct_slots(),
        forall|j: int| 0 <= j < node.kids().len() ==> (#[trigger] node.kids()[j]).1.cache_sound(),
        0 <= i < node.kids().len(),
        !node.kids()[i].1.fully_explored(),
        node.kids()[i].1.visits() == 0,
    ensures
        node.child(path[0]).visits() == 0,
{
    let n = node.kids().len() as int;
    let scores = choose|scores: Seq<Score>|
        {
            &&& scores_fit(node, constant, scorer, scores)
            &&& (#[trigger] ranked(candidates(node, scores, n))).len() > 0
            &&& ranked(candidates(node, scores, n))[0].0 == path[0]
        };
    let found = candidates(node, scores, n);
    let best = ranked(found);
    lemma_ranked(found);
    lemma_ranked_members(found);
    lemma_candidates_members(node, scores, n);
    lemma_candidates_hold(node, scores, n, i);
    assert(node.kids()[i].1.cache_sound());
    assert(score_fits(node, node.kids()[i].1, constant, scorer, scores[i]));
    assert(scores[i] == SCORE_INFINITY);
    let at = choose|at: int| 0 <= at < found.len() && found[at] == (node.kids()[i].0, scores[i]);
    assert(best.contains(found[at]));
    let k = choose|k: int| 0 <= k < best.len() && best[k] == found[at];
    assert(best[0].1 >= best[k].1);
    assert(found.contains(best[0]));
    let m = choose|m: int| 0 <= m < found.len() && found[m] == best[0];
    assert(is_candidate(node, scores, n, found[m]));
    let j = choose|j: int|
        0 <= j < n && !(#[trigger] node.kids()[j]).1.fully_explored() && found[m] == (
            node.kids()[j].0,
            scores[j],
        );
    lemma_first_slot(node.kids(), path[0], 0);
    assert(node.child_index(path[0]) == j) by {
        if node.child_index(path[0]) < j {
            assert(node.kids()[node.child_index(path[0])].0 != node.kids()[j].0);
        }
    }
    assert(node.kids()[j].1.cache_sound());
    assert(score_fits(node, node.kids()[j].1, constant, scorer, scores[j]));
    if node.kids()[j].1.visits() != 0 {
        let terms = ucb_terms(node, node.kids()[j].1, constant);
        assert(terms.visits >= 1 && terms.parent_visits >= 1);
    }
}

/// What selection does at a node does not depend on the score that the node
/// itself remembers.
pub proof fn lemma_selects_own_cache<SV, ActionType, F: Fn(UcbTerms) -> Score>(
    node: NodeView<SV, ActionType>,
    cache: Option<CachedUcb>,
    constant: Score,
    scorer: F,
    path: Seq<ActionType>,
)
    requires
        selects(node.with_cache(cache), constant, scorer, path),
    ensures
        selects(node, constant, scorer, path),
{
    let other = node.with_cache(cache);
    assert(other.kids() == node.kids());
    let scores = choose|scores: Seq<Score>|
        {
            &&& scores_fit(other, constant, scorer, scores)
            &&& (#[trigger] ranked(candidates(other, scores, other.kids().len() as int))).len() > 0
            &&& ranked(candidates(other, scores, other.kids().len() as int))[0].0 == path[0]
        };
    lemma_candidates_own_cache(node, cache, scores, node.kids().len() as int);
    assert(scores_fit(node, constant, scorer, scores)) by {
        assert forall|i: int|
            0 <= i < node.kids().len() && !(#[trigger] node.kids()[i]).1.fully_explored() implies score_fits(
            node,
            node.kids()[i].1,
            constant,
            scorer,
            scores[i],
        ) by {
            assert(score_fits(other, other.kids()[i].1, constant, scorer, scores[i]));
        }
    }
    assert(ranked(candidates(node, scores, node.kids().len() as int)).len() > 0);
}

/// The candidates at a node do not depend on the score that the node itself
/// remembers.
pub proof fn lemma_candidates_own_cache<SV, ActionType>(
    node: NodeView<SV, ActionType>,
    cache: Option<CachedUcb>,
    scores: Seq<Score>,
    n: int,
)
    ensures
        candidates(node.with_cache(cache), scores, n) == candidates(node, scores, n),
    decreases n,
{
    if n > 0 {
        lemma_candidates_own_cache(node, cache, scores, n - 1);
        assert(node.with_cache(cache).kids() == node.kids());
    }
}

/// One descent from `node`: at each node the best candidate, until a
/// placeholder is reached.
fn select_from<StateType, ActionType, F>(
    node: &mut Node<StateType, ActionType>,
    constant: Score,
    scorer: &F,
) -> (selection: Selection<ActionType>) where
    StateType: View,
    ActionType: Action,
    F: Fn(UcbTerms) -> Score,

    requires
        old(node).wf(),
        answers(*scorer),
    ensures
        final(node).wf(),
        final(node)@.same_statistics(old(node)@),
        match selection {
            Selection::FullyExplored => old(node)@ is Placeholder || old(node)@.fully_explored(),
            Selection::Selection(path) => selects(old(node)@, constant, *scorer, path@),
        },
    decreases old(node)@.height(),
{
    let ghost parent = node@;
    let picks = best_pick(node, constant, scorer);
    let ghost scores = choose|scores: Seq<Score>|
        {
            &&& scores_fit(parent, constant, *scorer, scores)
            &&& picks@ == ranked(candidates(parent, scores, parent.kids().len() as int))
            &&& node@ == parent.with_kids(#[trigger] scored_kids(parent, scores))
        };
    let ghost found = candidates(parent, scores, parent.kids().len() as int);
    let ghost scored = node@;
    proof {
        lemma_ranked(found);
        lemma_ranked_members(found);
        lemma_candidates_members(parent, scores, parent.kids().len() as int);
        assert forall|i: int| 0 <= i < scored.kids().len() implies {
            &&& (#[trigger] scored.kids()[i]).0 == parent.kids()[i].0
            &&& scored.kids()[i].1.same_statistics(parent.kids()[i].1)
        } by {
            assert(scored.kids()[i] == scored_kids(parent, scores)[i]);
        }
        parent.lemma_same_statistics_kids(scored.kids());
    }
    if picks.len() == 0 {
        proof {
            if parent is Expanded {
                assert forall|i: int| 0 <= i < parent.kids().len() implies (
                #[trigger] parent.kids()[i]).1.fully_explored() by {
                    if !parent.kids()[i].1.fully_explored() {
                        assert(found.len() > 0);
                    }
                }
            }
        }
        return Selection::FullyExplored;
    }
    let action = picks[0].0;
    proof {
        assert(found.contains(picks@[0]));
        let k = choose|k: int| 0 <= k < found.len() && found[k] == picks@[0];
        assert(is_candidate(parent, scores, parent.kids().len() as int, found[k]));
        let i = choose|i: int|
            0 <= i < parent.kids().len() && !(#[trigger] parent.kids()[i]).1.fully_explored() && found[k]
                == (parent.kids()[i].0, scores[i]);
        lemma_first_slot(parent.kids(), action, 0);
        assert(parent.child_index(action) == i);
        node.lemma_child_index(action);
        node.lemma_view_kids();
        lemma_first_slot(scored.kids(), action, 0);
        assert(scored.child_index(action) == i) by {
            assert(scored.kids()[i].0 == action);
            if scored.child_index(action) < i {
                assert(parent.kids()[scored.child_index(action)].0 == action);
            }
        }
    }
    let ghost i = parent.child_index(action);
    match node {
        Node::Expanded { children, .. } => {
            let slot = find_slot(children, action);
            let ghost slots = children@;
            let ghost before = children@[slot as int].1;
            proof {
                parent.lemma_child_lower(i);
                parent.kids()[i].1.lemma_with_cache_explored(
                    Some(remembered(parent, parent.kids()[i].1, scores[i])),
                );
                before@.lemma_same_statistics(parent.kids()[i].1);
            }
            let expanded = match &children[slot].1 {
                Node::Expanded { .. } => true,
                Node::Placeholder { .. } => false,
            };
            if expanded {
                let child = &mut children[slot].1;
                let below = select_from(child, constant, scorer);
                let ghost after = *child;
                proof {
                    before@.lemma_same_statistics(after@);
                }
                let selection = match below {
                    Selection::Selection(rest) => {
                        let mut path: Vec<ActionType> = Vec::new();
                        path.push(action);
                        let mut k: usize = 0;
                        while k < rest.len()
                            invariant
                                k <= rest.len(),
                                path@.len() == k + 1,
                                path@[0] == action,
                                forall|j: int| 0 <= j < k ==> #[trigger] path@[j + 1] == rest@[j],
                            decreases rest.len() - k,
                        {
                            path.push(rest[k]);
                            k += 1;
                        }
                        proof {
                            assert(path@.skip(1) =~= rest@);
                            lemma_selects_own_cache(
                                parent.kids()[i].1,
                                Some(remembered(parent, parent.kids()[i].1, scores[i])),
                                constant,
                                *scorer,
                                rest@,
                            );
                        }
                        Selection::Selection(path)
                    },
                    Selection::FullyExplored => Selection::FullyExplored,
                };
                proof {
                    node.lemma_view_kids();
                    assert(node.slots() =~= slots.update(i, (action, after)));
                    assert(node@.kids() =~= scored.kids().update(i, (action, after@)));
                    assert forall|j: int| 0 <= j < node@.kids().len() implies {
                        &&& (#[trigger] node@.kids()[j]).0 == parent.kids()[j].0
                        &&& node@.kids()[j].1.same_statistics(parent.kids()[j].1)
                        &&& node@.kids()[j].1.fully_explored() == scored.kids()[j].1.fully_explored()
                    } by {
                        if j != i {
                            assert(node@.kids()[j] == scored.kids()[j]);
                        }
                    }
                    parent.lemma_same_statistics_kids(node@.kids());
                    assert(node@ == parent.with_kids(node@.kids()));
                    scored.lemma_explored_same_kids(node@.kids());
                    assert(node@ == scored.with_kids(node@.kids()));
                    assert forall|a: int, b: int| 0 <= a < b < node@.kids().len() implies (
                    #[trigger] node@.kids()[a]).0 != (#[trigger] node@.kids()[b]).0 by {
                        assert(parent.kids()[a].0 != parent.kids()[b].0);
                    }
                }
                selection
            } else {
                let mut path: Vec<ActionType> = Vec::new();
                path.push(action);
                Selection::Selection(path)
            }
        },
        Node::Placeholder { .. } => Selection::FullyExplored,
    }
}

/// The position that play reaches from `from` by `moves`.
pub open spec fn run<S: State>(from: S::V, moves: Seq<S::ActionType>) -> S::V
    decreases moves.len(),
{
    if moves.len() == 0 {
        from
    } else {
        moves.last().successor(run::<S>(from, moves.drop_last()))
    }
}

/// Whether `moves` can be played from `from`: each move is open in the
/// position in which it is taken, and the game is not over there.
pub open spec fn legal_run<S: State>(from: S::V, moves: Seq<S::ActionType>) -> bool
    decreases moves.len(),
{
    moves.len() == 0 || {
        &&& legal_run::<S>(from, moves.drop_last())
        &&& !S::is_terminal(run::<S>(from, moves.drop_last()))
        &&& offered::<S>(run::<S>(from, moves.drop_last())).contains(moves.last())
    }
}

/// The most moves of one play-out: a game that is not over after that many is
/// left as it stands.
pub const PLAY_OUT_LIMIT: u64 = 0xffff_ffff_ffff_ffff;

/// Whether `reward` is what a play-out from `from` can return: the rewards of
/// a position reached from `from` by open moves, in which the game is over or
/// which lies as many moves away as a play-out goes.
pub open spec fn played_out<S: State>(from: S::V, reward: Seq<Reward>) -> bool {
    exists|moves: Seq<S::ActionType>|
        {
            &&& #[trigger] legal_run::<S>(from, moves)
            &&& S::is_terminal(run::<S>(from, moves)) || moves.len() == PLAY_OUT_LIMIT
            &&& reward == S::rewards(run::<S>(from, moves))
        }
}

/// Play by open moves stays within the positions of the game, and leaves the
/// number of players as it is.
pub proof fn lemma_run_stays<S: State>(from: S::V, moves: Seq<S::ActionType>)
    requires
        S::inv(from),
        legal_run::<S>(from, moves),
    ensures
        S::inv(run::<S>(from, moves)),
        S::players(run::<S>(from, moves)) == S::players(from),
    decreases moves.len(),
{
    if moves.len() > 0 {
        let before = run::<S>(from, moves.drop_last());
        lemma_run_stays::<S>(from, moves.drop_last());
        lemma_offered::<S>(before);
        let i = choose|i: int| 0 <= i < offered::<S>(before).len() && offered::<S>(before)[i] == moves.last();
        assert(offered::<S>(before)[i] == moves.last());
    }
}

/// What a play-out returns holds one reward per player.
pub proof fn lemma_played_out_rewards<S: State>(from: S::V, reward: Seq<Reward>)
    requires
        S::inv(from),
        played_out::<S>(from, reward),
    ensures
        reward.len() == S::players(from),
{
    let moves = choose|moves: Seq<S::ActionType>|
        {
            &&& #[trigger] legal_run::<S>(from, moves)
            &&& S::is_terminal(run::<S>(from, moves)) || moves.len() == PLAY_OUT_LIMIT
            &&& reward == S::rewards(run::<S>(from, moves))
        };
    lemma_run_stays::<S>(from, moves);
    lemma_offered::<S>(run::<S>(from, moves));
}

/// Whether one iteration can lead from the tree `before` to the tree `after`
/// by way of `path`: `scored` is `before` up to remembered scores, `reward`
/// is what a play-out from the position at the end of the expanded path can
/// return, and `after` is `scored` expanded along the path and then visited
/// along it with that reward.
pub open spec fn iterated<S: State>(
    before: NodeView<S::V, S::ActionType>,
    scored: NodeView<S::V, S::ActionType>,
    path: Seq<S::ActionType>,
    reward: Seq<Reward>,
    after: NodeView<S::V, S::ActionType>,
) -> bool {
    &&& scored.same_statistics(before)
    &&& played_out::<S>(expand::<S>(scored, path).at(path).position(), reward)
    &&& after == propagate::<S>(expand::<S>(scored, path), path, reward)
}

/// A path that selection can give leads through expanded nodes to a
/// placeholder.
pub proof fn lemma_selects_leads<SV, ActionType, F: Fn(UcbTerms) -> Score>(
    node: NodeView<SV, ActionType>,
    constant: Score,
    scorer: F,
    path: Seq<ActionType>,
)
    requires
        selects(node, constant, scorer, path),
    ensures
        leads_to_placeholder(node, path),
    decreases path.len(),
{
    if node.child(path[0]) is Expanded {
        lemma_selects_leads(node.child(path[0]), constant, scorer, path.skip(1));
    }
}

/// One random move in a running game: a player's move is drawn evenly from
/// those open, an outcome of a chance move by its weight.
pub fn random_move<StateType, ActionType>(state: &StateType, dice: &mut Dice) -> (action: ActionType) where
    StateType: State<ActionType = ActionType>,
    ActionType: Action<StateType = StateType>,

    requires
        StateType::inv(state@),
        !StateType::is_terminal(state@),
    ensures
        offered::<StateType>(state@).contains(action),
{
    proof {
        lemma_offered::<StateType>(state@);
    }
    match state.next_actor() {
        Actor::Player(_) => {
            proof {
                StateType::lemma_moves(state@);
            }
            let permitted_actions = state.permitted_actions();
            let drawn = dice.roll(permitted_actions.len() as u64) as usize;
            permitted_actions[drawn]
        },
        Actor::GameAction(outcomes) => {
            proof {
                StateType::lemma_moves(state@);
            }
            let ghost listed = outcomes@;
            let action = weighted_random(outcomes, dice);
            proof {
                let i = choose|i: int| 0 <= i < listed.len() && action == listed[i].0;
                assert(offered::<StateType>(state@)[i] == action);
            }
            action
        },
    }
}

impl<StateType, ActionType> View for Tree<StateType, ActionType> where StateType: View {
    type V = NodeView<StateType::V, ActionType>;

    open spec fn view(&self) -> NodeView<StateType::V, ActionType> {
        self.root@
    }
}

impl<StateType, ActionType> Tree<StateType, ActionType> where
    StateType: State<ActionType = ActionType>,
    ActionType: Action<StateType = StateType>,
 {
    /// The tree is well formed: its root is, and is expanded.
    pub open spec fn wf(&self) -> bool {
        self.root.wf() && self.root is Expanded
    }

    /// A tree with the usual exploration constant, the square root of two.
    pub fn new(root: Node<StateType, ActionType>) -> (tree: Tree<StateType, ActionType>)
        ensures
            tree.root == root,
            tree.constant == DEFAULT_EXPLORATION_CONSTANT,
    {
        Tree { root, constant: DEFAULT_EXPLORATION_CONSTANT, dice: Dice::new() }
    }

    /// A tree with the given exploration constant, in fixed-point units.
    pub fn new_with_constant(root: Node<StateType, ActionType>, constant: Score) -> (tree: Tree<
        StateType,
        ActionType,
    >)
        ensures
            tree.root == root,
            tree.constant == constant,
    {
        Tree { root, constant, dice: Dice::new() }
    }

    /// A tree with the given exploration constant whose play-outs fall the
    /// same way whenever it is set up with the same seed.
    pub fn seeded(root: Node<StateType, ActionType>, constant: Score, seed: u64) -> (tree: Tree<
        StateType,
        ActionType,
    >)
        ensures
            tree.root == root,
            tree.constant == constant,
    {
        Tree { root, constant, dice: Dice::seeded(seed) }
    }

    /// Returns a path to the current selection: from the root, at each node
    /// the child with the highest score among those that are not fully
    /// explored, down to a placeholder. Where `scorer` is asked for a score,
    /// the candidate remembers it; nothing else in the tree changes.
    pub fn selection<F>(&mut self, scorer: &F) -> (selection: Selection<ActionType>) where
        F: Fn(UcbTerms) -> Score,

        requires
            old(self).wf(),
            answers(*scorer),
        ensures
            final(self).wf(),
            final(self).constant == old(self).constant,
            final(self)@.same_statistics(old(self)@),
            match selection {
                Selection::FullyExplored => old(self)@.fully_explored(),
                Selection::Selection(path) => selects(old(self)@, old(self).constant, *scorer, path@),
            },
    {
        proof {
            self.root@.lemma_same_statistics(self.root@);
        }
        let selection = select_from(&mut self.root, self.constant, scorer);
        proof {
            self.root@.lemma_same_statistics(old(self).root@);
        }
        selection
    }

    /// Expands the placeholders along the selected path. Nothing changes
    /// where the tree is fully explored.
    pub fn expansion(&mut self, selection: &Selection<ActionType>)
        requires
            old(self).wf(),
            selection matches Selection::Selection(path) ==> expandable::<StateType>(old(self)@, path@),
        ensures
            final(self).wf(),
            final(self).constant == old(self).constant,
            final(self)@ == (match selection {
                Selection::FullyExplored => old(self)@,
                Selection::Selection(path) => expand::<StateType>(old(self)@, path@),
            }),
    {
        match selection {
            Selection::Selection(path) => {
                proof {
                    assert(path@.skip(0) =~= path@);
                    if path@.len() > 0 {
                        assert(self.root@ is Expanded);
                    }
                }
                self.root.expand_along(path, 0);
                proof {
                    self.root.lemma_view_kids();
                }
            },
            Selection::FullyExplored => {},
        }
    }

    /// Plays the game from `state` to its end by random moves, and returns
    /// the rewards of the position reached. A game that is not over after
    /// `PLAY_OUT_LIMIT` moves is left as it stands.
    pub fn play_out(&mut self, state: &StateType) -> (reward: Vec<Reward>)
        requires
            StateType::inv(state@),
        ensures
            played_out::<StateType>(state@, reward@),
            reward@.len() == StateType::players(state@),
            final(self).root == old(self).root,
            final(self).constant == old(self).constant,
    {
        Self::roll_out(state, &mut self.dice)
    }

    /// Plays the game from `state` to its end by moves drawn with `dice`,
    /// and returns the rewards of the position reached, one per player.
    pub fn roll_out(state: &StateType, dice: &mut Dice) -> (reward: Vec<Reward>)
        requires
            StateType::inv(state@),
        ensures
            played_out::<StateType>(state@, reward@),
            reward@.len() == StateType::players(state@),
    {
        if state.terminal() {
            proof {
                assert(legal_run::<StateType>(state@, Seq::empty()));
                lemma_offered::<StateType>(state@);
            }
            return state.reward();
        }
        let first = random_move(state, dice);
        proof {
            lemma_offered::<StateType>(state@);
        }
        let mut cur_state = first.execute(state);
        let mut played: u64 = 1;
        let ghost mut moves: Seq<ActionType> = seq![first];
        proof {
            assert(moves.drop_last() =~= Seq::empty());
            assert(legal_run::<StateType>(state@, moves.drop_last()));
            assert(run::<StateType>(state@, moves.drop_last()) == state@);
        }
        while played < PLAY_OUT_LIMIT && !cur_state.terminal()
            invariant
                StateType::inv(cur_state@),
                StateType::inv(state@),
                legal_run::<StateType>(state@, moves),
                run::<StateType>(state@, moves) == cur_state@,
                moves.len() == played,
                played <= PLAY_OUT_LIMIT,
            decreases PLAY_OUT_LIMIT - played,
        {
            let action = random_move(&cur_state, dice);
            proof {
                lemma_offered::<StateType>(cur_state@);
                assert(moves.push(action).drop_last() =~= moves);
                moves = moves.push(action);
            }
            cur_state = action.execute(&cur_state);
            played += 1;
        }
        let reward = cur_state.reward();
        proof {
            lemma_played_out_rewards::<StateType>(state@, reward@);
        }
        reward
    }

    /// Visits the nodes along `path` below the root with what the play-out
    /// brought: each counts one more visit, and adds the reward of the player
    /// who chose the move into it, or nothing where chance chose. The root,
    /// which no move leads into, is left with its count and its sum. The
    /// rewards hold an entry for each player who chose a move of the path.
    pub fn propagate_reward(&mut self, path: Vec<ActionType>, reward: Vec<Reward>)
        requires
            old(self).wf(),
            propagable::<StateType>(old(self)@, path@),
            rewarded::<StateType>(old(self)@, path@, reward@),
        ensures
            final(self).wf(),
            final(self).constant == old(self).constant,
            final(self)@ == propagate::<StateType>(old(self)@, path@, reward@),
    {
        self.credit_path(&path, &reward);
    }

    /// Visits the nodes along `path` below the root, as `propagate_reward`
    /// does, for a path and rewards that the caller keeps.
    pub fn credit_path(&mut self, path: &Vec<ActionType>, reward: &Vec<Reward>)
        requires
            old(self).wf(),
            propagable::<StateType>(old(self)@, path@),
            rewarded::<StateType>(old(self)@, path@, reward@),
        ensures
            final(self).wf(),
            final(self).constant == old(self).constant,
            final(self)@ == propagate::<StateType>(old(self)@, path@, reward@),
    {
        proof {
            assert(path@.skip(0) =~= path@);
        }
        self.root.credit_below(path, 0, reward);
        proof {
            self.root.lemma_view_kids();
        }
    }

    /// One iteration of the search: selects a path to a placeholder, expands
    /// it, plays the game out from the position at its end, and visits the
    /// nodes along it below the root with the rewards. Where the tree is
    /// fully explored, nothing is left to do.
    pub fn iterate<F>(&mut self, scorer: &F) -> (selection: Selection<ActionType>) where
        F: Fn(UcbTerms) -> Score,

        requires
            old(self).ready(),
            roomy(old(self)@),
            answers(*scorer),
        ensures
            final(self).ready(),
            final(self).constant == old(self).constant,
            visits_add_up(old(self)@, true) ==> visits_add_up(final(self)@, true),
            final(self)@.position() == old(self)@.position(),
            final(self)@.visits() == old(self)@.visits(),
            final(self)@.value() == old(self)@.value(),
            match selection {
                Selection::FullyExplored => {
                    &&& old(self)@.fully_explored()
                    &&& final(self)@.same_statistics(old(self)@)
                },
                Selection::Selection(path) => {
                    &&& selects(old(self)@, old(self).constant, *scorer, path@)
                    &&& visits_add_up(old(self)@, true) ==> played(final(self)@) == played(old(self)@) + 1
                    &&& exists|scored: NodeView<StateType::V, ActionType>, reward: Seq<Reward>|
                        #[trigger] iterated::<StateType>(old(self)@, scored, path@, reward, final(self)@)
                },
            },
    {
        let selection = self.selection(scorer);
        let ghost before = old(self)@;
        let ghost scored = self@;
        proof {
            scored.lemma_same_statistics(before);
            before.lemma_same_statistics(scored);
            lemma_follows_game_same::<StateType>(before, scored);
            lemma_falls_below_same(before, scored);
            if visits_add_up(before, true) {
                lemma_visits_add_up_same(before, scored, true);
            }
        }
        match selection {
            Selection::FullyExplored => Selection::FullyExplored,
            Selection::Selection(path) => {
                let ghost grew = expand::<StateType>(scored, path@);
                proof {
                    lemma_selects_leads(before, self.constant, *scorer, path@);
                    lemma_leads_same(before, scored, path@);
                    lemma_expandable::<StateType>(scored, path@);
                    lemma_expand_follows_game::<StateType>(scored, path@);
                    lemma_expanded_is_trodden::<StateType>(scored, path@);
                    lemma_expand_keeps_below::<StateType>(scored, path@);
                    lemma_first_slot(scored.kids(), path@[0], 0);
                    lemma_first_slot(grew.kids(), path@[0], 0);
                    assert(scored.kids()[scored.child_index(path@[0])].1.visits() < u32::MAX);
                    assert(grew.kids()[grew.child_index(path@[0])].1.visits() < u32::MAX);
                    lemma_propagable::<StateType>(grew, path@);
                    assert(path@.skip(0) =~= path@);
                }
                self.root.expand_along(&path, 0);
                let reward = Self::roll_out(self.root.descendant(&path).state(), &mut self.dice);
                proof {
                    lemma_players_along::<StateType>(grew, path@);
                    lemma_rewarded::<StateType>(grew, path@, reward@);
                }
                self.credit_path(&path, &reward);
                proof {
                    lemma_propagate_follows_game::<StateType>(grew, path@, reward@);
                    lemma_propagate_keeps_below::<StateType>(grew, path@, reward@);
                    if visits_add_up(before, true) {
                        lemma_iteration_visits_add_up::<StateType>(scored, path@, reward@);
                        lemma_played_same(before, scored);
                    }
                    assert(iterated::<StateType>(before, scored, path@, reward@, self@));
                }
                Selection::Selection(path)
            },
        }
    }
}

} // verus!
