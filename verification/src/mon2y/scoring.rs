use vstd::prelude::*;

use super::game::Action;
use super::model::{lemma_first_slot, NodeView};
use super::node::{CachedUcb, Node};
use super::ranking::{descending, lemma_ranked, lemma_ranked_members, rank_picks, ranked};
use super::{Score, SCORE_INFINITY};

verus! {

/// What a selection score is computed from.
#[derive(Debug, Clone, Copy)]
pub struct UcbTerms {
    /// The exploration constant, in fixed-point units.
    pub constant: Score,
    /// The visits of the parent, at least one.
    pub parent_visits: u32,
    /// The visits of the child, at least one.
    pub visits: u32,
    /// The sum of the rewards of the child, in fixed-point units.
    pub value_sum: i128,
    /// The weight of the child's slot, one where it carries none.
    pub weight: u32,
    /// Whether the parent is a chance move.
    pub game_action: bool,
}

/// Whether a scorer can be asked for the score of any child that was
/// visited, under a parent that counts a visit, and gives each a score below
/// [`SCORE_INFINITY`], which is kept for the children without a visit.
pub open spec fn answers<F: Fn(UcbTerms) -> Score>(scorer: F) -> bool {
    &&& forall|terms: UcbTerms|
        terms.visits >= 1 && terms.parent_visits >= 1 ==> #[trigger] call_requires(scorer, (terms,))
    &&& forall|terms: UcbTerms, score: Score|
        terms.visits >= 1 && terms.parent_visits >= 1 && #[trigger] call_ensures(scorer, (terms,), score)
            ==> score < SCORE_INFINITY
}

/// The visits of a parent as selection counts them: at least one.
pub open spec fn counted_visits<SV, ActionType>(parent: NodeView<SV, ActionType>) -> u32 {
    if parent.visits() == 0 {
        1
    } else {
        parent.visits()
    }
}

/// What the score of `child` under `parent` is computed from.
pub open spec fn ucb_terms<SV, ActionType>(
    parent: NodeView<SV, ActionType>,
    child: NodeView<SV, ActionType>,
    constant: Score,
) -> UcbTerms {
    UcbTerms {
        constant,
        parent_visits: counted_visits(parent),
        visits: child.visits(),
        value_sum: child.value(),
        weight: match child.slot_weight() {
            Some(w) => w,
            None => 1,
        },
        game_action: parent.is_chance(),
    }
}

/// What the child remembers once `score` was computed for it under `parent`.
pub open spec fn remembered<SV, ActionType>(
    parent: NodeView<SV, ActionType>,
    child: NodeView<SV, ActionType>,
    score: Score,
) -> CachedUcb {
    CachedUcb {
        ucb: score,
        value_sum: child.value(),
        visit_count: child.visits(),
        parent_visit_count: counted_visits(parent),
    }
}

/// Whether `score` is a selection score of `child` under `parent`: the score
/// that the child remembers, if it was computed from the statistics as they
/// are; else infinity for a child without a visit; else a score that `scorer`
/// gives for the statistics.
pub open spec fn score_fits<SV, ActionType, F: Fn(UcbTerms) -> Score>(
    parent: NodeView<SV, ActionType>,
    child: NodeView<SV, ActionType>,
    constant: Score,
    scorer: F,
    score: Score,
) -> bool {
    match child.cache_hit(child.value(), child.visits(), counted_visits(parent)) {
        Some(known) => score == known,
        None => if child.visits() == 0 {
            score == SCORE_INFINITY
        } else {
            call_ensures(scorer, (ucb_terms(parent, child, constant),), score)
        },
    }
}

/// Whether `scores` holds, for each child of `parent` that is not fully
/// explored, a selection score of it.
pub open spec fn scores_fit<SV, ActionType, F: Fn(UcbTerms) -> Score>(
    parent: NodeView<SV, ActionType>,
    constant: Score,
    scorer: F,
    scores: Seq<Score>,
) -> bool {
    &&& scores.len() == parent.kids().len()
    &&& forall|i: int|
        0 <= i < parent.kids().len() && !(#[trigger] parent.kids()[i]).1.fully_explored() ==> score_fits(
            parent,
            parent.kids()[i].1,
            constant,
            scorer,
            scores[i],
        )
}

/// The candidates for selection among the first `n` children of `parent`:
/// those that are not fully explored, each with its score, in their order.
pub open spec fn candidates<SV, ActionType>(
    parent: NodeView<SV, ActionType>,
    scores: Seq<Score>,
    n: int,
) -> Seq<(ActionType, Score)>
    decreases n,
{
    if n <= 0 {
        Seq::empty()
    } else if parent.kids()[n - 1].1.fully_explored() {
        candidates(parent, scores, n - 1)
    } else {
        candidates(parent, scores, n - 1).push((parent.kids()[n - 1].0, scores[n - 1]))
    }
}

/// Whether `pick` is one of the first `n` children of `parent` that is not
/// fully explored, with its score.
pub open spec fn is_candidate<SV, ActionType>(
    parent: NodeView<SV, ActionType>,
    scores: Seq<Score>,
    n: int,
    pick: (ActionType, Score),
) -> bool {
    exists|i: int|
        0 <= i < n && !(#[trigger] parent.kids()[i]).1.fully_explored() && pick == (
            parent.kids()[i].0,
            scores[i],
        )
}

/// Each candidate is a child that is not fully explored, with its score.
pub proof fn lemma_candidates_members<SV, ActionType>(
    parent: NodeView<SV, ActionType>,
    scores: Seq<Score>,
    n: int,
)
    requires
        0 <= n <= parent.kids().len(),
    ensures
        forall|k: int|
            0 <= k < candidates(parent, scores, n).len() ==> is_candidate(
                parent,
                scores,
                n,
                #[trigger] candidates(parent, scores, n)[k],
            ),
        forall|i: int|
            0 <= i < n && !(#[trigger] parent.kids()[i]).1.fully_explored() ==> candidates(
                parent,
                scores,
                n,
            ).len() > 0,
    decreases n,
{
    if n > 0 {
        lemma_candidates_members(parent, scores, n - 1);
        let rest = candidates(parent, scores, n - 1);
        let all = candidates(parent, scores, n);
        assert forall|k: int| 0 <= k < all.len() implies is_candidate(
            parent,
            scores,
            n,
            #[trigger] all[k],
        ) by {
            if k < rest.len() {
                assert(is_candidate(parent, scores, n - 1, rest[k]));
                let i = choose|i: int|
                    0 <= i < n - 1 && !(#[trigger] parent.kids()[i]).1.fully_explored() && rest[k] == (
                        parent.kids()[i].0,
                        scores[i],
                    );
                assert(all[k] == rest[k]);
                assert(0 <= i < n && !parent.kids()[i].1.fully_explored() && all[k] == (
                    parent.kids()[i].0,
                    scores[i],
                ));
            } else {
                assert(!parent.kids()[n - 1].1.fully_explored());
                assert(all[k] == (parent.kids()[n - 1].0, scores[n - 1]));
            }
        }
    }
}

/// Each child that is not fully explored is a candidate, with its score.
pub proof fn lemma_candidates_hold<SV, ActionType>(
    parent: NodeView<SV, ActionType>,
    scores: Seq<Score>,
    n: int,
    i: int,
)
    requires
        0 <= i < n <= parent.kids().len(),
        !parent.kids()[i].1.fully_explored(),
    ensures
        candidates(parent, scores, n).contains((parent.kids()[i].0, scores[i])),
    decreases n,
{
    let all = candidates(parent, scores, n);
    if i < n - 1 {
        lemma_candidates_hold(parent, scores, n - 1, i);
        let rest = candidates(parent, scores, n - 1);
        let k = choose|k: int| 0 <= k < rest.len() && rest[k] == (parent.kids()[i].0, scores[i]);
        assert(all[k] == rest[k]);
    } else {
        assert(all.last() == (parent.kids()[i].0, scores[i]));
    }
}

/// The child slots of `parent` once each candidate remembers its score.
pub open spec fn scored_kids<SV, ActionType>(
    parent: NodeView<SV, ActionType>,
    scores: Seq<Score>,
) -> Seq<(ActionType, NodeView<SV, ActionType>)> {
    Seq::new(
        parent.kids().len(),
        |i: int|
            if parent.kids()[i].1.fully_explored() {
                parent.kids()[i]
            } else {
                (
                    parent.kids()[i].0,
                    parent.kids()[i].1.with_cache(
                        Some(remembered(parent, parent.kids()[i].1, scores[i])),
                    ),
                )
            },
    )
}

/// A selection score is infinity for a child without a visit, and only for
/// such a child: what is remembered for it says so, and the scorer gives less.
pub proof fn lemma_infinity_means_unvisited<SV, ActionType, F: Fn(UcbTerms) -> Score>(
    parent: NodeView<SV, ActionType>,
    child: NodeView<SV, ActionType>,
    constant: Score,
    scorer: F,
    score: Score,
)
    requires
        score_fits(parent, child, constant, scorer, score),
        child.cache_sound(),
        answers(scorer),
    ensures
        (score == SCORE_INFINITY) == (child.visits() == 0),
{
    if child.visits() != 0 {
        let terms = ucb_terms(parent, child, constant);
        assert(terms.visits >= 1 && terms.parent_visits >= 1);
    }
}

/// The candidates for selection below `node`, best first: every child that is
/// not fully explored, with its selection score, ranked from the highest score
/// down. Each candidate then remembers its score. A placeholder has none.
/// The children without a visit score infinity, and so come first, in their
/// order; every other child scores less.
pub fn best_pick<StateType, ActionType, F>(
    node: &mut Node<StateType, ActionType>,
    constant: Score,
    scorer: &F,
) -> (picks: Vec<(ActionType, Score)>) where
    StateType: View,
    ActionType: Action,
    F: Fn(UcbTerms) -> Score,

    requires
        old(node).wf(),
        answers(*scorer),
    ensures
        final(node).wf(),
        exists|scores: Seq<Score>|
            {
                &&& scores_fit(old(node)@, constant, *scorer, scores)
                &&& picks@ == ranked(candidates(old(node)@, scores, old(node)@.kids().len() as int))
                &&& final(node)@ == old(node)@.with_kids(#[trigger] scored_kids(old(node)@, scores))
            },
        descending(picks@),
        forall|k: int|
            0 <= k < picks@.len() ==> {
                &&& old(node)@.child_index((#[trigger] picks@[k]).0) < old(node)@.kids().len()
                &&& !old(node)@.child(picks@[k].0).fully_explored()
                &&& (picks@[k].1 == SCORE_INFINITY) == (old(node)@.child(picks@[k].0).visits() == 0)
            },
        forall|i: int|
            0 <= i < old(node)@.kids().len() && !(#[trigger] old(node)@.kids()[i]).1.fully_explored()
                ==> exists|k: int| 0 <= k < picks@.len() && (#[trigger] picks@[k]).0 == old(node)@.kids()[i].0,
{
    let ghost parent = node@;
    let ghost before = node.slots();
    proof {
        node.lemma_view_kids();
    }
    match node {
        Node::Expanded { children, visit_count, game_action, .. } => {
            let parent_visit_count: u32 = if *visit_count == 0 {
                1
            } else {
                *visit_count
            };
            let chance = *game_action;
            let mut found: Vec<(ActionType, Score)> = Vec::new();
            let ghost mut scores: Seq<Score> = Seq::empty();
            let mut i: usize = 0;
            while i < children.len()
                invariant
                    i <= children.len(),
                    children@.len() == before.len(),
                    parent.kids().len() == before.len(),
                    parent_visit_count == counted_visits(parent),
                    parent_visit_count >= 1,
                    chance == parent.is_chance(),
                    answers(*scorer),
                    forall|j: int|
                        0 <= j < before.len() ==> #[trigger] parent.kids()[j] == (before[j].0, before[j].1@),
                    forall|j: int| 0 <= j < children@.len() ==> (#[trigger] children@[j]).1.wf(),
                    forall|j: int| i <= j < children@.len() ==> #[trigger] children@[j] == before[j],
                    scores.len() == i,
                    forall|j: int|
                        0 <= j < i ==> {
                            &&& (#[trigger] children@[j]).0 == before[j].0
                            &&& children@[j].1@ == scored_kids(parent, scores)[j].1
                        },
                    forall|j: int|
                        0 <= j < i && !(#[trigger] parent.kids()[j]).1.fully_explored() ==> score_fits(
                            parent,
                            parent.kids()[j].1,
                            constant,
                            *scorer,
                            scores[j],
                        ),
                    found@ == candidates(parent, scores, i as int),
                decreases children.len() - i,
            {
                let ghost earlier = scores;
                let child = &mut children[i];
                let action = child.0;
                if child.1.fully_explored() {
                    proof {
                        scores = scores.push(0);
                    }
                } else {
                    let value_sum = child.1.value_sum();
                    let visits = child.1.visit_count();
                    let score = match child.1.cached_ucb(value_sum, visits, parent_visit_count) {
                        Some(known) => known,
                        None => {
                            if visits == 0 {
                                SCORE_INFINITY
                            } else {
                                let terms = UcbTerms {
                                    constant,
                                    parent_visits: parent_visit_count,
                                    visits,
                                    value_sum,
                                    weight: child.1.weight(),
                                    game_action: chance,
                                };
                                scorer(terms)
                            }
                        },
                    };
                    child.1.cache_ucb(score, value_sum, visits, parent_visit_count);
                    found.push((action, score));
                    proof {
                        scores = scores.push(score);
                    }
                }
                proof {
                    lemma_candidates_prefix(parent, earlier, scores, i as int);
                    assert forall|j: int| 0 <= j < i + 1 implies {
                        &&& (#[trigger] children@[j]).0 == before[j].0
                        &&& children@[j].1@ == scored_kids(parent, scores)[j].1
                    } by {
                        if j < i {
                            assert(scored_kids(parent, scores)[j] == scored_kids(parent, earlier)[j]);
                        }
                    }
                }
                i += 1;
            }
            let picks = rank_picks(&found);
            proof {
                node.lemma_view_kids();
                assert(node@.kids() =~= scored_kids(parent, scores));
                assert forall|j: int| 0 <= j < node@.kids().len() implies (#[trigger] node@.kids()[j]).1.fully_explored()
                    == parent.kids()[j].1.fully_explored() by {
                    assert(node@.kids()[j] == scored_kids(parent, scores)[j]);
                    parent.kids()[j].1.lemma_with_cache_explored(
                        Some(remembered(parent, parent.kids()[j].1, scores[j])),
                    );
                }
                assert(node@.fully_explored() == parent.fully_explored()) by {
                    if parent.fully_explored() {
                        assert forall|j: int| 0 <= j < node@.kids().len() implies (
                        #[trigger] node@.kids()[j]).1.fully_explored() by {
                            assert(parent.kids()[j].1.fully_explored());
                        }
                    } else {
                        let j = choose|j: int|
                            0 <= j < parent.kids().len() && !(#[trigger] parent.kids()[j]).1.fully_explored();
                        assert(!node@.kids()[j].1.fully_explored());
                    }
                }
                assert forall|a: int, b: int| 0 <= a < b < node@.kids().len() implies (
                #[trigger] node@.kids()[a]).0 != (#[trigger] node@.kids()[b]).0 by {
                    assert(node@.kids()[a].0 == parent.kids()[a].0);
                    assert(node@.kids()[b].0 == parent.kids()[b].0);
                }
                assert(scores_fit(parent, constant, *scorer, scores));
                assert(node@ == parent.with_kids(scored_kids(parent, scores)));
                lemma_picks(parent, constant, *scorer, scores);
                assert forall|j: int| 0 <= j < parent.kids().len() implies (#[trigger] parent.kids()[j]).1.cache_sound() by {
                    assert(before[j].1.wf());
                }
                lemma_picks_scores(parent, constant, *scorer, scores);
            }
            picks
        },
        Node::Placeholder { .. } => {
            proof {
                let scores = Seq::<Score>::empty();
                assert(scores_fit(parent, constant, *scorer, scores));
                assert(scored_kids(parent, scores) =~= parent.kids());
                assert(node@ == parent.with_kids(scored_kids(parent, scores)));
            }
            let picks: Vec<(ActionType, Score)> = Vec::new();
            picks
        },
    }
}

/// The ranked candidates never rise in score, each is a child that is not
/// fully explored, and each such child is among them.
pub proof fn lemma_picks<SV, ActionType, F: Fn(UcbTerms) -> Score>(
    parent: NodeView<SV, ActionType>,
    constant: Score,
    scorer: F,
    scores: Seq<Score>,
)
    requires
        parent.distinct_slots(),
    ensures
        descending(ranked(candidates(parent, scores, parent.kids().len() as int))),
        forall|k: int|
            0 <= k < ranked(candidates(parent, scores, parent.kids().len() as int)).len() ==> {
                let pick = #[trigger] ranked(candidates(parent, scores, parent.kids().len() as int))[k];
                &&& parent.child_index(pick.0) < parent.kids().len()
                &&& !parent.child(pick.0).fully_explored()
                &&& pick.1 == scores[parent.child_index(pick.0)]
            },
        forall|i: int|
            0 <= i < parent.kids().len() && !(#[trigger] parent.kids()[i]).1.fully_explored() ==> exists|k: int|
                0 <= k < ranked(candidates(parent, scores, parent.kids().len() as int)).len() && (#[trigger] ranked(
                    candidates(parent, scores, parent.kids().len() as int),
                )[k]).0 == parent.kids()[i].0,
{
    let n = parent.kids().len() as int;
    let found = candidates(parent, scores, n);
    let best = ranked(found);
    lemma_ranked(found);
    lemma_ranked_members(found);
    lemma_candidates_members(parent, scores, n);
    assert forall|k: int| 0 <= k < best.len() implies {
        let pick = #[trigger] best[k];
        &&& parent.child_index(pick.0) < parent.kids().len()
        &&& !parent.child(pick.0).fully_explored()
        &&& pick.1 == scores[parent.child_index(pick.0)]
    } by {
        assert(found.contains(best[k]));
        let m = choose|m: int| 0 <= m < found.len() && found[m] == best[k];
        assert(is_candidate(parent, scores, n, found[m]));
        let j = choose|j: int|
            0 <= j < n && !(#[trigger] parent.kids()[j]).1.fully_explored() && found[m] == (
                parent.kids()[j].0,
                scores[j],
            );
        lemma_first_slot(parent.kids(), best[k].0, 0);
        if parent.child_index(best[k].0) < j {
            assert(parent.kids()[parent.child_index(best[k].0)].0 != parent.kids()[j].0);
        }
    }
    assert forall|i: int|
        0 <= i < parent.kids().len() && !(#[trigger] parent.kids()[i]).1.fully_explored() implies exists|k: int|
        0 <= k < best.len() && (#[trigger] best[k]).0 == parent.kids()[i].0 by {
        lemma_candidates_hold(parent, scores, n, i);
        let m = choose|m: int| 0 <= m < found.len() && found[m] == (parent.kids()[i].0, scores[i]);
        assert(best.contains(found[m]));
        let k = choose|k: int| 0 <= k < best.len() && best[k] == found[m];
        assert(best[k].0 == parent.kids()[i].0);
    }
}

/// A ranked candidate scores infinity exactly where its child has no visit.
pub proof fn lemma_picks_scores<SV, ActionType, F: Fn(UcbTerms) -> Score>(
    parent: NodeView<SV, ActionType>,
    constant: Score,
    scorer: F,
    scores: Seq<Score>,
)
    requires
        parent.distinct_slots(),
        scores_fit(parent, constant, scorer, scores),
        answers(scorer),
        forall|j: int| 0 <= j < parent.kids().len() ==> (#[trigger] parent.kids()[j]).1.cache_sound(),
    ensures
        forall|k: int|
            0 <= k < ranked(candidates(parent, scores, parent.kids().len() as int)).len() ==> {
                let pick = #[trigger] ranked(candidates(parent, scores, parent.kids().len() as int))[k];
                (pick.1 == SCORE_INFINITY) == (parent.child(pick.0).visits() == 0)
            },
{
    let best = ranked(candidates(parent, scores, parent.kids().len() as int));
    lemma_picks(parent, constant, scorer, scores);
    assert forall|k: int| 0 <= k < best.len() implies {
        let pick = #[trigger] best[k];
        (pick.1 == SCORE_INFINITY) == (parent.child(pick.0).visits() == 0)
    } by {
        let j = parent.child_index(best[k].0);
        lemma_first_slot(parent.kids(), best[k].0, 0);
        assert(parent.kids()[j].1.cache_sound());
        assert(score_fits(parent, parent.kids()[j].1, constant, scorer, scores[j]));
        lemma_infinity_means_unvisited(parent, parent.kids()[j].1, constant, scorer, scores[j]);
    }
}

/// The candidates among the first children depend on the scores of those
/// children only.
pub proof fn lemma_candidates_prefix<SV, ActionType>(
    parent: NodeView<SV, ActionType>,
    a: Seq<Score>,
    b: Seq<Score>,
    n: int,
)
    requires
        n <= a.len(),
        n <= b.len(),
        forall|i: int| 0 <= i < n ==> a[i] == b[i],
    ensures
        candidates(parent, a, n) == candidates(parent, b, n),
    decreases n,
{
    if n > 0 {
        lemma_candidates_prefix(parent, a, b, n - 1);
    }
}

} // verus!
