use vstd::prelude::*;

use super::Score;

verus! {

/// Where a pick with `score` goes in a list that is ranked from the highest
/// score down: behind every pick whose score is at least as high.
pub open spec fn rank_position<T>(picks: Seq<(T, Score)>, score: Score, from: int) -> int
    decreases picks.len() - from,
{
    if from < 0 || from >= picks.len() {
        picks.len() as int
    } else if picks[from].1 < score {
        from
    } else {
        rank_position(picks, score, from + 1)
    }
}

/// The picks ranked from the highest score down. Picks with the same score
/// stay in the order in which they came.
pub open spec fn ranked<T>(picks: Seq<(T, Score)>) -> Seq<(T, Score)>
    decreases picks.len(),
{
    if picks.len() == 0 {
        picks
    } else {
        let head = ranked(picks.drop_last());
        head.insert(rank_position(head, picks.last().1, 0), picks.last())
    }
}

/// Whether the scores never rise along the list.
pub open spec fn descending<T>(picks: Seq<(T, Score)>) -> bool {
    forall|i: int, j: int| 0 <= i <= j < picks.len() ==> (#[trigger] picks[i]).1 >= (#[trigger] picks[j]).1
}

/// `rank_position` lies in the list, with only scores at least as high before
/// it and, in a descending list, only lower scores from it on.
pub proof fn lemma_rank_position<T>(picks: Seq<(T, Score)>, score: Score, from: int)
    requires
        0 <= from <= picks.len(),
    ensures
        from <= rank_position(picks, score, from) <= picks.len(),
        forall|j: int| from <= j < rank_position(picks, score, from) ==> (#[trigger] picks[j]).1 >= score,
        descending(picks) ==> forall|j: int|
            rank_position(picks, score, from) <= j < picks.len() ==> (#[trigger] picks[j]).1 < score,
    decreases picks.len() - from,
{
    if from < picks.len() && picks[from].1 >= score {
        lemma_rank_position(picks, score, from + 1);
    }
}

/// Ranking keeps every pick, each as often as it came, and the result is
/// descending.
pub proof fn lemma_ranked<T>(picks: Seq<(T, Score)>)
    ensures
        ranked(picks).len() == picks.len(),
        ranked(picks).to_multiset() == picks.to_multiset(),
        descending(ranked(picks)),
    decreases picks.len(),
{
    broadcast use vstd::seq_lib::group_to_multiset_ensures;

    if picks.len() > 0 {
        let head = ranked(picks.drop_last());
        let x = picks.last();
        let p = rank_position(head, x.1, 0);
        lemma_ranked(picks.drop_last());
        lemma_rank_position(head, x.1, 0);
        let all = head.insert(p, x);
        assert(all.remove(p) =~= head);
        assert(all[p] == x);
        assert(all.to_multiset().remove(x) == head.to_multiset());
        assert(all.to_multiset().count(x) > 0) by {
            assert(all.contains(x));
        }
        assert(all.to_multiset() =~= head.to_multiset().insert(x));
        assert(picks.drop_last().push(x) =~= picks);
        assert(picks.to_multiset() =~= picks.drop_last().to_multiset().insert(x));
        assert forall|i: int, j: int| 0 <= i <= j < all.len() implies (#[trigger] all[i]).1 >= (
        #[trigger] all[j]).1 by {
            if i < p && j < p {
                assert(all[i] == head[i] && all[j] == head[j]);
            } else if i < p && j == p {
                assert(all[i] == head[i]);
            } else if i < p && j > p {
                assert(all[i] == head[i] && all[j] == head[j - 1]);
            } else if i == p && j > p {
                assert(all[j] == head[j - 1]);
            } else if i > p {
                assert(all[i] == head[i - 1] && all[j] == head[j - 1]);
            }
        }
    }
}

/// Every ranked pick is one of the picks, and every pick is ranked somewhere.
pub proof fn lemma_ranked_members<T>(picks: Seq<(T, Score)>)
    ensures
        forall|k: int| 0 <= k < ranked(picks).len() ==> picks.contains(#[trigger] ranked(picks)[k]),
        forall|k: int| 0 <= k < picks.len() ==> ranked(picks).contains(#[trigger] picks[k]),
{
    broadcast use vstd::seq_lib::group_to_multiset_ensures;

    lemma_ranked(picks);
    assert forall|k: int| 0 <= k < ranked(picks).len() implies picks.contains(
        #[trigger] ranked(picks)[k],
    ) by {
        assert(ranked(picks).contains(ranked(picks)[k]));
        assert(ranked(picks).to_multiset().count(ranked(picks)[k]) > 0);
    }
    assert forall|k: int| 0 <= k < picks.len() implies ranked(picks).contains(#[trigger] picks[k]) by {
        assert(picks.contains(picks[k]));
        assert(picks.to_multiset().count(picks[k]) > 0);
    }
}

/// Ranks the picks from the highest score down, keeping the order of picks
/// with the same score.
pub fn rank_picks<T: Copy>(picks: &Vec<(T, Score)>) -> (sorted: Vec<(T, Score)>)
    ensures
        sorted@ == ranked(picks@),
{
    let mut sorted: Vec<(T, Score)> = Vec::new();
    let mut i: usize = 0;
    assert(picks@.take(0) =~= Seq::empty());
    while i < picks.len()
        invariant
            i <= picks.len(),
            sorted@ == ranked(picks@.take(i as int)),
        decreases picks.len() - i,
    {
        let x = picks[i];
        let mut p: usize = 0;
        proof {
            lemma_ranked(picks@.take(i as int));
        }
        while p < sorted.len() && sorted[p].1 >= x.1
            invariant
                p <= sorted.len(),
                rank_position(sorted@, x.1, 0) == rank_position(sorted@, x.1, p as int),
            decreases sorted.len() - p,
        {
            p += 1;
        }
        proof {
            assert(picks@.take(i + 1).drop_last() =~= picks@.take(i as int));
            assert(picks@.take(i + 1).last() == x);
        }
        sorted.insert(p, x);
        i += 1;
    }
    assert(picks@.take(picks.len() as int) =~= picks@);
    sorted
}

} // verus!
