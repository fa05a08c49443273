use vstd::prelude::*;

use super::CSAction;
use crate::mon2y::game::{outcome_actions, samplable, total_weight};

verus! {

/// In how many ways four dice can fall so that, listed from the lowest up,
/// they show `a`, `b`, `c` and `d`.
pub open spec fn ways(a: int, b: int, c: int, d: int) -> u32 {
    if a == d {
        1
    } else if a == c || b == d {
        4
    } else if a == b && c == d {
        6
    } else if a == b || b == c || c == d {
        12
    } else {
        24
    }
}

/// The rolls with the three lowest dice `a`, `b` and `c` and the highest from
/// `d` up, each with the number of ways in which it can fall.
pub open spec fn rolls_4(a: int, b: int, c: int, d: int) -> Seq<(CSAction, u32)>
    decreases 7 - d,
{
    if d > 6 {
        Seq::empty()
    } else {
        seq![(CSAction::DiceRoll(a as u8, b as u8, c as u8, d as u8), ways(a, b, c, d))] + rolls_4(
            a,
            b,
            c,
            d + 1,
        )
    }
}

/// The rolls with the two lowest dice `a` and `b` and the third from `c` up.
pub open spec fn rolls_3(a: int, b: int, c: int) -> Seq<(CSAction, u32)>
    decreases 7 - c,
{
    if c > 6 {
        Seq::empty()
    } else {
        rolls_4(a, b, c, c) + rolls_3(a, b, c + 1)
    }
}

/// The rolls with the lowest die `a` and the second from `b` up.
pub open spec fn rolls_2(a: int, b: int) -> Seq<(CSAction, u32)>
    decreases 7 - b,
{
    if b > 6 {
        Seq::empty()
    } else {
        rolls_3(a, b, b) + rolls_2(a, b + 1)
    }
}

/// The rolls with the lowest die from `a` up.
pub open spec fn rolls_1(a: int) -> Seq<(CSAction, u32)>
    decreases 7 - a,
{
    if a > 6 {
        Seq::empty()
    } else {
        rolls_2(a, a) + rolls_1(a + 1)
    }
}

/// List of all dice actions from 4 d6s with weights
/// (so - 1,1,1,1 is weighted 1 - because there's only 1 way to get that combo)
pub open spec fn all_rolls() -> Seq<(CSAction, u32)> {
    rolls_1(1)
}

/// In how many ways four dice can fall so that, listed from the lowest up,
/// they show `a`, `b`, `c` and `d`.
pub fn roll_weight(a: u8, b: u8, c: u8, d: u8) -> (weight: u32)
    ensures
        weight == ways(a as int, b as int, c as int, d as int),
{
    if a == d {
        1
    } else if a == c || b == d {
        4
    } else if a == b && c == d {
        6
    } else if a == b || b == c || c == d {
        12
    } else {
        24
    }
}

/// All the ways in which four dice can fall, listed from the lowest die up,
/// each with its weight: the number of ways in which the dice can fall so.
pub fn dice_actions() -> (actions: Vec<(CSAction, u32)>)
    ensures
        actions@ == all_rolls(),
{
    let mut actions: Vec<(CSAction, u32)> = Vec::new();
    let mut d1: u8 = 1;
    while d1 <= 6
        invariant
            1 <= d1 <= 7,
            actions@ + rolls_1(d1 as int) == all_rolls(),
        decreases 7 - d1,
    {
        let ghost before_1 = actions@;
        let mut d2: u8 = d1;
        while d2 <= 6
            invariant
                1 <= d1 <= d2 <= 7,
                d1 <= 6,
                actions@ + rolls_2(d1 as int, d2 as int) == before_1 + rolls_2(d1 as int, d1 as int),
            decreases 7 - d2,
        {
            let ghost before_2 = actions@;
            let mut d3: u8 = d2;
            while d3 <= 6
                invariant
                    1 <= d1 <= d2 <= d3 <= 7,
                    d2 <= 6,
                    actions@ + rolls_3(d1 as int, d2 as int, d3 as int) == before_2 + rolls_3(
                        d1 as int,
                        d2 as int,
                        d2 as int,
                    ),
                decreases 7 - d3,
            {
                let ghost before_3 = actions@;
                let mut d4: u8 = d3;
                while d4 <= 6
                    invariant
                        1 <= d1 <= d2 <= d3 <= d4 <= 7,
                        d3 <= 6,
                        actions@ + rolls_4(d1 as int, d2 as int, d3 as int, d4 as int) == before_3 + rolls_4(
                            d1 as int,
                            d2 as int,
                            d3 as int,
                            d3 as int,
                        ),
                    decreases 7 - d4,
                {
                    let ghost earlier = actions@;
                    actions.push((CSAction::DiceRoll(d1, d2, d3, d4), roll_weight(d1, d2, d3, d4)));
                    proof {
                        let entry = (
                            CSAction::DiceRoll(d1, d2, d3, d4),
                            ways(d1 as int, d2 as int, d3 as int, d4 as int),
                        );
                        assert(actions@ + rolls_4(d1 as int, d2 as int, d3 as int, d4 + 1) =~= earlier + (
                        seq![entry] + rolls_4(d1 as int, d2 as int, d3 as int, d4 + 1)));
                    }
                    d4 += 1;
                }
                proof {
                    assert(actions@ =~= before_3 + rolls_4(d1 as int, d2 as int, d3 as int, d3 as int));
                    assert(actions@ + rolls_3(d1 as int, d2 as int, d3 + 1) =~= before_3 + (rolls_4(
                        d1 as int,
                        d2 as int,
                        d3 as int,
                        d3 as int,
                    ) + rolls_3(d1 as int, d2 as int, d3 + 1)));
                }
                d3 += 1;
            }
            proof {
                assert(actions@ =~= before_2 + rolls_3(d1 as int, d2 as int, d2 as int));
                assert(actions@ + rolls_2(d1 as int, d2 + 1) =~= before_2 + (rolls_3(
                    d1 as int,
                    d2 as int,
                    d2 as int,
                ) + rolls_2(d1 as int, d2 + 1)));
            }
            d2 += 1;
        }
        proof {
            assert(actions@ =~= before_1 + rolls_2(d1 as int, d1 as int));
            assert(actions@ + rolls_1(d1 + 1) =~= before_1 + (rolls_2(d1 as int, d1 as int) + rolls_1(
                d1 + 1,
            )));
        }
        d1 += 1;
    }
    assert(actions@ =~= actions@ + rolls_1(7));
    actions
}

/// The place of a roll in the list of all rolls: rolls are listed by their
/// lowest die, then by the next, and so on.
pub open spec fn rank(a: int, b: int, c: int, d: int) -> int {
    216 * a + 36 * b + 6 * c + d
}

/// Whether `rolls` lists rolls of sorted dice, each with its weight, by rising
/// rank, all ranks from `low` up and below `high`.
pub open spec fn listed(rolls: Seq<(CSAction, u32)>, low: int, high: int) -> bool {
    &&& forall|i: int|
        0 <= i < rolls.len() ==> is_roll(#[trigger] rolls[i]) && low <= roll_rank(rolls[i].0) < high
    &&& forall|i: int, j: int|
        0 <= i < j < rolls.len() ==> roll_rank((#[trigger] rolls[i]).0) < roll_rank((#[trigger] rolls[j]).0)
}

/// Whether an entry is a roll of four dice from one to six, listed from the
/// lowest up, with its weight.
pub open spec fn is_roll(entry: (CSAction, u32)) -> bool {
    match entry.0 {
        CSAction::DiceRoll(a, b, c, d) => 1 <= a <= b <= c <= d <= 6 && entry.1 == ways(
            a as int,
            b as int,
            c as int,
            d as int,
        ),
        _ => false,
    }
}

/// The rank of a roll.
pub open spec fn roll_rank(action: CSAction) -> int {
    match action {
        CSAction::DiceRoll(a, b, c, d) => rank(a as int, b as int, c as int, d as int),
        _ => 0,
    }
}

/// Two lists of rolls, the second of higher ranks, make one list.
pub proof fn lemma_listed_add(
    first: Seq<(CSAction, u32)>,
    second: Seq<(CSAction, u32)>,
    low: int,
    middle: int,
    split: int,
    high: int,
)
    requires
        listed(first, low, middle),
        listed(second, split, high),
        low <= middle <= split <= high,
    ensures
        listed(first + second, low, high),
{
    let both = first + second;
    assert forall|i: int| 0 <= i < both.len() implies is_roll(#[trigger] both[i]) && low <= roll_rank(
        both[i].0,
    ) < high by {
        if i < first.len() {
            assert(both[i] == first[i]);
        } else {
            assert(both[i] == second[i - first.len()]);
        }
    }
    assert forall|i: int, j: int| 0 <= i < j < both.len() implies roll_rank((#[trigger] both[i]).0)
        < roll_rank((#[trigger] both[j]).0) by {
        if j < first.len() {
            assert(both[i] == first[i] && both[j] == first[j]);
        } else if i < first.len() {
            assert(both[i] == first[i] && both[j] == second[j - first.len()]);
        } else {
            assert(both[i] == second[i - first.len()] && both[j] == second[j - first.len()]);
        }
    }
}

/// The rolls with three dice given are listed by rising rank.
pub proof fn lemma_rolls_4(a: int, b: int, c: int, d: int)
    requires
        1 <= a <= b <= c <= d <= 7,
        c <= 6,
    ensures
        listed(rolls_4(a, b, c, d), rank(a, b, c, d), rank(a, b, c, 7)),
    decreases 7 - d,
{
    if d <= 6 {
        lemma_rolls_4(a, b, c, d + 1);
        let head = seq![(CSAction::DiceRoll(a as u8, b as u8, c as u8, d as u8), ways(a, b, c, d))];
        assert(listed(head, rank(a, b, c, d), rank(a, b, c, d + 1)));
        lemma_listed_add(
            head,
            rolls_4(a, b, c, d + 1),
            rank(a, b, c, d),
            rank(a, b, c, d + 1),
            rank(a, b, c, d + 1),
            rank(a, b, c, 7),
        );
    }
}

/// The rolls with two dice given are listed by rising rank.
pub proof fn lemma_rolls_3(a: int, b: int, c: int)
    requires
        1 <= a <= b <= c <= 7,
        b <= 6,
    ensures
        listed(rolls_3(a, b, c), rank(a, b, c, c), rank(a, b, 7, 7)),
    decreases 7 - c,
{
    if c <= 6 {
        lemma_rolls_3(a, b, c + 1);
        lemma_rolls_4(a, b, c, c);
        lemma_listed_add(
            rolls_4(a, b, c, c),
            rolls_3(a, b, c + 1),
            rank(a, b, c, c),
            rank(a, b, c, 7),
            rank(a, b, c + 1, c + 1),
            rank(a, b, 7, 7),
        );
    }
}

/// The rolls with one die given are listed by rising rank.
pub proof fn lemma_rolls_2(a: int, b: int)
    requires
        1 <= a <= b <= 7,
        a <= 6,
    ensures
        listed(rolls_2(a, b), rank(a, b, b, b), rank(a, 7, 7, 7)),
    decreases 7 - b,
{
    if b <= 6 {
        lemma_rolls_2(a, b + 1);
        lemma_rolls_3(a, b, b);
        lemma_listed_add(
            rolls_3(a, b, b),
            rolls_2(a, b + 1),
            rank(a, b, b, b),
            rank(a, b, 7, 7),
            rank(a, b + 1, b + 1, b + 1),
            rank(a, 7, 7, 7),
        );
    }
}

/// The rolls from a lowest die up are listed by rising rank.
pub proof fn lemma_rolls_1(a: int)
    requires
        1 <= a <= 7,
    ensures
        listed(rolls_1(a), rank(a, a, a, a), rank(7, 7, 7, 7)),
    decreases 7 - a,
{
    if a <= 6 {
        lemma_rolls_1(a + 1);
        lemma_rolls_2(a, a);
        lemma_listed_add(
            rolls_2(a, a),
            rolls_1(a + 1),
            rank(a, a, a, a),
            rank(a, 7, 7, 7),
            rank(a + 1, a + 1, a + 1, a + 1),
            rank(7, 7, 7, 7),
        );
    }
}

/// A list of rolls by rising rank holds at most one roll per rank, and its
/// weights sum up to at most 24 for each.
pub proof fn lemma_listed_bounds(rolls: Seq<(CSAction, u32)>, low: int, high: int)
    requires
        listed(rolls, low, high),
        low <= high,
    ensures
        rolls.len() <= high - low,
        total_weight(rolls) <= 24 * rolls.len(),
    decreases rolls.len(),
{
    if rolls.len() > 0 {
        let last = rolls.len() - 1;
        let rest = rolls.drop_last();
        assert forall|i: int| 0 <= i < rest.len() implies is_roll(#[trigger] rest[i]) && low <= roll_rank(
            rest[i].0,
        ) < roll_rank(rolls[last].0) by {
            assert(rest[i] == rolls[i]);
        }
        assert forall|i: int, j: int| 0 <= i < j < rest.len() implies roll_rank((#[trigger] rest[i]).0)
            < roll_rank((#[trigger] rest[j]).0) by {
            assert(rest[i] == rolls[i] && rest[j] == rolls[j]);
        }
        lemma_listed_bounds(rest, low, roll_rank(rolls[last].0));
    }
}

/// The list of all rolls can be sampled: it is not empty, every weight is
/// positive, no roll is listed twice, and the weights sum up within `u32`.
/// Every roll in it shows four dice from one to six.
pub proof fn lemma_all_rolls()
    ensures
        samplable(all_rolls()),
        forall|i: int| 0 <= i < all_rolls().len() ==> is_roll(#[trigger] all_rolls()[i]),
{
    lemma_rolls_1(1);
    lemma_listed_bounds(all_rolls(), rank(1, 1, 1, 1), rank(7, 7, 7, 7));
    let rolls = all_rolls();
    assert(rolls.len() > 0) by {
        assert(rolls == rolls_2(1, 1) + rolls_1(2));
        assert(rolls_2(1, 1) == rolls_3(1, 1, 1) + rolls_2(1, 2));
        assert(rolls_3(1, 1, 1) == rolls_4(1, 1, 1, 1) + rolls_3(1, 1, 2));
        assert(rolls_4(1, 1, 1, 1).len() > 0);
    }
    assert forall|i: int, j: int|
        0 <= i < outcome_actions(rolls).len() && 0 <= j < outcome_actions(rolls).len() && i
            != j implies outcome_actions(rolls)[i] != outcome_actions(rolls)[j] by {
        if i < j {
            assert(roll_rank(rolls[i].0) < roll_rank(rolls[j].0));
        } else {
            assert(roll_rank(rolls[j].0) < roll_rank(rolls[i].0));
        }
    }
}

} // verus!
