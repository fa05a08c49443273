use vstd::laws_eq::obeys_concrete_eq;
use vstd::prelude::*;

use super::Reward;

verus! {

/// A copy of a list of plain values.
pub fn copied<T: Copy>(items: &Vec<T>) -> (copy: Vec<T>)
    ensures
        copy@ == items@,
{
    let mut copy: Vec<T> = Vec::new();
    let mut i: usize = 0;
    while i < items.len()
        invariant
            i <= items.len(),
            copy@ == items@.take(i as int),
        decreases items.len() - i,
    {
        copy.push(items[i]);
        proof {
            assert(copy@ =~= items@.take(i + 1));
        }
        i += 1;
    }
    assert(copy@ =~= items@);
    copy
}

/// Who moves next: a player, or the game itself with weighted outcomes.
#[derive(Debug)]
pub enum Actor<ActionType> {
    /// A player is just an identifier, typically a number between 0 and n-1.
    Player(u8),
    /// A move that the game takes (rolling dice, drawing a card): the possible
    /// outcomes, each with its weight.
    GameAction(Vec<(ActionType, u32)>),
}

/// The mathematical value of an [`Actor`].
pub enum ActorView<ActionType> {
    Player(u8),
    GameAction(Seq<(ActionType, u32)>),
}

impl<ActionType> View for Actor<ActionType> {
    type V = ActorView<ActionType>;

    open spec fn view(&self) -> ActorView<ActionType> {
        match self {
            Actor::Player(id) => ActorView::Player(*id),
            Actor::GameAction(outcomes) => ActorView::GameAction(outcomes@),
        }
    }
}

impl<ActionType: Copy> Clone for Actor<ActionType> {
    fn clone(&self) -> (copy: Actor<ActionType>)
        ensures
            copy@ == self@,
    {
        match self {
            Actor::Player(id) => Actor::Player(*id),
            Actor::GameAction(outcomes) => Actor::GameAction(copied(outcomes)),
        }
    }
}

/// The sum of the weights of a list of weighted outcomes.
pub open spec fn total_weight<T>(outcomes: Seq<(T, u32)>) -> nat
    decreases outcomes.len(),
{
    if outcomes.len() == 0 {
        0
    } else {
        total_weight(outcomes.drop_last()) + outcomes.last().1 as nat
    }
}

/// The actions of a list of weighted outcomes, in order.
pub open spec fn outcome_actions<T>(outcomes: Seq<(T, u32)>) -> Seq<T> {
    Seq::new(outcomes.len(), |i: int| outcomes[i].0)
}

/// A list of weighted outcomes that can be sampled: not empty, no weight is
/// zero, no outcome occurs twice, and the weights add up within `u32`.
pub open spec fn samplable<T>(outcomes: Seq<(T, u32)>) -> bool {
    &&& outcomes.len() > 0
    &&& forall|i: int| 0 <= i < outcomes.len() ==> (#[trigger] outcomes[i]).1 > 0
    &&& outcome_actions(outcomes).no_duplicates()
    &&& total_weight(outcomes) <= u32::MAX
}

/// A move of a game.
pub trait Action: Sized + Copy + PartialEq {
    type StateType: View;

    /// Whether the action may be taken in `state`.
    spec fn applicable(&self, state: <Self::StateType as View>::V) -> bool;

    /// The state that follows `state` when the action is taken.
    spec fn successor(&self, state: <Self::StateType as View>::V) -> <Self::StateType as View>::V;

    /// `==` on actions is equality of values.
    proof fn lemma_eq()
        ensures
            obeys_concrete_eq::<Self>(),
    ;

    /// Takes the action: the input is left as it is and the successor returned.
    fn execute(&self, state: &Self::StateType) -> (next: Self::StateType)
        requires
            self.applicable(state@),
        ensures
            next@ == self.successor(state@),
    ;
}

/// A position of a game.
pub trait State: Sized + View {
    type ActionType: Action<StateType = Self>;

    /// The positions that play can reach.
    spec fn inv(v: Self::V) -> bool;

    /// The moves a player may choose from.
    spec fn permitted(v: Self::V) -> Seq<Self::ActionType>;

    /// Who moves next.
    spec fn actor(v: Self::V) -> ActorView<Self::ActionType>;

    /// Whether the game is over.
    spec fn is_terminal(v: Self::V) -> bool;

    /// One reward per player.
    spec fn rewards(v: Self::V) -> Seq<Reward>;

    /// The number of players.
    spec fn players(v: Self::V) -> nat;

    /// What a game owes the search in every position that play can reach.
    ///
    /// Where a player moves: no move is listed twice, each may be taken and
    /// leads to a position of the game, and the player has a move while the
    /// game is running and none once it is over. Where chance moves: no
    /// outcome is listed twice, each may be taken and leads to a position of
    /// the game, the outcomes can be sampled while the game is running, and
    /// there is none once it is over. Everywhere: the rewards hold one entry
    /// per player, a player who moves is one of the players, and no move
    /// changes the number of players.
    proof fn lemma_moves(v: Self::V)
        requires
            Self::inv(v),
        ensures
            Self::rewards(v).len() == Self::players(v),
            Self::actor(v) matches ActorView::Player(id) ==> (id as nat) < Self::players(v),
            Self::actor(v) is Player ==> {
                &&& Self::permitted(v).no_duplicates()
                &&& !Self::is_terminal(v) ==> Self::permitted(v).len() > 0
                &&& Self::is_terminal(v) ==> Self::permitted(v).len() == 0
                &&& forall|i: int|
                    0 <= i < Self::permitted(v).len() ==> {
                        let a = #[trigger] Self::permitted(v)[i];
                        &&& a.applicable(v)
                        &&& Self::inv(a.successor(v))
                        &&& Self::players(a.successor(v)) == Self::players(v)
                    }
            },
            Self::actor(v) is GameAction ==> {
                &&& outcome_actions(Self::actor(v)->GameAction_0).no_duplicates()
                &&& !Self::is_terminal(v) ==> samplable(Self::actor(v)->GameAction_0)
                &&& Self::is_terminal(v) ==> Self::actor(v)->GameAction_0.len() == 0
                &&& forall|i: int|
                    0 <= i < Self::actor(v)->GameAction_0.len() ==> {
                        let a = (#[trigger] Self::actor(v)->GameAction_0[i]).0;
                        &&& a.applicable(v)
                        &&& Self::inv(a.successor(v))
                        &&& Self::players(a.successor(v)) == Self::players(v)
                    }
            },
    ;

    /// The moves a player may choose from.
    fn permitted_actions(&self) -> (actions: Vec<Self::ActionType>)
        requires
            Self::inv(self@),
        ensures
            actions@ == Self::permitted(self@),
    ;

    /// Who moves next: a player, or chance with its weighted outcomes.
    fn next_actor(&self) -> (actor: Actor<Self::ActionType>)
        requires
            Self::inv(self@),
        ensures
            actor@ == Self::actor(self@),
    ;

    /// Whether the game is over.
    fn terminal(&self) -> (over: bool)
        requires
            Self::inv(self@),
        ensures
            over == Self::is_terminal(self@),
    ;

    /// One reward per player; the higher, the better for the player.
    fn reward(&self) -> (reward: Vec<Reward>)
        requires
            Self::inv(self@),
        ensures
            reward@ == Self::rewards(self@),
    ;
}

/// The moves that are open in a position: those the player may choose from, or
/// the outcomes of the chance move.
pub open spec fn offered<S: State>(v: S::V) -> Seq<S::ActionType> {
    match S::actor(v) {
        ActorView::Player(_) => S::permitted(v),
        ActorView::GameAction(outcomes) => outcome_actions(outcomes),
    }
}

/// The weight that a child slot carries: that of the outcome for a chance move,
/// none for a player's move.
pub open spec fn slot_weight<S: State>(v: S::V, i: int) -> Option<u32> {
    match S::actor(v) {
        ActorView::Player(_) => None,
        ActorView::GameAction(outcomes) => Some(outcomes[i].1),
    }
}

/// No open move is listed twice, and each may be taken and leads to a position
/// of the game with as many players. There is an open move while the game is
/// running, and none once it is over. The rewards hold one entry per player,
/// and a player who moves is one of the players.
pub proof fn lemma_offered<S: State>(v: S::V)
    requires
        S::inv(v),
    ensures
        offered::<S>(v).no_duplicates(),
        !S::is_terminal(v) ==> offered::<S>(v).len() > 0,
        S::is_terminal(v) ==> offered::<S>(v).len() == 0,
        S::rewards(v).len() == S::players(v),
        S::actor(v) matches ActorView::Player(id) ==> (id as nat) < S::players(v),
        forall|i: int|
            0 <= i < offered::<S>(v).len() ==> {
                let a = #[trigger] offered::<S>(v)[i];
                &&& a.applicable(v)
                &&& S::inv(a.successor(v))
                &&& S::players(a.successor(v)) == S::players(v)
            },
{
    S::lemma_moves(v);
    match S::actor(v) {
        ActorView::Player(_) => {},
        ActorView::GameAction(outcomes) => {
            assert forall|i: int| 0 <= i < offered::<S>(v).len() implies {
                let a = #[trigger] offered::<S>(v)[i];
                &&& a.applicable(v)
                &&& S::inv(a.successor(v))
                &&& S::players(a.successor(v)) == S::players(v)
            } by {
                assert(offered::<S>(v)[i] == outcomes[i].0);
            }
        },
    }
}

} // verus!
