use vstd::laws_eq::obeys_concrete_eq;
use vstd::prelude::*;
use vstd::std_specs::cmp::PartialEqSpecImpl;

use crate::mon2y::game::{copied, outcome_actions, samplable, Action, Actor, ActorView, State};
use crate::mon2y::{Reward, FIXED_ONE};

verus! {

/// A move of the scripted game: it says how the game goes on.
#[derive(Copy, Clone, Eq, Hash, Debug)]
pub enum InjectableGameAction {
    /// Ends the game with a reward of one.
    Win,
    /// Ends the game with a reward of minus one.
    Lose,
    /// Leaves one move: a win after that many further moves.
    WinInXTurns(u8),
    /// Leaves that many moves, each a win after some further moves.
    NextTurnInjectActionCount(u8),
    /// Leaves the moves as they are.
    Nothing,
}

impl PartialEq for InjectableGameAction {
    fn eq(&self, other: &InjectableGameAction) -> (equal: bool) {
        match (self, other) {
            (InjectableGameAction::Win, InjectableGameAction::Win) => true,
            (InjectableGameAction::Lose, InjectableGameAction::Lose) => true,
            (InjectableGameAction::WinInXTurns(a), InjectableGameAction::WinInXTurns(b)) => *a == *b,
            (
                InjectableGameAction::NextTurnInjectActionCount(a),
                InjectableGameAction::NextTurnInjectActionCount(b),
            ) => *a == *b,
            (InjectableGameAction::Nothing, InjectableGameAction::Nothing) => true,
            _ => false,
        }
    }
}

impl PartialEqSpecImpl for InjectableGameAction {
    open spec fn obeys_eq_spec() -> bool {
        true
    }

    open spec fn eq_spec(&self, other: &InjectableGameAction) -> bool {
        *self == *other
    }
}

/// A generic test game that can have injected reward, terminal state, and
/// permitted actions to test tree and node related things.
#[derive(Debug)]
pub struct InjectableGameState {
    pub injected_reward: Vec<Reward>,
    pub injected_terminal: bool,
    pub injected_permitted_actions: Vec<InjectableGameAction>,
    pub player_count: u8,
    pub next_actor: Actor<InjectableGameAction>,
}

/// The mathematical value of a position of the scripted game.
pub struct InjectableGameView {
    pub reward: Seq<Reward>,
    pub terminal: bool,
    pub permitted: Seq<InjectableGameAction>,
    pub player_count: u8,
    pub next_actor: ActorView<InjectableGameAction>,
}

impl View for InjectableGameState {
    type V = InjectableGameView;

    open spec fn view(&self) -> InjectableGameView {
        InjectableGameView {
            reward: self.injected_reward@,
            terminal: self.injected_terminal,
            permitted: self.injected_permitted_actions@,
            player_count: self.player_count,
            next_actor: self.next_actor@,
        }
    }
}

impl Clone for InjectableGameState {
    fn clone(&self) -> (copy: InjectableGameState)
        ensures
            copy@ == self@,
    {
        InjectableGameState {
            injected_reward: copied(&self.injected_reward),
            injected_terminal: self.injected_terminal,
            injected_permitted_actions: copied(&self.injected_permitted_actions),
            player_count: self.player_count,
            next_actor: self.next_actor.clone(),
        }
    }
}

/// Whether a move leaves the game with a move to go on with, or ends it.
pub open spec fn scripted(action: InjectableGameAction) -> bool {
    match action {
        InjectableGameAction::Nothing => false,
        InjectableGameAction::NextTurnInjectActionCount(count) => count > 0,
        _ => true,
    }
}

/// The moves that are open in a position: none once the game is over.
pub open spec fn open_moves(v: InjectableGameView) -> Seq<InjectableGameAction> {
    if v.terminal {
        Seq::empty()
    } else {
        match v.next_actor {
            ActorView::Player(_) => v.permitted,
            ActorView::GameAction(outcomes) => outcome_actions(outcomes),
        }
    }
}

/// Who moves in a position: once the game is over, chance has no outcome
/// left to offer.
pub open spec fn mover(v: InjectableGameView) -> ActorView<InjectableGameAction> {
    match v.next_actor {
        ActorView::GameAction(_) if v.terminal => ActorView::GameAction(Seq::empty()),
        _ => v.next_actor,
    }
}

/// The moves that a win after `count` or fewer moves leaves: one for each
/// number of moves below `count`.
pub open spec fn countdown(count: int) -> Seq<InjectableGameAction> {
    Seq::new(count as nat, |i: int| InjectableGameAction::WinInXTurns(i as u8))
}

/// The rewards of a position, one per player: the rewards of the script as
/// far as they go, and nothing for a player for whom it holds none.
pub open spec fn per_player(v: InjectableGameView) -> Seq<Reward> {
    Seq::new(
        v.player_count as nat,
        |player: int|
            if player < v.reward.len() {
                v.reward[player]
            } else {
                0i64
            },
    )
}

/// Whether the script of a position runs out: there are players, a player
/// who moves is one of them, and no move is listed twice; and while the game is not over there is an open move,
/// and every open move ends the game or leaves a move to go on with.
pub open spec fn runs_out(v: InjectableGameView) -> bool {
    &&& v.player_count > 0
    &&& v.next_actor matches ActorView::Player(id) ==> id < v.player_count
    &&& v.permitted.no_duplicates()
    &&& open_moves(v).no_duplicates()
    &&& !v.terminal ==> {
        &&& open_moves(v).len() > 0
        &&& forall|i: int| 0 <= i < open_moves(v).len() ==> scripted(#[trigger] open_moves(v)[i])
        &&& v.next_actor matches ActorView::GameAction(outcomes) ==> samplable(outcomes)
    }
}

/// Who moves after a move: the next player in turn, or the first player
/// after a chance move.
pub open spec fn actor_after(v: InjectableGameView) -> ActorView<InjectableGameAction> {
    match v.next_actor {
        ActorView::Player(id) => ActorView::Player((((id as int) + 1) % (v.player_count as int)) as u8),
        ActorView::GameAction(_) => ActorView::Player(0),
    }
}

/// The position after a move.
pub open spec fn after(action: InjectableGameAction, v: InjectableGameView) -> InjectableGameView {
    match action {
        InjectableGameAction::NextTurnInjectActionCount(count) => InjectableGameView {
            permitted: countdown(count as int),
            next_actor: actor_after(v),
            ..v
        },
        InjectableGameAction::WinInXTurns(turns) => InjectableGameView {
            permitted: if turns > 0 {
                seq![InjectableGameAction::WinInXTurns((turns - 1) as u8)]
            } else {
                seq![InjectableGameAction::Win]
            },
            next_actor: actor_after(v),
            ..v
        },
        InjectableGameAction::Win => InjectableGameView {
            terminal: true,
            reward: seq![FIXED_ONE],
            next_actor: actor_after(v),
            ..v
        },
        InjectableGameAction::Lose => InjectableGameView {
            terminal: true,
            reward: seq![(-FIXED_ONE) as i64],
            next_actor: actor_after(v),
            ..v
        },
        InjectableGameAction::Nothing => InjectableGameView { next_actor: actor_after(v), ..v },
    }
}

/// A countdown holds no move twice.
pub proof fn lemma_countdown(count: int)
    requires
        0 <= count <= 255,
    ensures
        countdown(count).no_duplicates(),
{
}

/// An open move in a position whose script runs out leads to a position
/// whose script runs out.
pub proof fn lemma_after(v: InjectableGameView, i: int)
    requires
        runs_out(v),
        0 <= i < open_moves(v).len(),
    ensures
        runs_out(after(open_moves(v)[i], v)),
{
    let action = open_moves(v)[i];
    let next = after(action, v);
    if !next.terminal {
        assert(open_moves(next) == next.permitted);
    }
    match action {
        InjectableGameAction::NextTurnInjectActionCount(count) => {
            lemma_countdown(count as int);
            assert(open_moves(next) == countdown(count as int));
        },
        InjectableGameAction::WinInXTurns(turns) => {
            let only = if turns > 0 {
                InjectableGameAction::WinInXTurns((turns - 1) as u8)
            } else {
                InjectableGameAction::Win
            };
            assert(open_moves(next) == seq![only]);
        },
        _ => {},
    }
}

impl Action for InjectableGameAction {
    type StateType = InjectableGameState;

    open spec fn applicable(&self, state: InjectableGameView) -> bool {
        state.next_actor is Player ==> state.player_count > 0
    }

    open spec fn successor(&self, state: InjectableGameView) -> InjectableGameView {
        after(*self, state)
    }

    proof fn lemma_eq() {
        reveal(obeys_concrete_eq);
    }

    fn execute(&self, state: &InjectableGameState) -> (next: InjectableGameState) {
        let next_actor = match &state.next_actor {
            Actor::Player(player_id) => Actor::Player(
                ((*player_id as u16 + 1) % (state.player_count as u16)) as u8,
            ),
            Actor::GameAction(_) => Actor::Player(0),
        };
        let permitted: Vec<InjectableGameAction> = match self {
            InjectableGameAction::NextTurnInjectActionCount(c) => {
                let mut actions: Vec<InjectableGameAction> = Vec::new();
                let mut i: u8 = 0;
                while i < *c
                    invariant
                        i <= *c,
                        actions@ == countdown(*c as int).take(i as int),
                    decreases *c - i,
                {
                    actions.push(InjectableGameAction::WinInXTurns(i));
                    proof {
                        assert(actions@ =~= countdown(*c as int).take(i + 1));
                    }
                    i += 1;
                }
                assert(actions@ =~= countdown(*c as int));
                actions
            },
            InjectableGameAction::WinInXTurns(turns) => {
                let only = if *turns > 0 {
                    InjectableGameAction::WinInXTurns(*turns - 1)
                } else {
                    InjectableGameAction::Win
                };
                let actions = vec![only];
                assert(actions@ =~= seq![only]);
                actions
            },
            _ => copied(&state.injected_permitted_actions),
        };
        let win: Reward = FIXED_ONE;
        let loss: Reward = -FIXED_ONE;
        let reward: Vec<Reward> = match self {
            InjectableGameAction::Win => {
                let reward = vec![win];
                assert(reward@ =~= seq![FIXED_ONE]);
                reward
            },
            InjectableGameAction::Lose => {
                let reward = vec![loss];
                assert(reward@ =~= seq![(-FIXED_ONE) as i64]);
                reward
            },
            _ => copied(&state.injected_reward),
        };
        let terminal = match self {
            InjectableGameAction::Win => true,
            InjectableGameAction::Lose => true,
            _ => state.injected_terminal,
        };
        InjectableGameState {
            injected_reward: reward,
            injected_terminal: terminal,
            injected_permitted_actions: permitted,
            player_count: state.player_count,
            next_actor,
        }
    }
}

impl State for InjectableGameState {
    type ActionType = InjectableGameAction;

    open spec fn inv(v: InjectableGameView) -> bool {
        runs_out(v)
    }

    open spec fn permitted(v: InjectableGameView) -> Seq<InjectableGameAction> {
        if v.terminal {
            Seq::empty()
        } else {
            v.permitted
        }
    }

    open spec fn actor(v: InjectableGameView) -> ActorView<InjectableGameAction> {
        mover(v)
    }

    open spec fn is_terminal(v: InjectableGameView) -> bool {
        v.terminal
    }

    open spec fn rewards(v: InjectableGameView) -> Seq<Reward> {
        per_player(v)
    }

    open spec fn players(v: InjectableGameView) -> nat {
        v.player_count as nat
    }

    proof fn lemma_moves(v: InjectableGameView) {
        if v.terminal {
            assert(outcome_actions(Seq::<(InjectableGameAction, u32)>::empty()) =~= Seq::empty());
        } else {
            match v.next_actor {
                ActorView::Player(_) => {
                    assert forall|i: int| 0 <= i < Self::permitted(v).len() implies {
                        let a = #[trigger] Self::permitted(v)[i];
                        &&& a.applicable(v)
                        &&& Self::inv(a.successor(v))
                        &&& Self::players(a.successor(v)) == Self::players(v)
                    } by {
                        lemma_after(v, i);
                    }
                },
                ActorView::GameAction(outcomes) => {
                    assert forall|i: int| 0 <= i < outcomes.len() implies {
                        let a = (#[trigger] outcomes[i]).0;
                        &&& a.applicable(v)
                        &&& Self::inv(a.successor(v))
                        &&& Self::players(a.successor(v)) == Self::players(v)
                    } by {
                        lemma_after(v, i);
                    }
                },
            }
        }
    }

    fn permitted_actions(&self) -> (actions: Vec<InjectableGameAction>) {
        if self.injected_terminal {
            return Vec::new();
        }
        copied(&self.injected_permitted_actions)
    }

    fn next_actor(&self) -> (actor: Actor<InjectableGameAction>) {
        match &self.next_actor {
            Actor::GameAction(_) if self.injected_terminal => Actor::GameAction(Vec::new()),
            _ => self.next_actor.clone(),
        }
    }

    fn terminal(&self) -> (over: bool) {
        self.injected_terminal
    }

    fn reward(&self) -> (reward: Vec<Reward>) {
        let mut reward: Vec<Reward> = Vec::new();
        let mut player: u8 = 0;
        while player < self.player_count
            invariant
                player <= self.player_count,
                reward@.len() == player,
                forall|p: int| 0 <= p < player ==> #[trigger] reward@[p] == per_player(self@)[p],
            decreases self.player_count - player,
        {
            let at = player as usize;
            if at < self.injected_reward.len() {
                reward.push(self.injected_reward[at]);
            } else {
                reward.push(0);
            }
            player += 1;
        }
        assert(reward@ =~= per_player(self@));
        reward
    }
}

} // verus!
