use vstd::laws_eq::obeys_concrete_eq;
use vstd::prelude::*;
use vstd::std_specs::cmp::PartialEqSpecImpl;

pub mod dice;
pub mod distinct;

pub use dice::dice_actions;
pub use distinct::distinct;

use crate::game::Game;
use crate::mon2y::game::{copied, Action, Actor, ActorView, State};
use crate::mon2y::{Reward, FIXED_ONE};
use dice::{all_rolls, is_roll, lemma_all_rolls};
use distinct::{keep_last, lemma_keep_last, without};

verus! {

/// The number of columns: one for each sum of two dice.
pub const COLUMN_COUNT: usize = 11;

/// A move of the game.
#[derive(Copy, Clone, Eq, Hash, Debug)]
pub enum CSAction {
    /// Four dice fall, listed from the lowest up.
    DiceRoll(u8, u8, u8, u8),
    /// The player moves up a column, and a second one or the same once more.
    Move(u8, Option<u8>),
    /// The player rolls again.
    Roll,
    /// The player stops and keeps what was gained.
    Done,
}

impl PartialEq for CSAction {
    fn eq(&self, other: &CSAction) -> (equal: bool) {
        match (self, other) {
            (CSAction::DiceRoll(a, b, c, d), CSAction::DiceRoll(e, f, g, h)) => *a == *e && *b == *f && *c
                == *g && *d == *h,
            (CSAction::Move(a, None), CSAction::Move(b, None)) => *a == *b,
            (CSAction::Move(a, Some(c)), CSAction::Move(b, Some(d))) => *a == *b && *c == *d,
            (CSAction::Roll, CSAction::Roll) => true,
            (CSAction::Done, CSAction::Done) => true,
            _ => false,
        }
    }
}

impl PartialEqSpecImpl for CSAction {
    open spec fn obeys_eq_spec() -> bool {
        true
    }

    open spec fn eq_spec(&self, other: &CSAction) -> bool {
        *self == *other
    }
}

/// A position of the game.
#[derive(Debug)]
pub struct CSState {
    /// Whether the dice are to be rolled next.
    rolling: bool,
    /// The columns that the player moved up in this turn.
    locked_in_columns: [bool; 11],
    last_roll: Option<(u8, u8, u8, u8)>,
    next_player: u8,
    /// How far up each column each player has come to stay.
    positions: Vec<[u8; 11]>,
    /// How far up the player has come in this turn.
    temp_position: [Option<u8>; 11],
    /// Who has reached the top of a column.
    claimed_columns: [Option<u8>; 11],
    player_count: u8,
}

/// The mathematical value of a position. Columns are numbered from two, the
/// places in the lists from nothing.
pub struct CSStateView {
    pub rolling: bool,
    pub locked: Seq<bool>,
    pub last_roll: Option<(u8, u8, u8, u8)>,
    pub next_player: u8,
    pub positions: Seq<Seq<u8>>,
    pub temp: Seq<Option<u8>>,
    pub claimed: Seq<Option<u8>>,
    pub player_count: u8,
}

impl View for CSState {
    type V = CSStateView;

    closed spec fn view(&self) -> CSStateView {
        CSStateView {
            rolling: self.rolling,
            locked: self.locked_in_columns@,
            last_roll: self.last_roll,
            next_player: self.next_player,
            positions: Seq::new(self.positions@.len(), |p: int| self.positions@[p]@),
            temp: self.temp_position@,
            claimed: self.claimed_columns@,
            player_count: self.player_count,
        }
    }
}

impl Clone for CSState {
    fn clone(&self) -> (copy: CSState)
        ensures
            copy@ == self@,
    {
        self.copy()
    }
}

/// Column lengths in the game
pub open spec fn column_length(column: int) -> int {
    if column <= 7 {
        2 * column - 1
    } else {
        27 - 2 * column
    }
}

/// The number of flags that are set among the first `n`.
pub open spec fn count_set(flags: Seq<bool>, n: int) -> int
    decreases n,
{
    if n <= 0 {
        0
    } else {
        count_set(flags, n - 1) + (if flags[n - 1] {
            1int
        } else {
            0int
        })
    }
}

/// How far up a column the player stands: as far as in this turn, or as far
/// as the player has come to stay.
pub open spec fn standing(v: CSStateView, column: int) -> int {
    match v.temp[column - 2] {
        Some(reached) => reached as int,
        None => v.positions[v.next_player as int][column - 2] as int,
    }
}

/// Whether the player may move up a column: it is one of the three of this
/// turn or a third is still free, nobody has reached its top, and the player
/// has not reached it in this turn.
pub open spec fn allowed(v: CSStateView, column: int) -> bool {
    &&& count_set(v.locked, 11) < 3 || v.locked[column - 2]
    &&& v.claimed[column - 2] is None
    &&& match v.temp[column - 2] {
        None => true,
        Some(reached) => reached < column_length(column),
    }
}

/// The move up both columns of a pair of sums, if both are allowed and at
/// most one of them is new, or they are the first two of the turn.
pub open spec fn double_move(v: CSStateView, a: int, b: int, extra: bool) -> Option<CSAction> {
    if allowed(v, a) && allowed(v, b) && extra && (count_set(v.locked, 11) < 2 || v.locked[a - 2]
        || v.locked[b - 2]) {
        if a <= b {
            Some(CSAction::Move(a as u8, Some(b as u8)))
        } else {
            Some(CSAction::Move(b as u8, Some(a as u8)))
        }
    } else {
        None
    }
}

/// The move up one column of a pair of sums, where the pair gives no move up
/// both: the first column if it is allowed, else the second if that is.
pub open spec fn single_move(v: CSStateView, a: int, b: int, extra: bool) -> Option<CSAction> {
    if double_move(v, a, b, extra) is Some {
        None
    } else if allowed(v, a) {
        Some(CSAction::Move(a as u8, None))
    } else if allowed(v, b) {
        Some(CSAction::Move(b as u8, None))
    } else {
        None
    }
}

/// The move, if there is one, as a list.
pub open spec fn listed_once(action: Option<CSAction>) -> Seq<CSAction> {
    match action {
        Some(action) => seq![action],
        None => Seq::empty(),
    }
}

/// The moves that the last roll gives, pair by pair: the moves up two
/// columns, or, if there is none, the moves up one column.
pub open spec fn candidates(v: CSStateView) -> Seq<CSAction> {
    match v.last_roll {
        None => Seq::empty(),
        Some((d1, d2, d3, d4)) => {
            let extra = allowed(v, d2 + d4);
            let doubles = listed_once(double_move(v, d1 + d2, d3 + d4, true)) + listed_once(
                double_move(v, d1 + d3, d2 + d4, true),
            ) + listed_once(double_move(v, d1 + d4, d2 + d3, extra));
            let singles = listed_once(single_move(v, d1 + d2, d3 + d4, true)) + listed_once(
                single_move(v, d1 + d3, d2 + d4, true),
            ) + listed_once(single_move(v, d1 + d4, d2 + d3, extra));
            if doubles.len() > 0 {
                doubles
            } else {
                singles
            }
        },
    }
}

/// The moves that a player may choose from: to roll or to stop before a
/// roll, and after a roll the moves that it gives, each once.
pub open spec fn moves(v: CSStateView) -> Seq<CSAction> {
    match v.last_roll {
        None => seq![CSAction::Roll, CSAction::Done],
        Some(_) => keep_last(candidates(v)),
    }
}

/// The position when the turn passes on: the next player rolls, with no
/// column of the turn.
pub open spec fn passed_on(v: CSStateView) -> CSStateView {
    CSStateView {
        next_player: ((v.next_player + 1) % (v.player_count as int)) as u8,
        locked: Seq::new(11, |i: int| false),
        temp: Seq::new(11, |i: int| None),
        rolling: true,
        ..v
    }
}

/// The position after the dice fell: the player moves if the roll gives a
/// move, else the turn is lost and passes on.
pub open spec fn rolled(v: CSStateView, dice: (u8, u8, u8, u8)) -> CSStateView {
    let shown = CSStateView { last_roll: Some(dice), ..v };
    if candidates(shown).len() == 0 {
        passed_on(shown)
    } else {
        CSStateView { rolling: false, ..shown }
    }
}

/// The position after one step up a column.
pub open spec fn stepped(v: CSStateView, column: int) -> CSStateView {
    CSStateView {
        locked: v.locked.update(column - 2, true),
        temp: v.temp.update(column - 2, Some((standing(v, column) + 1) as u8)),
        ..v
    }
}

/// The position after a move up one or two columns.
pub open spec fn moved(v: CSStateView, column: int, other: Option<u8>) -> CSStateView {
    let first = stepped(v, column);
    let second = match other {
        Some(other) => stepped(first, other as int),
        None => first,
    };
    CSStateView { last_roll: None, ..second }
}

/// The position after the player stopped: what was reached in the turn is
/// kept, a column whose top was reached is the player's, and the turn passes
/// on.
pub open spec fn banked(v: CSStateView) -> CSStateView {
    let row = Seq::new(
        11,
        |i: int|
            match v.temp[i] {
                Some(reached) => reached,
                None => v.positions[v.next_player as int][i],
            },
    );
    let claimed = Seq::new(
        11,
        |i: int|
            match v.temp[i] {
                Some(reached) => if reached >= column_length(i + 2) {
                    Some(v.next_player)
                } else {
                    v.claimed[i]
                },
                None => v.claimed[i],
            },
    );
    passed_on(CSStateView { positions: v.positions.update(v.next_player as int, row), claimed, ..v })
}

/// The number of columns among the first `n` whose top `player` reached.
pub open spec fn claimed_by(claimed: Seq<Option<u8>>, player: u8, n: int) -> int
    decreases n,
{
    if n <= 0 {
        0
    } else {
        claimed_by(claimed, player, n - 1) + (if claimed[n - 1] == Some(player) {
            1int
        } else {
            0int
        })
    }
}

/// The game is over when a player has reached the top of three columns.
pub open spec fn is_over(v: CSStateView) -> bool {
    exists|player: u8| claimed_by(v.claimed, player, 11) >= 3
}

/// The most columns that one of the players of the first `n` columns has.
pub open spec fn most_claimed(claimed: Seq<Option<u8>>, n: int) -> int
    decreases n,
{
    if n <= 0 {
        0
    } else {
        let rest = most_claimed(claimed, n - 1);
        match claimed[n - 1] {
            Some(player) => if claimed_by(claimed, player, 11) > rest {
                claimed_by(claimed, player, 11)
            } else {
                rest
            },
            None => rest,
        }
    }
}

/// The rewards: nothing while the game goes on, then one for each player
/// who has the most columns and nothing for the others.
pub open spec fn rewards_of(v: CSStateView) -> Seq<Reward> {
    Seq::new(
        v.positions.len(),
        |player: int|
            if is_over(v) && claimed_by(v.claimed, player as u8, 11) == most_claimed(v.claimed, 11) {
                FIXED_ONE
            } else {
                0i64
            },
    )
}

/// Whether a position can come up in play.
pub open spec fn reachable(v: CSStateView) -> bool {
    &&& v.player_count > 0
    &&& v.next_player < v.player_count
    &&& v.positions.len() == v.player_count
    &&& v.locked.len() == 11
    &&& v.temp.len() == 11
    &&& v.claimed.len() == 11
    &&& forall|p: int| 0 <= p < v.positions.len() ==> (#[trigger] v.positions[p]).len() == 11
    &&& v.last_roll matches Some((d1, d2, d3, d4)) ==> 1 <= d1 <= 6 && 1 <= d2 <= 6 && 1 <= d3 <= 6 && 1
        <= d4 <= 6
    &&& forall|i: int| 0 <= i < 11 ==> (#[trigger] v.temp[i] matches Some(reached) ==> reached <= 14)
    &&& forall|p: int, i: int|
        0 <= p < v.positions.len() && 0 <= i < 11 ==> (#[trigger] v.positions[p][i]) <= 14
    &&& forall|p: int, i: int|
        0 <= p < v.positions.len() && 0 <= i < 11 && v.claimed[i] is None ==> (#[trigger] v.positions[p][i])
            < column_length(i + 2)
    &&& !v.rolling && v.last_roll is Some ==> candidates(v).len() > 0
}

/// Whether a move may be taken: the position can come up in play, dice show
/// one to six, and a move goes up columns from two to twelve on which the
/// player stands below the thirteenth place.
pub open spec fn takeable(action: CSAction, v: CSStateView) -> bool {
    &&& reachable(v)
    &&& match action {
        CSAction::DiceRoll(d1, d2, d3, d4) => 1 <= d1 <= 6 && 1 <= d2 <= 6 && 1 <= d3 <= 6 && 1 <= d4 <= 6,
        CSAction::Move(column, other) => {
            &&& 2 <= column <= 12
            &&& standing(v, column as int) <= 12
            &&& other matches Some(second) ==> 2 <= second <= 12 && standing(v, second as int) <= 12
        },
        CSAction::Roll => true,
        CSAction::Done => true,
    }
}

/// The position after a move.
pub open spec fn after(action: CSAction, v: CSStateView) -> CSStateView {
    match action {
        CSAction::DiceRoll(d1, d2, d3, d4) => rolled(v, (d1, d2, d3, d4)),
        CSAction::Move(column, other) => moved(v, column as int, other),
        CSAction::Roll => CSStateView { rolling: true, ..v },
        CSAction::Done => banked(v),
    }
}

/// Whether an action is a move up columns from two to twelve.
pub open spec fn on_board(action: CSAction) -> bool {
    match action {
        CSAction::Move(column, other) => 2 <= column <= 12 && (other matches Some(second) ==> 2 <= second
            <= 12),
        _ => false,
    }
}

/// The number that stands for a move in the set of moves.
pub open spec fn key_of(action: CSAction) -> u32 {
    match action {
        CSAction::Move(column, Some(second)) => (column * 16 + second) as u32,
        CSAction::Move(column, None) => (column * 16) as u32,
        _ => 0,
    }
}

/// The numbers that stand for the moves.
pub open spec fn keys_of(actions: Seq<CSAction>) -> Seq<u32> {
    Seq::new(actions.len(), |i: int| key_of(actions[i]))
}

/// The move that a number stands for.
pub open spec fn move_of(key: u32) -> CSAction {
    if key % 16 == 0 {
        CSAction::Move((key / 16) as u8, None)
    } else {
        CSAction::Move((key / 16) as u8, Some((key % 16) as u8))
    }
}

/// A move on the board is the move that its number stands for.
pub proof fn lemma_key(action: CSAction)
    requires
        on_board(action),
    ensures
        move_of(key_of(action)) == action,
{
}

/// Leaving a move out of a list of moves leaves its number out of the list
/// of their numbers.
pub proof fn lemma_without_keys(actions: Seq<CSAction>, action: CSAction)
    requires
        forall|i: int| 0 <= i < actions.len() ==> on_board(#[trigger] actions[i]),
        on_board(action),
    ensures
        keys_of(without(actions, action)) == without(keys_of(actions), key_of(action)),
        forall|i: int|
            0 <= i < without(actions, action).len() ==> on_board(#[trigger] without(actions, action)[i]),
    decreases actions.len(),
{
    if actions.len() > 0 {
        let rest = actions.drop_last();
        lemma_without_keys(rest, action);
        lemma_key(action);
        lemma_key(actions.last());
        assert(keys_of(actions).drop_last() =~= keys_of(rest));
        if actions.last() == action {
        } else {
            assert(key_of(actions.last()) != key_of(action));
            assert(keys_of(without(actions, action)) =~= keys_of(without(rest, action)).push(
                key_of(actions.last()),
            ));
        }
    } else {
        assert(keys_of(actions) =~= Seq::<u32>::empty());
    }
}

/// The numbers of the moves, each once, are the numbers of the list that
/// has each move once.
pub proof fn lemma_keep_last_keys(actions: Seq<CSAction>)
    requires
        forall|i: int| 0 <= i < actions.len() ==> on_board(#[trigger] actions[i]),
    ensures
        keys_of(keep_last(actions)) == keep_last(keys_of(actions)),
        forall|i: int| 0 <= i < keep_last(actions).len() ==> on_board(#[trigger] keep_last(actions)[i]),
    decreases actions.len(),
{
    if actions.len() > 0 {
        let rest = actions.drop_last();
        assert forall|i: int| 0 <= i < rest.len() implies on_board(#[trigger] rest[i]) by {
            assert(rest[i] == actions[i]);
        }
        lemma_keep_last_keys(rest);
        lemma_without_keys(keep_last(rest), actions.last());
        assert(keys_of(actions).drop_last() =~= keys_of(rest));
        assert(keys_of(keep_last(actions)) =~= keys_of(without(keep_last(rest), actions.last())).push(
            key_of(actions.last()),
        ));
    } else {
        assert(keys_of(actions) =~= Seq::<u32>::empty());
        assert(keys_of(keep_last(actions)) =~= Seq::<u32>::empty());
    }
}

/// The moves, each once, where it stood last.
pub fn distinct_moves(actions: &Vec<CSAction>) -> (kept: Vec<CSAction>)
    requires
        forall|i: int| 0 <= i < actions@.len() ==> on_board(#[trigger] actions@[i]),
    ensures
        kept@ == keep_last(actions@),
{
    let mut keys: Vec<u32> = Vec::new();
    let mut i: usize = 0;
    while i < actions.len()
        invariant
            i <= actions.len(),
            forall|j: int| 0 <= j < actions@.len() ==> on_board(#[trigger] actions@[j]),
            keys@ == keys_of(actions@.take(i as int)),
        decreases actions.len() - i,
    {
        let key: u32 = match actions[i] {
            CSAction::Move(column, Some(second)) => column as u32 * 16 + second as u32,
            CSAction::Move(column, None) => column as u32 * 16,
            _ => 0,
        };
        keys.push(key);
        proof {
            assert(on_board(actions@[i as int]));
            assert(keys@ =~= keys_of(actions@.take(i + 1)));
        }
        i += 1;
    }
    assert(actions@.take(actions.len() as int) =~= actions@);
    let kept_keys = distinct(&keys);
    proof {
        lemma_keep_last_keys(actions@);
    }
    let mut kept: Vec<CSAction> = Vec::new();
    let mut k: usize = 0;
    while k < kept_keys.len()
        invariant
            k <= kept_keys.len(),
            kept_keys@ == keys_of(keep_last(actions@)),
            forall|j: int| 0 <= j < keep_last(actions@).len() ==> on_board(#[trigger] keep_last(actions@)[j]),
            kept@ == keep_last(actions@).take(k as int),
        decreases kept_keys.len() - k,
    {
        let key = kept_keys[k];
        let action = if key % 16 == 0 {
            CSAction::Move((key / 16) as u8, None)
        } else {
            CSAction::Move((key / 16) as u8, Some((key % 16) as u8))
        };
        proof {
            assert(on_board(keep_last(actions@)[k as int]));
            lemma_key(keep_last(actions@)[k as int]);
            assert(key == key_of(keep_last(actions@)[k as int]));
        }
        kept.push(action);
        proof {
            assert(kept@ =~= keep_last(actions@).take(k + 1));
        }
        k += 1;
    }
    assert(keep_last(actions@).take(kept_keys.len() as int) =~= keep_last(actions@));
    kept
}

impl CSState {
    /// The dice of the last roll.
    pub fn last_roll(&self) -> (dice: Option<(u8, u8, u8, u8)>)
        ensures
            dice == self@.last_roll,
    {
        self.last_roll
    }

    /// The player whose turn it is.
    pub fn next_player(&self) -> (player: u8)
        ensures
            player == self@.next_player,
    {
        self.next_player
    }

    /// The number of players.
    pub fn player_count(&self) -> (count: u8)
        ensures
            count == self@.player_count,
    {
        self.player_count
    }

    /// Who has reached the top of a column, counted from two.
    pub fn claimed(&self, column: u8) -> (owner: Option<u8>)
        requires
            2 <= column <= 12,
        ensures
            owner == self@.claimed[column - 2],
    {
        self.claimed_columns[(column - 2) as usize]
    }

    /// How far up a column a player has come to stay.
    pub fn position(&self, player: u8, column: u8) -> (reached: u8)
        requires
            2 <= column <= 12,
            player < self@.positions.len(),
        ensures
            reached == self@.positions[player as int][column - 2],
    {
        self.positions[player as usize][(column - 2) as usize]
    }

    /// How far up a column the player has come in this turn.
    pub fn temporary(&self, column: u8) -> (reached: Option<u8>)
        requires
            2 <= column <= 12,
        ensures
            reached == self@.temp[column - 2],
    {
        self.temp_position[(column - 2) as usize]
    }

    /// Whether the player moved up a column in this turn.
    pub fn locked_in(&self, column: u8) -> (locked: bool)
        requires
            2 <= column <= 12,
        ensures
            locked == self@.locked[column - 2],
    {
        self.locked_in_columns[(column - 2) as usize]
    }

    /// The number of columns of the turn.
    fn locked_count(&self) -> (count: usize)
        ensures
            count == count_set(self@.locked, 11),
    {
        let mut count: usize = 0;
        let mut i: usize = 0;
        while i < 11
            invariant
                i <= 11,
                count <= i,
                count == count_set(self@.locked, i as int),
            decreases 11 - i,
        {
            if self.locked_in_columns[i] {
                count += 1;
            }
            i += 1;
        }
        count
    }

    /// The length of a column.
    fn length_of(column: u8) -> (length: u8)
        requires
            2 <= column <= 12,
        ensures
            length == column_length(column as int),
    {
        if column <= 7 {
            2 * column - 1
        } else {
            27 - 2 * column
        }
    }

    /// Whether the player may move up a column.
    fn column_allowed(&self, column: u8, locked: usize) -> (ok: bool)
        requires
            2 <= column <= 12,
            locked == count_set(self@.locked, 11),
        ensures
            ok == allowed(self@, column as int),
    {
        let at = (column - 2) as usize;
        (locked < 3 || self.locked_in_columns[at]) && self.claimed_columns[at].is_none() && (match self.temp_position[at] {
            None => true,
            Some(reached) => reached < Self::length_of(column),
        })
    }

    /// The moves that a pair of sums gives: up both columns, or else up one.
    fn pair_moves(&self, a: u8, b: u8, extra: bool, locked: usize) -> (found: (
        Option<CSAction>,
        Option<CSAction>,
    ))
        requires
            2 <= a <= 12,
            2 <= b <= 12,
            locked == count_set(self@.locked, 11),
        ensures
            found.0 == double_move(self@, a as int, b as int, extra),
            found.1 == single_move(self@, a as int, b as int, extra),
    {
        let a_allowed = self.column_allowed(a, locked);
        let b_allowed = self.column_allowed(b, locked);
        if a_allowed && b_allowed && extra && (locked < 2 || self.locked_in_columns[(a - 2) as usize]
            || self.locked_in_columns[(b - 2) as usize]) {
            if a <= b {
                (Some(CSAction::Move(a, Some(b))), None)
            } else {
                (Some(CSAction::Move(b, Some(a))), None)
            }
        } else if a_allowed {
            (None, Some(CSAction::Move(a, None)))
        } else if b_allowed {
            (None, Some(CSAction::Move(b, None)))
        } else {
            (None, None)
        }
    }

    /// The moves that the last roll gives, pair by pair.
    fn candidate_moves(&self) -> (found: Vec<CSAction>)
        requires
            self@.last_roll matches Some((d1, d2, d3, d4)) ==> 1 <= d1 <= 6 && 1 <= d2 <= 6 && 1 <= d3 <= 6
                && 1 <= d4 <= 6,
        ensures
            found@ == candidates(self@),
            forall|i: int| 0 <= i < found@.len() ==> on_board(#[trigger] found@[i]),
    {
        let mut possible_actions: Vec<CSAction> = Vec::new();
        let mut one_match_actions: Vec<CSAction> = Vec::new();
        match self.last_roll {
            None => {},
            Some((d1, d2, d3, d4)) => {
                let locked = self.locked_count();
                // 1&2/3&4
                let first = self.pair_moves(d1 + d2, d3 + d4, true, locked);
                // 1&3/2&4
                let second = self.pair_moves(d1 + d3, d2 + d4, true, locked);
                // 1&4/2&3
                let extra = self.column_allowed(d2 + d4, locked);
                let third = self.pair_moves(d1 + d4, d2 + d3, extra, locked);
                match first.0 {
                    Some(action) => possible_actions.push(action),
                    None => {},
                }
                match second.0 {
                    Some(action) => possible_actions.push(action),
                    None => {},
                }
                match third.0 {
                    Some(action) => possible_actions.push(action),
                    None => {},
                }
                match first.1 {
                    Some(action) => one_match_actions.push(action),
                    None => {},
                }
                match second.1 {
                    Some(action) => one_match_actions.push(action),
                    None => {},
                }
                match third.1 {
                    Some(action) => one_match_actions.push(action),
                    None => {},
                }
                proof {
                    assert(possible_actions@ =~= listed_once(first.0) + listed_once(second.0) + listed_once(
                        third.0,
                    ));
                    assert(one_match_actions@ =~= listed_once(first.1) + listed_once(second.1) + listed_once(
                        third.1,
                    ));
                }
            },
        }
        if possible_actions.len() == 0 {
            // Only do the 'single actions' if there's no double actions
            one_match_actions
        } else {
            possible_actions
        }
    }

    /// A copy of the position.
    fn copy(&self) -> (copy: CSState)
        ensures
            copy@ == self@,
    {
        let copy = CSState {
            rolling: self.rolling,
            locked_in_columns: self.locked_in_columns,
            last_roll: self.last_roll,
            next_player: self.next_player,
            positions: copied(&self.positions),
            temp_position: self.temp_position,
            claimed_columns: self.claimed_columns,
            player_count: self.player_count,
        };
        assert(copy@.positions =~= self@.positions);
        copy
    }

    /// Passes the turn on: the next player rolls, with no column of the turn.
    fn pass_on(&mut self)
        requires
            old(self).player_count > 0,
        ensures
            final(self)@ == passed_on(old(self)@),
    {
        self.next_player = ((self.next_player as u16 + 1) % (self.player_count as u16)) as u8;
        self.locked_in_columns = [false; 11];
        self.temp_position = [None; 11];
        self.rolling = true;
        proof {
            assert(self@.locked =~= passed_on(old(self)@).locked);
            assert(self@.temp =~= passed_on(old(self)@).temp);
            assert(self@.positions =~= old(self)@.positions);
        }
    }

    /// One step up a column.
    fn step(&mut self, column: u8)
        requires
            2 <= column <= 12,
            old(self)@.next_player < old(self)@.positions.len(),
            standing(old(self)@, column as int) <= 254,
        ensures
            final(self)@ == stepped(old(self)@, column as int),
    {
        let at = (column - 2) as usize;
        let from = match self.temp_position[at] {
            Some(reached) => reached,
            None => self.positions[self.next_player as usize][at],
        };
        self.locked_in_columns[at] = true;
        self.temp_position[at] = Some(from + 1);
        proof {
            assert(self@.positions =~= old(self)@.positions);
        }
    }

    /// Keeps what was reached in the turn.
    fn bank(&mut self)
        requires
            old(self)@.next_player < old(self)@.positions.len(),
        ensures
            final(self)@.positions == banked(old(self)@).positions,
            final(self)@.claimed == banked(old(self)@).claimed,
            final(self).rolling == old(self).rolling,
            final(self).locked_in_columns == old(self).locked_in_columns,
            final(self).last_roll == old(self).last_roll,
            final(self).next_player == old(self).next_player,
            final(self).temp_position == old(self).temp_position,
            final(self).player_count == old(self).player_count,
    {
        let player = self.next_player as usize;
        let mut row = self.positions[player];
        let mut claimed = self.claimed_columns;
        let mut index: usize = 0;
        while index < 11
            invariant
                index <= 11,
                forall|i: int|
                    0 <= i < index ==> #[trigger] row@[i] == banked(self@).positions[player as int][i],
                forall|i: int| index <= i < 11 ==> #[trigger] row@[i] == self@.positions[player as int][i],
                forall|i: int| 0 <= i < index ==> #[trigger] claimed@[i] == banked(self@).claimed[i],
                forall|i: int| index <= i < 11 ==> #[trigger] claimed@[i] == self@.claimed[i],
                player == self@.next_player,
                player < self@.positions.len(),
            decreases 11 - index,
        {
            match self.temp_position[index] {
                Some(position) => {
                    row[index] = position;
                    if position >= Self::length_of((index + 2) as u8) {
                        claimed[index] = Some(self.next_player);
                    }
                },
                None => {},
            }
            index += 1;
        }
        let ghost target = banked(self@);
        self.positions[player] = row;
        self.claimed_columns = claimed;
        proof {
            assert(self@.claimed =~= target.claimed);
            assert(self@.positions[player as int] =~= target.positions[player as int]);
            assert(self@.positions =~= target.positions);
        }
    }
}

/// A player who has a column has one of the eleven.
pub proof fn lemma_claimed_by(claimed: Seq<Option<u8>>, player: u8, n: int)
    requires
        claimed_by(claimed, player, n) > 0,
    ensures
        exists|i: int| 0 <= i < n && #[trigger] claimed[i] == Some(player),
    decreases n,
{
    if n > 0 && claimed[n - 1] != Some(player) {
        lemma_claimed_by(claimed, player, n - 1);
        let i = choose|i: int| 0 <= i < n - 1 && #[trigger] claimed[i] == Some(player);
        assert(claimed[i] == Some(player));
    }
}

/// No player has more columns than the most that a player has.
pub proof fn lemma_most_claimed(claimed: Seq<Option<u8>>, n: int, i: int)
    requires
        0 <= i < n,
        claimed[i] is Some,
    ensures
        claimed_by(claimed, claimed[i]->Some_0, 11) <= most_claimed(claimed, n),
    decreases n,
{
    if i < n - 1 {
        lemma_most_claimed(claimed, n - 1, i);
    }
}

/// Where the player may move up a column, the player stands below its top.
pub proof fn lemma_allowed(v: CSStateView, column: int)
    requires
        reachable(v),
        2 <= column <= 12,
        allowed(v, column),
    ensures
        standing(v, column) <= 12,
{
    assert(v.positions[v.next_player as int][column - 2] < column_length(column - 2 + 2));
}

/// Every move that a roll gives may be taken.
pub proof fn lemma_candidates(v: CSStateView)
    requires
        reachable(v),
    ensures
        forall|i: int| 0 <= i < candidates(v).len() ==> takeable(#[trigger] candidates(v)[i], v),
        forall|i: int| 0 <= i < candidates(v).len() ==> on_board(#[trigger] candidates(v)[i]),
{
    match v.last_roll {
        None => {},
        Some((d1, d2, d3, d4)) => {
            let extra = allowed(v, d2 + d4);
            lemma_pair(v, d1 + d2, d3 + d4, true);
            lemma_pair(v, d1 + d3, d2 + d4, true);
            lemma_pair(v, d1 + d4, d2 + d3, extra);
        },
    }
}

/// The moves that a pair of sums gives may be taken.
pub proof fn lemma_pair(v: CSStateView, a: int, b: int, extra: bool)
    requires
        reachable(v),
        2 <= a <= 12,
        2 <= b <= 12,
    ensures
        double_move(v, a, b, extra) matches Some(action) ==> takeable(action, v) && on_board(action),
        single_move(v, a, b, extra) matches Some(action) ==> takeable(action, v) && on_board(action),
{
    if allowed(v, a) {
        lemma_allowed(v, a);
    }
    if allowed(v, b) {
        lemma_allowed(v, b);
    }
}

/// After the dice fell the position is one that can come up in play.
pub proof fn lemma_rolled(v: CSStateView, dice: (u8, u8, u8, u8))
    requires
        reachable(v),
        1 <= dice.0 <= 6,
        1 <= dice.1 <= 6,
        1 <= dice.2 <= 6,
        1 <= dice.3 <= 6,
    ensures
        reachable(rolled(v, dice)),
{
    let shown = CSStateView { last_roll: Some(dice), ..v };
    if candidates(shown).len() == 0 {
    } else {
        let next = CSStateView { rolling: false, ..shown };
        assert(candidates(next) == candidates(shown));
    }
}

/// After a move that may be taken the position is one that can come up in
/// play.
pub proof fn lemma_moved(v: CSStateView, column: u8, other: Option<u8>)
    requires
        takeable(CSAction::Move(column, other), v),
    ensures
        reachable(moved(v, column as int, other)),
{
    let first = stepped(v, column as int);
    assert(standing(first, column as int) <= 13);
    assert(forall|i: int| 0 <= i < 11 ==> (#[trigger] first.temp[i] matches Some(reached) ==> reached <= 14));
    match other {
        Some(second) => {
            assert(standing(first, second as int) <= 13);
        },
        None => {},
    }
}

/// After the player stopped the position is one that can come up in play.
pub proof fn lemma_banked(v: CSStateView)
    requires
        reachable(v),
    ensures
        reachable(banked(v)),
{
    let next = banked(v);
    assert forall|p: int, i: int| 0 <= p < next.positions.len() && 0 <= i < 11 implies (
    #[trigger] next.positions[p][i]) <= 14 && (next.claimed[i] is None ==> next.positions[p][i]
        < column_length(i + 2)) by {
        if p != v.next_player {
            assert(next.positions[p] == v.positions[p]);
            assert(v.positions[p][i] <= 14);
        } else {
            assert(v.positions[p][i] <= 14);
        }
    }
}

impl Action for CSAction {
    type StateType = CSState;

    open spec fn applicable(&self, state: CSStateView) -> bool {
        takeable(*self, state)
    }

    open spec fn successor(&self, state: CSStateView) -> CSStateView {
        after(*self, state)
    }

    proof fn lemma_eq() {
        reveal(obeys_concrete_eq);
    }

    fn execute(&self, state: &CSState) -> (next: CSState) {
        let mut new_state = state.copy();
        match self {
            CSAction::DiceRoll(d1, d2, d3, d4) => {
                new_state.last_roll = Some((*d1, *d2, *d3, *d4));
                proof {
                    assert(new_state@.positions =~= state@.positions);
                }
                if new_state.candidate_moves().len() == 0 {
                    // Bust
                    new_state.pass_on();
                } else {
                    new_state.rolling = false;
                    proof {
                        assert(new_state@.positions =~= state@.positions);
                    }
                }
            },
            CSAction::Move(column, maybe_column) => {
                new_state.step(*column);
                match maybe_column {
                    Some(other_column) => {
                        new_state.step(*other_column);
                    },
                    None => {},
                }
                let ghost stepped = new_state@;
                new_state.last_roll = None;
                proof {
                    assert(new_state@.positions =~= stepped.positions);
                }
            },
            CSAction::Roll => {
                new_state.rolling = true;
                proof {
                    assert(new_state@.positions =~= state@.positions);
                }
            },
            CSAction::Done => {
                new_state.bank();
                let ghost kept = new_state@;
                new_state.pass_on();
                proof {
                    assert(passed_on(kept) == banked(state@));
                }
            },
        }
        new_state
    }
}

impl CSState {
    /// The number of columns whose top a player reached.
    fn claimed_count(&self, player: u8) -> (count: usize)
        ensures
            count == claimed_by(self@.claimed, player, 11),
    {
        let mut count: usize = 0;
        let mut i: usize = 0;
        while i < 11
            invariant
                i <= 11,
                count <= i,
                count == claimed_by(self@.claimed, player, i as int),
            decreases 11 - i,
        {
            match self.claimed_columns[i] {
                Some(owner) => {
                    if owner == player {
                        count += 1;
                    }
                },
                None => {},
            }
            i += 1;
        }
        count
    }

    /// The most columns that one player has.
    fn max_count(&self) -> (most: usize)
        ensures
            most == most_claimed(self@.claimed, 11),
    {
        let mut most: usize = 0;
        let mut i: usize = 0;
        while i < 11
            invariant
                i <= 11,
                most == most_claimed(self@.claimed, i as int),
            decreases 11 - i,
        {
            match self.claimed_columns[i] {
                Some(owner) => {
                    let count = self.claimed_count(owner);
                    if count > most {
                        most = count;
                    }
                },
                None => {},
            }
            i += 1;
        }
        most
    }

    /// Whether a player has reached the top of three columns.
    fn over(&self) -> (over: bool)
        ensures
            over == is_over(self@),
    {
        let mut i: usize = 0;
        while i < 11
            invariant
                i <= 11,
                forall|j: int|
                    0 <= j < i ==> (#[trigger] self@.claimed[j] matches Some(owner) ==> claimed_by(
                        self@.claimed,
                        owner,
                        11,
                    ) < 3),
            decreases 11 - i,
        {
            match self.claimed_columns[i] {
                Some(owner) => {
                    if self.claimed_count(owner) >= 3 {
                        return true;
                    }
                },
                None => {},
            }
            i += 1;
        }
        proof {
            if is_over(self@) {
                let player = choose|player: u8| claimed_by(self@.claimed, player, 11) >= 3;
                lemma_claimed_by(self@.claimed, player, 11);
                let j = choose|j: int| 0 <= j < 11 && #[trigger] self@.claimed[j] == Some(player);
                assert(self@.claimed[j] == Some(player));
            }
        }
        false
    }
}

impl State for CSState {
    type ActionType = CSAction;

    open spec fn inv(v: CSStateView) -> bool {
        reachable(v)
    }

    open spec fn permitted(v: CSStateView) -> Seq<CSAction> {
        if is_over(v) {
            Seq::empty()
        } else {
            moves(v)
        }
    }

    open spec fn actor(v: CSStateView) -> ActorView<CSAction> {
        if v.rolling && !is_over(v) {
            ActorView::GameAction(all_rolls())
        } else {
            ActorView::Player(v.next_player)
        }
    }

    open spec fn is_terminal(v: CSStateView) -> bool {
        is_over(v)
    }

    open spec fn rewards(v: CSStateView) -> Seq<Reward> {
        rewards_of(v)
    }

    open spec fn players(v: CSStateView) -> nat {
        v.positions.len()
    }

    proof fn lemma_moves(v: CSStateView) {
        if is_over(v) {
        } else if v.rolling {
            lemma_all_rolls();
            assert forall|i: int| 0 <= i < all_rolls().len() implies {
                let a = (#[trigger] all_rolls()[i]).0;
                &&& a.applicable(v)
                &&& Self::inv(a.successor(v))
                &&& Self::players(a.successor(v)) == Self::players(v)
            } by {
                let a = all_rolls()[i].0;
                assert(is_roll(all_rolls()[i]));
                lemma_rolled(v, (a->DiceRoll_0, a->DiceRoll_1, a->DiceRoll_2, a->DiceRoll_3));
            }
        } else {
            lemma_candidates(v);
            lemma_keep_last(candidates(v));
            lemma_banked(v);
            assert forall|i: int| 0 <= i < Self::permitted(v).len() implies {
                let a = #[trigger] Self::permitted(v)[i];
                &&& a.applicable(v)
                &&& Self::inv(a.successor(v))
                &&& Self::players(a.successor(v)) == Self::players(v)
            } by {
                let a = Self::permitted(v)[i];
                if v.last_roll is Some {
                    assert(keep_last(candidates(v)).contains(a));
                    assert(candidates(v).contains(a));
                    let j = choose|j: int| 0 <= j < candidates(v).len() && candidates(v)[j] == a;
                    assert(takeable(candidates(v)[j], v));
                    assert(on_board(candidates(v)[j]));
                    lemma_moved(v, a->Move_0, a->Move_1);
                }
            }
        }
    }

    fn permitted_actions(&self) -> (actions: Vec<CSAction>) {
        if self.over() {
            return Vec::new();
        }
        if self.last_roll.is_none() {
            let actions = vec![CSAction::Roll, CSAction::Done];
            assert(actions@ =~= seq![CSAction::Roll, CSAction::Done]);
            return actions;
        }
        let possible_actions = self.candidate_moves();
        // Remove duplicate actions (which is why they're sorted when there's 2)
        distinct_moves(&possible_actions)
    }

    fn next_actor(&self) -> (actor: Actor<CSAction>) {
        if self.rolling && !self.over() {
            Actor::GameAction(dice_actions())
        } else {
            Actor::Player(self.next_player)
        }
    }

    fn terminal(&self) -> (over: bool) {
        self.over()
    }

    fn reward(&self) -> (reward: Vec<Reward>) {
        let over = self.over();
        let max_count = self.max_count();
        let mut reward: Vec<Reward> = Vec::new();
        let mut player_id: usize = 0;
        while player_id < self.positions.len()
            invariant
                player_id <= self.positions.len(),
                self.positions@.len() <= 255,
                over == is_over(self@),
                max_count == most_claimed(self@.claimed, 11),
                reward@.len() == player_id,
                forall|p: int| 0 <= p < player_id ==> #[trigger] reward@[p] == rewards_of(self@)[p],
            decreases self.positions.len() - player_id,
        {
            let count = self.claimed_count(player_id as u8);
            if over && count == max_count {
                reward.push(FIXED_ONE);
            } else {
                reward.push(0);
            }
            player_id += 1;
        }
        assert(reward@ =~= rewards_of(self@));
        reward
    }
}

/// The game of pushing one's luck up eleven columns.
pub struct CS {
    pub player_count: u8,
}

/// The position in which the game starts: nobody has moved up a column, and
/// the dice are rolled for the first player.
pub open spec fn start(player_count: u8) -> CSStateView {
    CSStateView {
        rolling: true,
        locked: Seq::new(11, |i: int| false),
        last_roll: None,
        next_player: 0,
        positions: Seq::new(player_count as nat, |p: int| Seq::new(11, |i: int| 0u8)),
        temp: Seq::new(11, |i: int| None),
        claimed: Seq::new(11, |i: int| None),
        player_count,
    }
}

impl Game for CS {
    type StateType = CSState;

    type ActionType = CSAction;

    open spec fn playable(&self) -> bool {
        self.player_count > 0
    }

    fn init_game(&self) -> (state: CSState)
        ensures
            state@ == start(self.player_count),
    {
        let mut positions: Vec<[u8; 11]> = Vec::new();
        let mut player: u8 = 0;
        while player < self.player_count
            invariant
                player <= self.player_count,
                positions@.len() == player,
                forall|p: int, i: int| 0 <= p < positions@.len() && 0 <= i < 11 ==> (#[trigger] positions@[p]@[i]) == 0,
            decreases self.player_count - player,
        {
            positions.push([0; 11]);
            player += 1;
        }
        let state = CSState {
            positions,
            claimed_columns: [None; 11],
            locked_in_columns: [false; 11],
            temp_position: [None; 11],
            last_roll: None,
            rolling: true,
            next_player: 0,
            player_count: self.player_count,
        };
        proof {
            let target = start(self.player_count);
            assert(state@.locked =~= target.locked);
            assert(state@.temp =~= target.temp);
            assert(state@.claimed =~= target.claimed);
            assert forall|p: int| 0 <= p < state@.positions.len() implies state@.positions[p]
                == target.positions[p] by {
                assert(state@.positions[p] =~= target.positions[p]);
            }
            assert(state@.positions =~= target.positions);
        }
        state
    }
}

} // verus!
