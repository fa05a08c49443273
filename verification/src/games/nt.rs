use vstd::laws_eq::obeys_concrete_eq;
use vstd::prelude::*;
use vstd::std_specs::cmp::PartialEqSpecImpl;

use crate::game::Game;
use crate::mon2y::game::{copied, outcome_actions, samplable, total_weight, Action, Actor, ActorView, State};
use crate::mon2y::{Reward, FIXED_ONE};

verus! {

/// The cards are numbered from 3 up to, not including, this number.
pub const CARD_LIMIT: usize = 35;

/// The game ends when this many cards are taken.
pub const CARDS_PLAYED: usize = 24;

/// A move of the game.
#[derive(Copy, Clone, Eq, Hash, Debug)]
pub enum NTAction {
    /// The player takes the card with the tokens on it.
    Take,
    /// The player puts a token on the card and passes it on.
    NoThanks,
    /// A card is drawn from the deck.
    Draw(u8),
}

impl PartialEq for NTAction {
    fn eq(&self, other: &NTAction) -> (equal: bool) {
        match (self, other) {
            (NTAction::Take, NTAction::Take) => true,
            (NTAction::NoThanks, NTAction::NoThanks) => true,
            (NTAction::Draw(a), NTAction::Draw(b)) => *a == *b,
            _ => false,
        }
    }
}

impl PartialEqSpecImpl for NTAction {
    open spec fn obeys_eq_spec() -> bool {
        true
    }

    open spec fn eq_spec(&self, other: &NTAction) -> bool {
        *self == *other
    }
}

/// A position of the game.
#[derive(Debug)]
pub struct NTState {
    /// For each card number, who took the card.
    cards: [Option<u8>; 35],
    /// The tokens of each player.
    tokens: Vec<u8>,
    next_player: u8,
    to_draw: bool,
    current_card: Option<u8>,
    tokens_on_card: u8,
}

/// The mathematical value of a position.
pub struct NTStateView {
    pub taken: Seq<Option<u8>>,
    pub tokens: Seq<u8>,
    pub next_player: u8,
    pub to_draw: bool,
    pub current_card: Option<u8>,
    pub tokens_on_card: u8,
}

impl View for NTState {
    type V = NTStateView;

    closed spec fn view(&self) -> NTStateView {
        NTStateView {
            taken: self.cards@,
            tokens: self.tokens@,
            next_player: self.next_player,
            to_draw: self.to_draw,
            current_card: self.current_card,
            tokens_on_card: self.tokens_on_card,
        }
    }
}

impl Clone for NTState {
    fn clone(&self) -> (copy: NTState)
        ensures
            copy@ == self@,
    {
        NTState {
            cards: self.cards,
            tokens: copied(&self.tokens),
            next_player: self.next_player,
            to_draw: self.to_draw,
            current_card: self.current_card,
            tokens_on_card: self.tokens_on_card,
        }
    }
}

/// Whether a card is in the deck.
pub open spec fn drawable(v: NTStateView, card: int) -> bool {
    3 <= card < 35 && v.taken[card] is None
}

/// The cards below `n` that are in the deck, each as a draw of weight one.
pub open spec fn draws(v: NTStateView, n: int) -> Seq<(NTAction, u32)>
    decreases n,
{
    if n <= 0 {
        Seq::empty()
    } else if drawable(v, n - 1) {
        draws(v, n - 1).push((NTAction::Draw((n - 1) as u8), 1u32))
    } else {
        draws(v, n - 1)
    }
}

/// The number of cards below `n` that are taken.
pub open spec fn taken_count(taken: Seq<Option<u8>>, n: int) -> int
    decreases n,
{
    if n <= 0 {
        0
    } else {
        taken_count(taken, n - 1) + (if taken[n - 1] is Some {
            1int
        } else {
            0int
        })
    }
}

/// The tokens of the first `n` players together.
pub open spec fn token_sum(tokens: Seq<u8>, n: int) -> int
    decreases n,
{
    if n <= 0 {
        0
    } else {
        token_sum(tokens, n - 1) + tokens[n - 1]
    }
}

/// What a card counts for a player: its number if the player took it and not
/// the card below it; the lowest card counts whoever took the one below.
pub open spec fn card_points(v: NTStateView, player: u8, card: int) -> int {
    if v.taken[card] == Some(player) && (card == 3 || (card > 0 && v.taken[card - 1] != Some(player))) {
        card
    } else {
        0
    }
}

/// What the cards below `n` count for a player.
pub open spec fn points_below(v: NTStateView, player: u8, n: int) -> int
    decreases n,
{
    if n <= 0 {
        0
    } else {
        points_below(v, player, n - 1) + card_points(v, player, n - 1)
    }
}

/// The score of a player: the cards that count, less the tokens. The lowest
/// score wins.
pub open spec fn score(v: NTStateView, player: int) -> int {
    points_below(v, player as u8, 35) - v.tokens[player]
}

/// Whether player `a` comes before player `b`: with the lower score, or with
/// the same score and the lower number.
pub open spec fn before(v: NTStateView, a: int, b: int) -> bool {
    score(v, a) < score(v, b) || (score(v, a) == score(v, b) && a < b)
}

/// The number of players among the first `n` that come before `player`.
pub open spec fn place(v: NTStateView, player: int, n: int) -> int
    decreases n,
{
    if n <= 0 {
        0
    } else {
        place(v, player, n - 1) + (if before(v, n - 1, player) {
            1int
        } else {
            0int
        })
    }
}

/// The reward of a player: from one for the first place evenly down to
/// nothing for the last, and one more for the first player.
pub open spec fn reward_of(v: NTStateView, player: int) -> Reward {
    (FIXED_ONE - FIXED_ONE * place(v, player, v.tokens.len() as int) / (v.tokens.len() - 1) + (if player
        == 0 {
        FIXED_ONE
    } else {
        0
    })) as i64
}

/// The moves of a player: to take the card, or to pass it on if the player
/// has a token.
pub open spec fn moves(v: NTStateView) -> Seq<NTAction> {
    if v.tokens[v.next_player as int] > 0 {
        seq![NTAction::Take, NTAction::NoThanks]
    } else {
        seq![NTAction::Take]
    }
}

/// Whether a position can come up in play.
pub open spec fn reachable(v: NTStateView) -> bool {
    &&& 2 <= v.tokens.len() <= 36
    &&& v.next_player < v.tokens.len()
    &&& v.taken.len() == 35
    &&& forall|card: int| 0 <= card < 3 ==> v.taken[card] is None
    &&& forall|card: int|
        0 <= card < 35 ==> (#[trigger] v.taken[card] matches Some(player) ==> player < v.tokens.len())
    &&& token_sum(v.tokens, v.tokens.len() as int) + v.tokens_on_card <= 255
    &&& !v.to_draw ==> (v.current_card matches Some(card) && drawable(v, card as int))
}

/// Whether a move may be taken.
pub open spec fn takeable(action: NTAction, v: NTStateView) -> bool {
    &&& reachable(v)
    &&& match action {
        NTAction::Take => (v.current_card matches Some(card) && card < 35),
        NTAction::NoThanks => v.tokens[v.next_player as int] > 0,
        NTAction::Draw(_) => true,
    }
}

/// The position after a move.
pub open spec fn after(action: NTAction, v: NTStateView) -> NTStateView {
    match action {
        NTAction::Take => NTStateView {
            taken: v.taken.update(v.current_card->Some_0 as int, Some(v.next_player)),
            tokens: v.tokens.update(
                v.next_player as int,
                (v.tokens[v.next_player as int] + v.tokens_on_card) as u8,
            ),
            to_draw: true,
            tokens_on_card: 0,
            ..v
        },
        NTAction::NoThanks => NTStateView {
            tokens: v.tokens.update(v.next_player as int, (v.tokens[v.next_player as int] - 1) as u8),
            next_player: ((v.next_player + 1) % (v.tokens.len() as int)) as u8,
            to_draw: false,
            tokens_on_card: (v.tokens_on_card + 1) as u8,
            ..v
        },
        NTAction::Draw(card) => NTStateView {
            to_draw: false,
            current_card: Some(card),
            tokens_on_card: 0,
            ..v
        },
    }
}

/// No player has more tokens than the players together.
pub proof fn lemma_token_sum(tokens: Seq<u8>, n: int, player: int)
    requires
        0 <= player < n <= tokens.len(),
    ensures
        tokens[player] <= token_sum(tokens, n),
        token_sum(tokens, n) >= 0,
    decreases n,
{
    lemma_token_sum_positive(tokens, n - 1);
    if player < n - 1 {
        lemma_token_sum(tokens, n - 1, player);
    }
}

/// The tokens of the players together are not negative.
pub proof fn lemma_token_sum_positive(tokens: Seq<u8>, n: int)
    ensures
        token_sum(tokens, n) >= 0,
    decreases n,
{
    if n > 0 {
        lemma_token_sum_positive(tokens, n - 1);
    }
}

/// How the tokens of the players together change with those of one player.
pub proof fn lemma_token_sum_update(tokens: Seq<u8>, n: int, player: int, held: u8)
    requires
        0 <= player < tokens.len(),
        0 <= n <= tokens.len(),
    ensures
        token_sum(tokens.update(player, held), n) == token_sum(tokens, n) + (if player < n {
            held - tokens[player]
        } else {
            0
        }),
    decreases n,
{
    if n > 0 {
        lemma_token_sum_update(tokens, n - 1, player, held);
    }
}

/// The draws are of cards of the deck below `n`, by rising number, each of
/// weight one; and each card is taken or can be drawn.
pub proof fn lemma_draws(v: NTStateView, n: int)
    requires
        0 <= n <= 35,
        v.taken.len() == 35,
        forall|card: int| 0 <= card < 3 ==> v.taken[card] is None,
    ensures
        forall|i: int|
            0 <= i < draws(v, n).len() ==> (#[trigger] draws(v, n)[i]).1 == 1 && draws(v, n)[i].0 is Draw
                && drawable(v, draws(v, n)[i].0->Draw_0 as int) && draws(v, n)[i].0->Draw_0 < n,
        forall|i: int, j: int|
            0 <= i < j < draws(v, n).len() ==> (#[trigger] draws(v, n)[i]).0->Draw_0 < (
            #[trigger] draws(v, n)[j]).0->Draw_0,
        draws(v, n).len() + taken_count(v.taken, n) == (if n <= 3 {
            0
        } else {
            n - 3
        }),
        total_weight(draws(v, n)) == draws(v, n).len(),
        taken_count(v.taken, n) >= 0,
    decreases n,
{
    if n > 0 {
        lemma_draws(v, n - 1);
        if drawable(v, n - 1) {
            assert(draws(v, n).drop_last() =~= draws(v, n - 1));
        }
    }
}

/// In a position that can come up in play the draws hold no card twice, and
/// while the game goes on they can be sampled.
pub proof fn lemma_deck(v: NTStateView)
    requires
        reachable(v),
    ensures
        outcome_actions(draws(v, 35)).no_duplicates(),
        taken_count(v.taken, 35) < 24 ==> samplable(draws(v, 35)),
{
    lemma_draws(v, 35);
    let deck = draws(v, 35);
    assert forall|i: int, j: int|
        0 <= i < outcome_actions(deck).len() && 0 <= j < outcome_actions(deck).len() && i
            != j implies outcome_actions(deck)[i] != outcome_actions(deck)[j] by {
        if i < j {
            assert(deck[i].0->Draw_0 < deck[j].0->Draw_0);
        } else {
            assert(deck[j].0->Draw_0 < deck[i].0->Draw_0);
        }
    }
    if taken_count(v.taken, 35) < 24 {
        assert(deck.len() > 0);
        assert forall|i: int| 0 <= i < deck.len() implies (#[trigger] deck[i]).1 > 0 by {
            assert(deck[i].1 == 1);
        }
        assert(total_weight(deck) <= u32::MAX);
    }
}

/// After a move of a player the position is one that can come up in play.
pub proof fn lemma_after_move(v: NTStateView, action: NTAction)
    requires
        reachable(v),
        !v.to_draw,
        action is Take || (action is NoThanks && v.tokens[v.next_player as int] > 0),
    ensures
        takeable(action, v),
        v.tokens[v.next_player as int] + v.tokens_on_card <= 255,
        reachable(after(action, v)),
{
    let n = v.tokens.len() as int;
    let player = v.next_player as int;
    lemma_token_sum(v.tokens, n, player);
    match action {
        NTAction::Take => {
            lemma_token_sum_update(v.tokens, n, player, (v.tokens[player] + v.tokens_on_card) as u8);
        },
        NTAction::NoThanks => {
            lemma_token_sum_update(v.tokens, n, player, (v.tokens[player] - 1) as u8);
        },
        NTAction::Draw(_) => {},
    }
}

/// After a card of the deck is drawn the position is one that can come up in
/// play.
pub proof fn lemma_after_draw(v: NTStateView, card: u8)
    requires
        reachable(v),
        drawable(v, card as int),
    ensures
        reachable(after(NTAction::Draw(card), v)),
{
    lemma_token_sum_positive(v.tokens, v.tokens.len() as int);
}

impl NTState {
    /// The number of players.
    pub fn player_count(&self) -> (count: usize)
        ensures
            count == self@.tokens.len(),
    {
        self.tokens.len()
    }

    /// The tokens of a player.
    pub fn tokens(&self, player: u8) -> (held: u8)
        requires
            player < self@.tokens.len(),
        ensures
            held == self@.tokens[player as int],
    {
        self.tokens[player as usize]
    }

    /// Who took a card, if it is taken.
    pub fn taken_by(&self, card: u8) -> (owner: Option<u8>)
        requires
            card < 35,
        ensures
            owner == self@.taken[card as int],
    {
        self.cards[card as usize]
    }

    /// The card that lies open.
    pub fn current_card(&self) -> (card: Option<u8>)
        ensures
            card == self@.current_card,
    {
        self.current_card
    }

    /// The tokens that lie on the open card.
    pub fn tokens_on_card(&self) -> (tokens: u8)
        ensures
            tokens == self@.tokens_on_card,
    {
        self.tokens_on_card
    }

    /// The player whose turn it is.
    pub fn next_player(&self) -> (player: u8)
        ensures
            player == self@.next_player,
    {
        self.next_player
    }

    /// The number of cards that are taken.
    fn count_taken(&self) -> (count: usize)
        ensures
            count == taken_count(self@.taken, 35),
    {
        let mut count: usize = 0;
        let mut card: usize = 0;
        while card < 35
            invariant
                card <= 35,
                count <= card,
                count == taken_count(self@.taken, card as int),
            decreases 35 - card,
        {
            if self.cards[card].is_some() {
                count += 1;
            }
            card += 1;
        }
        count
    }

    /// The score of a player. The lowest score wins.
    pub fn score_of(&self, player: u8) -> (points: i32)
        requires
            player < self@.tokens.len(),
            self@.taken.len() == 35,
        ensures
            points == score(self@, player as int),
    {
        let mut points: i32 = 0;
        let mut card: usize = 0;
        while card < 35
            invariant
                card <= 35,
                0 <= points <= 35 * card,
                points == points_below(self@, player, card as int),
            decreases 35 - card,
        {
            let mine = match self.cards[card] {
                Some(owner) => owner == player,
                None => false,
            };
            let below = if card > 0 {
                match self.cards[card - 1] {
                    Some(owner) => owner == player,
                    None => false,
                }
            } else {
                false
            };
            if mine && (card == 3 || (card > 0 && !below)) {
                points += card as i32;
            }
            card += 1;
        }
        points - self.tokens[player as usize] as i32
    }

    /// The scores of the players.
    pub fn scores(&self) -> (scores: Vec<i32>)
        requires
            reachable(self@),
        ensures
            scores@.len() == self@.tokens.len(),
            forall|player: int| 0 <= player < scores@.len() ==> #[trigger] scores@[player] == score(self@, player),
    {
        let mut scores: Vec<i32> = Vec::new();
        let mut player: usize = 0;
        while player < self.tokens.len()
            invariant
                player <= self.tokens.len(),
                reachable(self@),
                scores@.len() == player,
                forall|p: int| 0 <= p < player ==> #[trigger] scores@[p] == score(self@, p),
            decreases self.tokens.len() - player,
        {
            scores.push(self.score_of(player as u8));
            player += 1;
        }
        scores
    }
}

impl Action for NTAction {
    type StateType = NTState;

    open spec fn applicable(&self, state: NTStateView) -> bool {
        &&& takeable(*self, state)
        &&& *self is Take ==> state.tokens[state.next_player as int] + state.tokens_on_card <= 255
        &&& *self is NoThanks ==> state.tokens_on_card < 255
    }

    open spec fn successor(&self, state: NTStateView) -> NTStateView {
        after(*self, state)
    }

    proof fn lemma_eq() {
        reveal(obeys_concrete_eq);
    }

    fn execute(&self, state: &NTState) -> (next: NTState) {
        let player = state.next_player as usize;
        match self {
            NTAction::Take => {
                let mut cards = state.cards;
                let mut tokens = copied(&state.tokens);
                match state.current_card {
                    Some(card) => {
                        cards[card as usize] = Some(state.next_player);
                    },
                    None => {},
                }
                tokens[player] = state.tokens[player] + state.tokens_on_card;
                NTState {
                    cards,
                    tokens,
                    next_player: state.next_player,
                    to_draw: true,
                    current_card: state.current_card,
                    tokens_on_card: 0,
                }
            },
            NTAction::NoThanks => {
                let mut tokens = copied(&state.tokens);
                tokens[player] = state.tokens[player] - 1;
                NTState {
                    cards: state.cards,
                    tokens,
                    next_player: ((state.next_player as usize + 1) % state.tokens.len()) as u8,
                    to_draw: false,
                    current_card: state.current_card,
                    tokens_on_card: state.tokens_on_card + 1,
                }
            },
            NTAction::Draw(card) => NTState {
                cards: state.cards,
                tokens: copied(&state.tokens),
                next_player: state.next_player,
                to_draw: false,
                current_card: Some(*card),
                tokens_on_card: 0,
            },
        }
    }
}

impl State for NTState {
    type ActionType = NTAction;

    open spec fn inv(v: NTStateView) -> bool {
        reachable(v)
    }

    open spec fn permitted(v: NTStateView) -> Seq<NTAction> {
        if Self::is_terminal(v) {
            Seq::empty()
        } else {
            moves(v)
        }
    }

    open spec fn actor(v: NTStateView) -> ActorView<NTAction> {
        if v.to_draw && !Self::is_terminal(v) {
            ActorView::GameAction(draws(v, 35))
        } else {
            ActorView::Player(v.next_player)
        }
    }

    open spec fn is_terminal(v: NTStateView) -> bool {
        taken_count(v.taken, 35) >= 24
    }

    open spec fn rewards(v: NTStateView) -> Seq<Reward> {
        Seq::new(v.tokens.len(), |player: int| reward_of(v, player))
    }

    open spec fn players(v: NTStateView) -> nat {
        v.tokens.len()
    }

    proof fn lemma_moves(v: NTStateView) {
        if Self::is_terminal(v) {
        } else if v.to_draw {
            lemma_deck(v);
            lemma_draws(v, 35);
            assert forall|i: int| 0 <= i < draws(v, 35).len() implies {
                let a = (#[trigger] draws(v, 35)[i]).0;
                &&& a.applicable(v)
                &&& Self::inv(a.successor(v))
                &&& Self::players(a.successor(v)) == Self::players(v)
            } by {
                let a = draws(v, 35)[i].0;
                lemma_after_draw(v, a->Draw_0);
            }
        } else {
            let n = v.tokens.len() as int;
            lemma_token_sum(v.tokens, n, v.next_player as int);
            assert forall|i: int| 0 <= i < Self::permitted(v).len() implies {
                let a = #[trigger] Self::permitted(v)[i];
                &&& a.applicable(v)
                &&& Self::inv(a.successor(v))
                &&& Self::players(a.successor(v)) == Self::players(v)
            } by {
                lemma_after_move(v, Self::permitted(v)[i]);
            }
        }
    }

    fn permitted_actions(&self) -> (actions: Vec<NTAction>) {
        if self.terminal() {
            return Vec::new();
        }
        let actions = if self.tokens[self.next_player as usize] > 0 {
            vec![NTAction::Take, NTAction::NoThanks]
        } else {
            vec![NTAction::Take]
        };
        assert(actions@ =~= moves(self@));
        actions
    }

    fn next_actor(&self) -> (actor: Actor<NTAction>) {
        if self.to_draw && !self.terminal() {
            let mut actions: Vec<(NTAction, u32)> = Vec::new();
            let mut card: usize = 0;
            while card < 35
                invariant
                    card <= 35,
                    self@.taken.len() == 35,
                    actions@ == draws(self@, card as int),
                decreases 35 - card,
            {
                if card >= 3 && self.cards[card].is_none() {
                    actions.push((NTAction::Draw(card as u8), 1));
                }
                card += 1;
            }
            Actor::GameAction(actions)
        } else {
            Actor::Player(self.next_player)
        }
    }

    fn terminal(&self) -> (over: bool) {
        self.count_taken() >= CARDS_PLAYED
    }

    fn reward(&self) -> (reward: Vec<Reward>) {
        // Lowest score wins
        // Distributing reward linearly between -1 and 1 based on position, not score
        let scores = self.scores();
        let player_count = scores.len();
        let mut reward: Vec<Reward> = Vec::new();
        let mut player: usize = 0;
        while player < player_count
            invariant
                player <= player_count,
                reachable(self@),
                player_count == self@.tokens.len(),
                scores@.len() == player_count,
                forall|p: int| 0 <= p < scores@.len() ==> #[trigger] scores@[p] == score(self@, p),
                reward@.len() == player,
                forall|p: int| 0 <= p < player ==> #[trigger] reward@[p] == reward_of(self@, p),
            decreases player_count - player,
        {
            let mut pos: usize = 0;
            let mut other: usize = 0;
            while other < player_count
                invariant
                    other <= player_count,
                    player < player_count,
                    player_count == self@.tokens.len(),
                    scores@.len() == player_count,
                    forall|p: int| 0 <= p < scores@.len() ==> #[trigger] scores@[p] == score(self@, p),
                    pos <= other,
                    pos == place(self@, player as int, other as int),
                decreases player_count - other,
            {
                if scores[other] < scores[player] || (scores[other] == scores[player] && other < player) {
                    pos += 1;
                }
                other += 1;
            }
            let bonus: i64 = if player == 0 {
                FIXED_ONE
            } else {
                0
            };
            assert(FIXED_ONE * pos <= FIXED_ONE * 36) by (nonlinear_arith)
                requires
                    pos <= 36,
            ;
            reward.push(FIXED_ONE - FIXED_ONE * (pos as i64) / (player_count as i64 - 1) + bonus);
            player += 1;
        }
        assert(reward@ =~= Self::rewards(self@));
        reward
    }
}

/// The card game in which nobody wants the cards.
pub struct NT {
    pub player_count: u8,
}

/// The tokens that each player starts with.
pub open spec fn starting_tokens(player_count: u8) -> u8 {
    if player_count <= 5 {
        11
    } else if player_count == 6 {
        9
    } else {
        7
    }
}

/// Players that start with the same tokens have together as many tokens as
/// one has, times their number.
pub proof fn lemma_starting_sum(tokens: Seq<u8>, n: int, each: u8)
    requires
        0 <= n <= tokens.len(),
        forall|p: int| 0 <= p < tokens.len() ==> tokens[p] == each,
    ensures
        token_sum(tokens, n) == n * each,
    decreases n,
{
    if n > 0 {
        lemma_starting_sum(tokens, n - 1, each);
        assert(n * each == (n - 1) * each + each) by (nonlinear_arith);
    } else {
        assert(n * each == 0) by (nonlinear_arith)
            requires
                n == 0,
        ;
    }
}

/// The position in which the game starts: no card is taken, every player has
/// the starting tokens, and a card is drawn for the first player.
pub open spec fn start(player_count: u8) -> NTStateView {
    NTStateView {
        taken: Seq::new(35, |card: int| None),
        tokens: Seq::new(player_count as nat, |player: int| starting_tokens(player_count)),
        next_player: 0,
        to_draw: true,
        current_card: None,
        tokens_on_card: 0,
    }
}

impl Game for NT {
    type StateType = NTState;

    type ActionType = NTAction;

    open spec fn playable(&self) -> bool {
        2 <= self.player_count <= 36
    }

    fn init_game(&self) -> (state: NTState)
        ensures
            state@ == start(self.player_count),
    {
        let each: u8 = if self.player_count <= 5 {
            11
        } else if self.player_count == 6 {
            9
        } else {
            7
        };
        let mut tokens: Vec<u8> = Vec::new();
        let mut player_id: u8 = 0;
        while player_id < self.player_count
            invariant
                player_id <= self.player_count,
                tokens@.len() == player_id,
                forall|p: int| 0 <= p < tokens@.len() ==> tokens@[p] == each,
            decreases self.player_count - player_id,
        {
            tokens.push(each);
            player_id += 1;
        }
        proof {
            lemma_starting_sum(tokens@, tokens@.len() as int, each);
            assert(self.player_count * each <= 255) by (nonlinear_arith)
                requires
                    2 <= self.player_count <= 36,
                    each == starting_tokens(self.player_count),
            ;
        }
        let state = NTState {
            cards: [None; 35],
            tokens,
            current_card: None,
            next_player: 0,
            to_draw: true,
            tokens_on_card: 0,
        };
        proof {
            assert(state@.taken =~= start(self.player_count).taken);
            assert(state@.tokens =~= start(self.player_count).tokens);
        }
        state
    }
}

} // verus!
