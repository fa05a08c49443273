use mon2y_rs::game::Game;
use mon2y_rs::games::nt::{NTAction, NT};
use mon2y_rs::mon2y::game::{Action, Actor, State};
use mon2y_rs::mon2y::mcts::calculate_best_turn;
use mon2y_rs::mon2y::node::UcbTerms;
use mon2y_rs::mon2y::weighted_random::{weighted_random, Dice};
use mon2y_rs::mon2y::{BestTurnPolicy, Score, DEFAULT_EXPLORATION_CONSTANT};

fn score(terms: UcbTerms) -> Score {
    let parent_visits = terms.parent_visits as f64;
    let visits = terms.visits as f64;
    let constant = terms.constant as f64 / 1e6;
    let (q, u) = if terms.game_action {
        (1.0, (parent_visits.ln() / (visits / terms.weight as f64)).sqrt())
    } else {
        (
            terms.value_sum as f64 / 1e6 / visits,
            (parent_visits.ln() / visits).sqrt(),
        )
    };
    // only a child without a visit scores infinity
    (((q + constant * u) * 1e6).round() as Score).min(i64::MAX - 1)
}

#[test]
fn the_deck_is_drawn_from_first() {
    let state = NT { player_count: 3 }.init_game();
    assert!(!state.terminal());
    match state.next_actor() {
        Actor::GameAction(draws) => {
            assert_eq!(draws.len(), 32);
            assert_eq!(draws[0], (NTAction::Draw(3), 1));
            assert_eq!(draws[31], (NTAction::Draw(34), 1));
        }
        Actor::Player(_) => panic!("a card is drawn first"),
    }
    assert_eq!(state.scores(), vec![-11, -11, -11]);
}

#[test]
fn tokens_go_onto_the_card_and_to_who_takes_it() {
    let state = NT { player_count: 3 }.init_game();
    let state = NTAction::Draw(10).execute(&state);
    match state.next_actor() {
        Actor::Player(player) => assert_eq!(player, 0),
        Actor::GameAction(_) => panic!("the first player decides"),
    }
    assert_eq!(state.permitted_actions(), vec![NTAction::Take, NTAction::NoThanks]);
    let state = NTAction::NoThanks.execute(&state);
    assert_eq!(state.scores(), vec![-10, -11, -11]);
    match state.next_actor() {
        Actor::Player(player) => assert_eq!(player, 1),
        Actor::GameAction(_) => panic!("the second player decides"),
    }
    let state = NTAction::NoThanks.execute(&state);
    let state = NTAction::Take.execute(&state);
    // player 2 has the card and the two tokens that lay on it
    assert_eq!(state.scores(), vec![-10, -10, 10 - 13]);
    match state.next_actor() {
        Actor::GameAction(draws) => {
            assert_eq!(draws.len(), 31);
            assert!(!draws.contains(&(NTAction::Draw(10), 1)));
        }
        Actor::Player(_) => panic!("the next card is drawn"),
    }
    // the player who took the card decides on the next one first
    let state = NTAction::Draw(11).execute(&state);
    match state.next_actor() {
        Actor::Player(player) => assert_eq!(player, 2),
        Actor::GameAction(_) => panic!("a player decides"),
    }
    let state = NTAction::Take.execute(&state);
    // of a run of cards only the lowest counts
    assert_eq!(state.scores(), vec![-10, -10, 10 - 13]);
    let state = NTAction::Draw(3).execute(&state);
    let state = NTAction::Take.execute(&state);
    assert_eq!(state.scores(), vec![-10, -10, 13 - 13]);
}

#[test]
fn a_player_without_tokens_has_to_take() {
    let mut state = NT { player_count: 2 }.init_game();
    state = NTAction::Draw(20).execute(&state);
    for _ in 0..22 {
        state = NTAction::NoThanks.execute(&state);
    }
    assert_eq!(state.scores(), vec![0, 0]);
    assert_eq!(state.permitted_actions(), vec![NTAction::Take]);
    state = NTAction::Take.execute(&state);
    assert_eq!(state.scores(), vec![20 - 22, 0]);
}

#[test]
fn rewards_go_by_place() {
    let mut state = NT { player_count: 3 }.init_game();
    // player 0 takes every card at once
    for card in 3..27u8 {
        assert!(!state.terminal());
        state = NTAction::Draw(card).execute(&state);
        state = NTAction::Take.execute(&state);
    }
    assert!(state.terminal());
    // one run from 3 up: only the 3 counts
    assert_eq!(state.scores(), vec![3 - 11, -11, -11]);
    // players 1 and 2 share the lowest score: the lower number comes first;
    // the first player gets one more whatever the place
    assert_eq!(state.reward(), vec![1_000_000, 1_000_000, 500_000]);
    // a game that is over offers no move and no draw
    assert!(state.permitted_actions().is_empty());
    assert!(matches!(state.next_actor(), Actor::Player(0)));
}

#[test]
fn a_game_can_be_played_out_by_the_search() {
    let mut state = NT { player_count: 3 }.init_game();
    let mut dice = Dice::seeded(11);
    let mut turns = 0;
    while !state.terminal() {
        match state.next_actor() {
            Actor::Player(_) => {
                let action = calculate_best_turn(
                    40,
                    None,
                    state.clone(),
                    BestTurnPolicy::Ucb0,
                    DEFAULT_EXPLORATION_CONSTANT,
                    &score,
                    Some(turns),
                );
                assert!(state.permitted_actions().contains(&action));
                state = action.execute(&state);
            }
            Actor::GameAction(draws) => {
                let action = weighted_random(draws, &mut dice);
                state = action.execute(&state);
            }
        }
        turns += 1;
        assert!(turns < 2000);
    }
    assert_eq!(state.reward().len(), 3);
}
