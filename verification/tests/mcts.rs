use mon2y_rs::mon2y::game::Actor;
use mon2y_rs::mon2y::mcts::{
    best_action, budget_spent, calculate_best_turn, is_winning, out_of_time,
};
use mon2y_rs::mon2y::node::{create_expanded_node, Node, UcbTerms};
use mon2y_rs::mon2y::{BestTurnPolicy, Score, DEFAULT_EXPLORATION_CONSTANT, FIXED_ONE};
use mon2y_rs::test::injectable_game::{InjectableGameAction, InjectableGameState};
use std::time::Duration;

fn score(terms: UcbTerms) -> Score {
    let parent_visits = terms.parent_visits as f64;
    let visits = terms.visits as f64;
    let constant = terms.constant as f64 / 1e6;
    let (q, u) = if terms.game_action {
        (1.0, (parent_visits.ln() / (visits / terms.weight as f64)).sqrt())
    } else {
        (
            terms.value_sum as f64 / 1e6 / visits,
            (parent_visits.ln() / visits).sqrt(),
        )
    };
    // only a child without a visit scores infinity
    (((q + constant * u) * 1e6).round() as Score).min(i64::MAX - 1)
}

fn state(
    actions: Vec<InjectableGameAction>,
    terminal: bool,
    reward: Vec<i64>,
    player_count: u8,
) -> InjectableGameState {
    InjectableGameState {
        injected_reward: reward,
        injected_terminal: terminal,
        injected_permitted_actions: actions,
        player_count,
        next_actor: Actor::Player(0),
    }
}

/// A root with three children that were visited 2, 5 and 5 times, with value
/// sums of 2, 3 and 4.
fn three_children() -> Node<InjectableGameState, InjectableGameAction> {
    let actions = vec![
        InjectableGameAction::WinInXTurns(1),
        InjectableGameAction::WinInXTurns(2),
        InjectableGameAction::WinInXTurns(3),
    ];
    let mut root = create_expanded_node(state(actions.clone(), false, vec![0], 1), None);
    for (action, visits, value) in [(actions[0], 2, 2), (actions[1], 5, 3), (actions[2], 5, 4)] {
        let mut child = create_expanded_node(state(vec![InjectableGameAction::Win], false, vec![0], 1), None);
        for visit in 0..visits {
            child.visit(if visit < value { FIXED_ONE } else { 0 });
        }
        root.insert_child(action, child);
    }
    root
}

#[test]
fn most_visits_takes_the_first_of_the_most_visited() {
    let root = three_children();
    assert_eq!(
        best_action(&root, BestTurnPolicy::MostVisits),
        InjectableGameAction::WinInXTurns(2)
    );
}

#[test]
fn mean_value_takes_the_greatest_mean() {
    let root = three_children();
    // 2/2 beats 3/5 and 4/5
    assert_eq!(
        best_action(&root, BestTurnPolicy::Ucb0),
        InjectableGameAction::WinInXTurns(1)
    );
}

#[test]
fn mean_value_passes_over_children_without_a_visit() {
    let actions = vec![InjectableGameAction::Win, InjectableGameAction::Lose];
    let mut root = create_expanded_node(state(actions, false, vec![0], 1), None);
    let mut lost = create_expanded_node(state(vec![], true, vec![-FIXED_ONE], 1), None);
    lost.visit(-FIXED_ONE);
    root.insert_child(InjectableGameAction::Lose, lost);
    // the first child has no visit, the second a mean value of minus one
    assert_eq!(best_action(&root, BestTurnPolicy::Ucb0), InjectableGameAction::Lose);
    // without any visit the first child is taken
    let unvisited = create_expanded_node(
        state(
            vec![InjectableGameAction::Win, InjectableGameAction::Lose],
            false,
            vec![0],
            1,
        ),
        None,
    );
    assert_eq!(best_action(&unvisited, BestTurnPolicy::Ucb0), InjectableGameAction::Win);
    assert_eq!(
        best_action(&unvisited, BestTurnPolicy::MostVisits),
        InjectableGameAction::Win
    );
}

#[test]
fn a_proven_win_is_taken_whatever_the_visits() {
    let mut root = three_children();
    let won = create_expanded_node(state(vec![], true, vec![FIXED_ONE], 1), None);
    root.insert_child(InjectableGameAction::WinInXTurns(3), won);
    assert_eq!(
        best_action(&root, BestTurnPolicy::MostVisits),
        InjectableGameAction::WinInXTurns(3)
    );
    // the mean value does not look for proven wins
    assert_eq!(
        best_action(&root, BestTurnPolicy::Ucb0),
        InjectableGameAction::WinInXTurns(1)
    );
}

#[test]
fn the_winner_has_a_greater_reward_than_every_other_player() {
    assert!(is_winning(&vec![1, -1], 0));
    assert!(!is_winning(&vec![1, -1], 1));
    assert!(is_winning(&vec![-1, 1], 1));
    // a draw names nobody
    assert!(!is_winning(&vec![-5, -5], 0));
    assert!(!is_winning(&vec![-5, -5], 1));
    // no entry for the player
    assert!(!is_winning(&vec![1], 1));
    assert!(!is_winning(&vec![], 0));
    assert!(!is_winning(&vec![3, 7, 7, 2], 2));
    assert!(!is_winning(&vec![3, 7, 7, 2], 1));
    assert!(is_winning(&vec![3, 7, 8, 2], 2));
    // a single player has nobody to share with
    assert!(is_winning(&vec![-1], 0));
}

#[test]
fn time_runs_out_only_past_the_limit() {
    assert!(!out_of_time(5, None));
    assert!(!out_of_time(5, Some(5)));
    assert!(out_of_time(6, Some(5)));
    assert!(!out_of_time(0, Some(0)));
    // a search stops with its iterations, its tree or its time used up
    assert!(!budget_spent(9, 10, false, 5, Some(5)));
    assert!(budget_spent(10, 10, false, 5, Some(5)));
    assert!(budget_spent(9, 10, true, 5, Some(5)));
    assert!(budget_spent(9, 10, false, 6, Some(5)));
    assert!(!budget_spent(9, 10, false, 6, None));
    assert!(budget_spent(1, 0, false, 0, None));
}

#[test]
fn a_search_without_time_still_answers() {
    let root_state = state(
        vec![InjectableGameAction::WinInXTurns(1), InjectableGameAction::Lose],
        false,
        vec![0],
        1,
    );
    let action = calculate_best_turn(
        1_000_000,
        Some(Duration::ZERO),
        root_state.clone(),
        BestTurnPolicy::MostVisits,
        DEFAULT_EXPLORATION_CONSTANT,
        &score,
        Some(1),
    );
    // one iteration ran: the first move was visited
    assert_eq!(action, InjectableGameAction::WinInXTurns(1));
    let action = calculate_best_turn(
        0,
        None,
        root_state,
        BestTurnPolicy::MostVisits,
        DEFAULT_EXPLORATION_CONSTANT,
        &score,
        Some(1),
    );
    assert_eq!(action, InjectableGameAction::WinInXTurns(1));
}

#[test]
fn a_search_answers_with_an_open_move() {
    let actions = vec![InjectableGameAction::Lose, InjectableGameAction::WinInXTurns(2)];
    let root_state = state(actions.clone(), false, vec![0], 2);
    for policy in [BestTurnPolicy::MostVisits, BestTurnPolicy::Ucb0] {
        let action = calculate_best_turn(
            200,
            None,
            root_state.clone(),
            policy,
            DEFAULT_EXPLORATION_CONSTANT,
            &score,
            None,
        );
        assert!(actions.contains(&action));
    }
    assert_eq!(BestTurnPolicy::MostVisits.name(), "MostVisits");
    assert_eq!(BestTurnPolicy::Ucb0.name(), "Ucb0");
}

#[test]
fn with_one_player_every_end_is_a_win() {
    // The only player has the greatest reward whatever it is: the first move
    // that ends the game is taken.
    let root_state = state(
        vec![InjectableGameAction::WinInXTurns(0), InjectableGameAction::Lose],
        false,
        vec![0],
        1,
    );
    let action = calculate_best_turn(
        50,
        None,
        root_state,
        BestTurnPolicy::MostVisits,
        DEFAULT_EXPLORATION_CONSTANT,
        &score,
        Some(3),
    );
    assert_eq!(action, InjectableGameAction::Lose);
}

#[test]
fn a_search_runs_as_many_iterations_as_its_budget() {
    // The first iteration reaches the loss, the second the win: the mean
    // value chooses the win only if both have run.
    let actions = vec![InjectableGameAction::Lose, InjectableGameAction::WinInXTurns(0)];
    let root_state = state(actions, false, vec![0, 0], 2);
    for seed in 0..5 {
        let action = calculate_best_turn(
            2,
            None,
            root_state.clone(),
            BestTurnPolicy::Ucb0,
            DEFAULT_EXPLORATION_CONSTANT,
            &score,
            Some(seed),
        );
        assert_eq!(action, InjectableGameAction::WinInXTurns(0));
        // with one iteration only the loss has a visit
        let action = calculate_best_turn(
            1,
            None,
            root_state.clone(),
            BestTurnPolicy::Ucb0,
            DEFAULT_EXPLORATION_CONSTANT,
            &score,
            Some(seed),
        );
        assert_eq!(action, InjectableGameAction::Lose);
    }
}

#[test]
fn a_move_that_wins_at_once_is_found_with_one_iteration_per_move() {
    // Two players; the third move wins at once for the player to move.
    let actions = vec![
        InjectableGameAction::WinInXTurns(2),
        InjectableGameAction::Lose,
        InjectableGameAction::Win,
        InjectableGameAction::WinInXTurns(1),
    ];
    let root_state = state(actions.clone(), false, vec![0, 0], 2);
    for seed in 0..5 {
        let action = calculate_best_turn(
            actions.len(),
            None,
            root_state.clone(),
            BestTurnPolicy::MostVisits,
            DEFAULT_EXPLORATION_CONSTANT,
            &score,
            Some(seed),
        );
        assert_eq!(action, InjectableGameAction::Win);
    }
}
