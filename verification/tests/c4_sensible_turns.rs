use mon2y_rs::game::Game;
use mon2y_rs::games::c4;
use mon2y_rs::games::c4::C4;
use mon2y_rs::mon2y::game::{Action, Actor, State};
use mon2y_rs::mon2y::mcts::calculate_best_turn;
use mon2y_rs::mon2y::node::{create_expanded_node, Node, UcbTerms};
use mon2y_rs::mon2y::tree::{Selection, Tree};
use mon2y_rs::mon2y::{BestTurnPolicy, Score, DEFAULT_EXPLORATION_CONSTANT};

/// The seed of the play-outs, so that every run searches the same way.
const SEED: u64 = 7;

fn score(terms: UcbTerms) -> Score {
    let parent_visits = terms.parent_visits as f64;
    let visits = terms.visits as f64;
    let constant = terms.constant as f64 / 1e6;
    let (q, u) = if terms.game_action {
        (1.0, (parent_visits.ln() / (visits / terms.weight as f64)).sqrt())
    } else {
        (
            terms.value_sum as f64 / 1e6 / visits,
            (parent_visits.ln() / visits).sqrt(),
        )
    };
    // only a child without a visit scores infinity
    (((q + constant * u) * 1e6).round() as Score).min(i64::MAX - 1)
}

fn after(moves: Vec<u8>) -> c4::C4State {
    let mut c4_state = C4.init_game();
    for column in moves {
        c4_state = c4::C4Action::Drop(column).execute(&c4_state);
    }
    c4_state
}

#[test]
fn test_c4_one_action_blocks_win() {
    let mut c4_state = C4.init_game();
    for action in vec![
        c4::C4Action::Drop(0),
        c4::C4Action::Drop(1),
        c4::C4Action::Drop(0),
        c4::C4Action::Drop(1),
        c4::C4Action::Drop(0),
    ] {
        c4_state = action.execute(&c4_state);
    }
    let action = calculate_best_turn(
        100,
        None,
        c4_state,
        BestTurnPolicy::MostVisits,
        DEFAULT_EXPLORATION_CONSTANT,
        &score,
        Some(SEED),
    );
    assert_eq!(action, c4::C4Action::Drop(0));
}

#[test]
fn test_c4_one_action_gets_win() {
    let mut c4_state = C4.init_game();
    for action in vec![
        c4::C4Action::Drop(3),
        c4::C4Action::Drop(1),
        c4::C4Action::Drop(3),
        c4::C4Action::Drop(1),
        c4::C4Action::Drop(3),
        c4::C4Action::Drop(1),
    ] {
        c4_state = action.execute(&c4_state);
    }
    let action = calculate_best_turn(
        100,
        None,
        c4_state,
        BestTurnPolicy::MostVisits,
        DEFAULT_EXPLORATION_CONSTANT,
        &score,
        Some(SEED),
    );
    assert_eq!(action, c4::C4Action::Drop(3));
}

#[test]
fn test_c4_play_out_repeated() {
    let mut c4_state = C4.init_game();
    for action in vec![
        c4::C4Action::Drop(3),
        c4::C4Action::Drop(1),
        c4::C4Action::Drop(3),
        c4::C4Action::Drop(1),
        c4::C4Action::Drop(3),
        c4::C4Action::Drop(1),
    ] {
        c4_state = action.execute(&c4_state);
    }
    let root_node = create_expanded_node(c4_state.clone(), None);
    let mut tree = Tree::seeded(root_node, DEFAULT_EXPLORATION_CONSTANT, SEED);
    let mut p0_wins = 0.0;
    let mut p1_wins = 0.0;
    for _ in 0..1000 {
        let result = tree.play_out(&c4_state);
        if result[0] > 0 {
            p0_wins += 1.0;
        };
        if result[1] > 0 {
            p1_wins += 1.0;
        };
    }
    assert!(p0_wins > p1_wins);
}

#[test]
fn test_c4_plays_through_without_crash() {
    let mut c4_state = C4.init_game();
    let mut moves = 0;
    while !c4_state.terminal() {
        if let Actor::Player(_) = c4_state.next_actor() {
            let action = calculate_best_turn(
                100,
                None,
                c4_state.clone(),
                BestTurnPolicy::MostVisits,
                DEFAULT_EXPLORATION_CONSTANT,
                &score,
                Some(SEED),
            );
            c4_state = action.execute(&c4_state);
            moves += 1;
        }
    }
    assert!(c4_state.terminal());
    assert!(moves <= c4::BOARD_WIDTH * c4::BOARD_HEIGHT);
}

#[test]
fn test_c4_plays_through_multiple_threads_without_crash() {
    let mut c4_state = C4.init_game();
    while !c4_state.terminal() {
        if let Actor::Player(_) = c4_state.next_actor() {
            let action = calculate_best_turn(
                100,
                None,
                c4_state.clone(),
                BestTurnPolicy::MostVisits,
                DEFAULT_EXPLORATION_CONSTANT,
                &score,
                Some(SEED),
            );
            c4_state = action.execute(&c4_state);
        }
    }
}

#[test]
fn test_c4_full_exploration() {
    // This is more of a test that it doesn't freeze when getting fully explored
    // is very likely.
    let mut c4_state = C4.init_game();
    for action in vec![
        c4::C4Action::Drop(3),
        c4::C4Action::Drop(3),
        c4::C4Action::Drop(3),
        c4::C4Action::Drop(3),
        c4::C4Action::Drop(0),
        c4::C4Action::Drop(1),
        c4::C4Action::Drop(0),
        c4::C4Action::Drop(0),
        c4::C4Action::Drop(0),
        c4::C4Action::Drop(4),
        c4::C4Action::Drop(4),
        c4::C4Action::Drop(4),
        c4::C4Action::Drop(6),
        c4::C4Action::Drop(5),
        c4::C4Action::Drop(6),
        c4::C4Action::Drop(3),
        c4::C4Action::Drop(3),
        c4::C4Action::Drop(2),
        c4::C4Action::Drop(2),
        c4::C4Action::Drop(2),
        c4::C4Action::Drop(2),
        c4::C4Action::Drop(2),
    ] {
        c4_state = action.execute(&c4_state);
    }

    calculate_best_turn(
        100000,
        None,
        c4_state,
        BestTurnPolicy::MostVisits,
        DEFAULT_EXPLORATION_CONSTANT,
        &score,
        Some(SEED),
    );
}

#[test]
fn a_fully_explored_tree_ends_the_search_early() {
    // Five columns are full without a line of four: two columns are left.
    let c4_state = after(vec![
        1, 1, 4, 4, 3, 1, 1, 0, 4, 0, 4, 2, 2, 4, 0, 2, 3, 3, 0, 2, 1, 4, 0, 1, 3, 2, 2, 0, 3, 3,
    ]);
    assert!(!c4_state.terminal());
    assert_eq!(
        c4_state.permitted_actions(),
        vec![c4::C4Action::Drop(5), c4::C4Action::Drop(6)]
    );
    let mut tree = Tree::seeded(
        create_expanded_node(c4_state, None),
        DEFAULT_EXPLORATION_CONSTANT,
        SEED,
    );
    let mut iterations = 0;
    while tree.iterate(&score) != Selection::FullyExplored {
        iterations += 1;
        assert!(iterations < 100_000);
    }
    assert!(tree.root.fully_explored());
    // the root is never visited: the iterations show in its children
    assert_eq!(tree.root.visit_count(), 0);
    let below: u32 = match &tree.root {
        Node::Expanded { children, .. } => children.iter().map(|(_, child)| child.visit_count()).sum(),
        Node::Placeholder { .. } => 0,
    };
    assert_eq!(below, iterations);
    assert_eq!(tree.selection(&score), Selection::FullyExplored);
}

#[test]
fn one_open_column_is_played_without_a_search() {
    // Columns 0 to 5 are filled without a line of four; column 6 has room.
    let moves: Vec<u8> = vec![
        2, 1, 1, 5, 3, 1, 1, 5, 5, 0, 1, 1, 0, 2, 5, 0, 4, 5, 4, 4, 5, 0, 3, 2, 3, 3, 3, 0, 3, 2,
        2, 2, 4, 4, 0, 4,
    ];
    let c4_state = after(moves);
    assert!(!c4_state.terminal());
    assert_eq!(c4_state.permitted_actions(), vec![c4::C4Action::Drop(6)]);
    let never = |_: UcbTerms| -> Score { panic!("no score is asked for") };
    let action = calculate_best_turn(
        1,
        None,
        c4_state,
        BestTurnPolicy::MostVisits,
        DEFAULT_EXPLORATION_CONSTANT,
        &never,
        None,
    );
    assert_eq!(action, c4::C4Action::Drop(6));
}

#[test]
fn rewards_are_credited_to_the_player_who_chose() {
    // Player 0 has three in column 3 and wins with a fourth.
    let c4_state = after(vec![3, 1, 3, 1, 3, 1]);
    let mut tree = Tree::seeded(
        create_expanded_node(c4_state, None),
        DEFAULT_EXPLORATION_CONSTANT,
        SEED,
    );
    for _ in 0..50 {
        if tree.iterate(&score) == Selection::FullyExplored {
            break;
        }
    }
    let winning = tree.root.get_child(c4::C4Action::Drop(3));
    assert_eq!(
        winning.value_sum(),
        winning.visit_count() as i128 * 1_000_000
    );
    assert!(winning.state().terminal());
    assert_eq!(winning.state().reward(), vec![1_000_000, -1_000_000]);
    // Below the other moves player 1 chose: a child in which player 1 has
    // won holds what player 1 gets there.
    let mut seen = 0;
    for column in [0, 2, 4, 5, 6] {
        if let Node::Expanded { children, .. } = tree.root.get_child(c4::C4Action::Drop(column)) {
            for (_, grandchild) in children {
                if let Node::Expanded { state, visit_count, value_sum, .. } = grandchild {
                    if state.terminal() && *visit_count > 0 {
                        assert_eq!(state.reward(), vec![-1_000_000, 1_000_000]);
                        assert_eq!(*value_sum, *visit_count as i128 * 1_000_000);
                        seen += 1;
                    }
                }
            }
        } else {
            panic!("Node is not expanded");
        }
    }
    assert!(seen >= 1);
    // the root itself is credited nothing
    assert_eq!(tree.root.visit_count(), 0);
    assert_eq!(tree.root.value_sum(), 0);
}

#[test]
fn a_win_sets_the_rewards_and_ends_the_game() {
    let won = after(vec![3, 1, 3, 1, 3, 1, 3]);
    assert!(won.terminal());
    assert_eq!(won.reward(), vec![1_000_000, -1_000_000]);
    let lost = after(vec![0, 3, 1, 3, 1, 3, 2, 3]);
    assert!(lost.terminal());
    assert_eq!(lost.reward(), vec![-1_000_000, 1_000_000]);
    let running = after(vec![0, 1, 2]);
    assert!(!running.terminal());
    assert_eq!(running.reward(), vec![0, 0]);
    assert_eq!(running.permitted_actions().len(), 7);
}

#[test]
fn lines_are_found_in_every_direction() {
    // along a row
    assert!(after(vec![0, 0, 1, 1, 2, 2, 3]).terminal());
    // a diagonal that rises to the right
    assert!(after(vec![0, 1, 1, 2, 2, 3, 2, 3, 3, 6, 3]).terminal());
    // a diagonal that falls to the right
    assert!(after(vec![3, 2, 2, 1, 1, 0, 1, 0, 0, 6, 0]).terminal());
    // three in a row is no line
    assert!(!after(vec![0, 0, 1, 1, 2, 2]).terminal());
}

#[test]
fn a_full_column_is_not_offered() {
    let state = after(vec![0, 0, 0, 0, 0, 0]);
    let actions = state.permitted_actions();
    assert_eq!(actions.len(), 6);
    assert!(!actions.contains(&c4::C4Action::Drop(0)));
    assert_eq!(state.cell_at(0, 0), c4::C4Cell::Filled(1));
    assert_eq!(state.cell_at(5, 0), c4::C4Cell::Filled(0));
    assert_eq!(state.cell_at(5, 1), c4::C4Cell::Empty);
}

#[test]
fn a_winning_drop_is_found_with_one_iteration_per_column() {
    // Player 0 has three in column 3 and wins with a fourth.
    for seed in 0..5 {
        let action = calculate_best_turn(
            7,
            None,
            after(vec![3, 1, 3, 1, 3, 1]),
            BestTurnPolicy::MostVisits,
            DEFAULT_EXPLORATION_CONSTANT,
            &score,
            Some(seed),
        );
        assert_eq!(action, c4::C4Action::Drop(3));
    }
}
