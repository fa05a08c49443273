use mon2y_rs::game::Game;
use mon2y_rs::games::cs::{dice_actions, distinct, distinct_moves, CSAction, CS};
use mon2y_rs::mon2y::game::{Action, Actor, State};
use mon2y_rs::mon2y::tree::Tree;
use mon2y_rs::mon2y::node::create_expanded_node;
use mon2y_rs::mon2y::DEFAULT_EXPLORATION_CONSTANT;
use std::collections::HashMap;

#[test]
fn test_dice_actions_weights() {
    let test_cases = vec![
        (CSAction::DiceRoll(1, 1, 1, 1), 1),
        (CSAction::DiceRoll(1, 4, 4, 4), 4),
        (CSAction::DiceRoll(1, 3, 3, 5), 12),
        (CSAction::DiceRoll(1, 3, 4, 6), 24),
    ];

    let actions: HashMap<CSAction, u32> = dice_actions()
        .iter()
        .map(|(action, weight)| (*action, *weight))
        .collect::<HashMap<_, _>>();

    for (action, expected_weight) in test_cases {
        let actual_weight = actions.get(&action).unwrap_or(&0);
        assert_eq!(
            *actual_weight, expected_weight,
            "Action {:?} has weight {}, expected {}",
            action, actual_weight, expected_weight
        );
    }
}

#[test]
fn dice_actions_cover_every_way_the_dice_can_fall() {
    let actions = dice_actions();
    assert_eq!(actions.len(), 126);
    assert_eq!(actions.iter().map(|(_, weight)| weight).sum::<u32>(), 6 * 6 * 6 * 6);
    assert_eq!(actions[0], (CSAction::DiceRoll(1, 1, 1, 1), 1));
    assert_eq!(actions[1], (CSAction::DiceRoll(1, 1, 1, 2), 4));
    assert_eq!(actions[125], (CSAction::DiceRoll(6, 6, 6, 6), 1));
    let pairs = actions
        .iter()
        .find(|(action, _)| *action == CSAction::DiceRoll(2, 2, 5, 5))
        .unwrap();
    assert_eq!(pairs.1, 6);
    // counted out: every way four dice can fall, sorted
    let mut counted: HashMap<CSAction, u32> = HashMap::new();
    for d1 in 1..=6u8 {
        for d2 in 1..=6u8 {
            for d3 in 1..=6u8 {
                for d4 in 1..=6u8 {
                    let mut sorted = [d1, d2, d3, d4];
                    sorted.sort_unstable();
                    let action = CSAction::DiceRoll(sorted[0], sorted[1], sorted[2], sorted[3]);
                    *counted.entry(action).or_insert(0) += 1;
                }
            }
        }
    }
    for (action, weight) in actions {
        assert_eq!(counted.get(&action), Some(&weight));
    }
}

#[test]
fn distinct_keeps_each_item_where_it_stood_last() {
    assert_eq!(distinct(&vec![]), Vec::<u32>::new());
    assert_eq!(distinct(&vec![5, 7, 5]), vec![7, 5]);
    assert_eq!(distinct(&vec![1, 2, 3]), vec![1, 2, 3]);
    assert_eq!(distinct(&vec![4, 4, 4]), vec![4]);
    assert_eq!(
        distinct_moves(&vec![
            CSAction::Move(7, Some(7)),
            CSAction::Move(6, Some(8)),
            CSAction::Move(7, Some(7)),
        ]),
        vec![CSAction::Move(6, Some(8)), CSAction::Move(7, Some(7))]
    );
    assert_eq!(
        distinct_moves(&vec![CSAction::Move(4, None), CSAction::Move(4, None), CSAction::Move(12, None)]),
        vec![CSAction::Move(4, None), CSAction::Move(12, None)]
    );
}

#[test]
fn a_turn_goes_from_roll_to_move_to_stop() {
    let game = CS { player_count: 2 };
    let state = game.init_game();
    assert!(!state.terminal());
    assert_eq!(state.reward(), vec![0, 0]);
    match state.next_actor() {
        Actor::GameAction(outcomes) => assert_eq!(outcomes.len(), 126),
        Actor::Player(_) => panic!("the dice are rolled first"),
    }
    assert_eq!(state.permitted_actions(), vec![CSAction::Roll, CSAction::Done]);

    let rolled = CSAction::DiceRoll(1, 2, 3, 4).execute(&state);
    match rolled.next_actor() {
        Actor::Player(player) => assert_eq!(player, 0),
        Actor::GameAction(_) => panic!("the player moves after the roll"),
    }
    // 1+2 and 3+4, 1+3 and 2+4, 1+4 and 2+3
    assert_eq!(
        rolled.permitted_actions(),
        vec![
            CSAction::Move(3, Some(7)),
            CSAction::Move(4, Some(6)),
            CSAction::Move(5, Some(5)),
        ]
    );

    let moved = CSAction::Move(5, Some(5)).execute(&rolled);
    assert_eq!(moved.permitted_actions(), vec![CSAction::Roll, CSAction::Done]);
    let again = CSAction::Roll.execute(&moved);
    assert!(matches!(again.next_actor(), Actor::GameAction(_)));
    // columns 3 and 7 would be a second and a third: allowed; 4 and 6 too;
    // but only one pair can be new together with the column of the turn
    let second = CSAction::DiceRoll(1, 2, 3, 4).execute(&again);
    assert_eq!(
        second.permitted_actions(),
        vec![
            CSAction::Move(3, Some(7)),
            CSAction::Move(4, Some(6)),
            CSAction::Move(5, Some(5)),
        ]
    );

    let stopped = CSAction::Done.execute(&moved);
    match stopped.next_actor() {
        Actor::GameAction(_) => {}
        Actor::Player(_) => panic!("the next player rolls"),
    }
    let next = CSAction::DiceRoll(1, 1, 1, 1).execute(&stopped);
    match next.next_actor() {
        Actor::Player(player) => assert_eq!(player, 1),
        Actor::GameAction(_) => panic!("the player moves after the roll"),
    }
    assert_eq!(next.permitted_actions(), vec![CSAction::Move(2, Some(2))]);
}

#[test]
fn three_columns_end_the_game() {
    let game = CS { player_count: 2 };
    let mut state = game.init_game();
    // Columns 2 and 12 have three places, column 3 has five.
    for (roll, step) in vec![
        (CSAction::DiceRoll(1, 1, 1, 1), CSAction::Move(2, Some(2))),
        (CSAction::DiceRoll(1, 1, 6, 6), CSAction::Move(2, Some(12))),
        (CSAction::DiceRoll(6, 6, 6, 6), CSAction::Move(12, Some(12))),
    ] {
        state = roll.execute(&state);
        assert!(state.permitted_actions().contains(&step), "{:?}", step);
        state = step.execute(&state);
        assert_eq!(state.permitted_actions(), vec![CSAction::Roll, CSAction::Done]);
        state = CSAction::Roll.execute(&state);
    }
    // With two columns in the turn only one more can be new: the sums 3 and
    // 3, 2 and 4, 3 and 3 give single steps, each once, the last one last.
    state = CSAction::DiceRoll(1, 2, 1, 2).execute(&state);
    assert_eq!(
        state.permitted_actions(),
        vec![CSAction::Move(4, None), CSAction::Move(3, None)]
    );
    state = CSAction::Move(3, None).execute(&state);
    state = CSAction::Done.execute(&state);
    assert!(!state.terminal());
    assert_eq!(state.reward(), vec![0, 0]);
    // Player 1 loses the turn: column 2 is taken.
    state = CSAction::DiceRoll(1, 1, 1, 1).execute(&state);
    match state.next_actor() {
        Actor::GameAction(_) => {}
        Actor::Player(_) => panic!("column 2 is taken: the turn is lost"),
    }
    // Player 0 goes on up column 3, from the first place to the top.
    for _ in 0..2 {
        state = CSAction::DiceRoll(1, 2, 1, 2).execute(&state);
        assert_eq!(state.permitted_actions()[0], CSAction::Move(3, Some(3)));
        state = CSAction::Move(3, Some(3)).execute(&state);
        state = CSAction::Roll.execute(&state);
    }
    // At the top no further step up the column is offered.
    state = CSAction::DiceRoll(1, 2, 1, 2).execute(&state);
    assert_eq!(state.permitted_actions(), vec![CSAction::Move(4, None)]);
    state = CSAction::Move(4, None).execute(&state);
    state = CSAction::Done.execute(&state);
    assert!(state.terminal());
    assert_eq!(state.reward(), vec![1_000_000, 0]);
    // a game that is over offers no move and no roll
    assert!(state.permitted_actions().is_empty());
    assert!(matches!(state.next_actor(), Actor::Player(_)));
}

#[test]
fn play_outs_end_with_a_winner() {
    let game = CS { player_count: 3 };
    let state = game.init_game();
    let mut tree = Tree::seeded(
        create_expanded_node(state.clone(), None),
        DEFAULT_EXPLORATION_CONSTANT,
        3,
    );
    for _ in 0..20 {
        let reward = tree.play_out(&state);
        assert_eq!(reward.len(), 3);
        assert!(reward.iter().any(|r| *r == 1_000_000));
        assert!(reward.iter().all(|r| *r == 1_000_000 || *r == 0));
    }
}
