use mon2y_rs::mon2y::game::{Actor, State};
use mon2y_rs::mon2y::node::{best_pick, create_expanded_node, Node, UcbTerms};
use mon2y_rs::mon2y::{Score, DEFAULT_EXPLORATION_CONSTANT, SCORE_INFINITY};
use mon2y_rs::test::injectable_game::{InjectableGameAction, InjectableGameState};

/// The score of a visited child: `q + k * u`, where under a player `q` is the
/// mean value and `u = sqrt(ln N / n)`, and under a chance move `q = 1` and
/// `u = sqrt(ln N / (n / w))`.
fn ucb(terms: UcbTerms) -> Score {
    let parent_visits = terms.parent_visits as f64;
    let visits = terms.visits as f64;
    let constant = terms.constant as f64 / 1e6;
    let (q, u) = if terms.game_action {
        (1.0, (parent_visits.ln() / (visits / terms.weight as f64)).sqrt())
    } else {
        (
            terms.value_sum as f64 / 1e6 / visits,
            (parent_visits.ln() / visits).sqrt(),
        )
    };
    // only a child without a visit scores infinity
    (((q + constant * u) * 1e6).round() as Score).min(i64::MAX - 1)
}

fn chance_state(outcomes: Vec<(InjectableGameAction, u32)>) -> InjectableGameState {
    InjectableGameState {
        injected_reward: vec![0],
        injected_terminal: false,
        injected_permitted_actions: vec![],
        player_count: 1,
        next_actor: Actor::GameAction(outcomes),
    }
}

fn player_state(actions: Vec<InjectableGameAction>) -> InjectableGameState {
    InjectableGameState {
        injected_reward: vec![0],
        injected_terminal: false,
        injected_permitted_actions: actions,
        player_count: 1,
        next_actor: Actor::Player(0),
    }
}

/// A chance node with an outcome of weight 1 and one of weight 2, both
/// expanded, each with two placeholders below.
fn weighted_root() -> Node<InjectableGameState, InjectableGameAction> {
    let mut root_node = create_expanded_node(
        chance_state(vec![
            (InjectableGameAction::WinInXTurns(1), 1),
            (InjectableGameAction::WinInXTurns(2), 2),
        ]),
        None,
    );
    let mut win_in_x_turns_1 = create_expanded_node(
        player_state(vec![
            InjectableGameAction::WinInXTurns(3),
            InjectableGameAction::WinInXTurns(4),
        ]),
        Some(1),
    );
    let mut win_in_x_turns_2 = create_expanded_node(
        player_state(vec![
            InjectableGameAction::WinInXTurns(5),
            InjectableGameAction::WinInXTurns(6),
        ]),
        Some(2),
    );
    win_in_x_turns_1.insert_child(
        InjectableGameAction::WinInXTurns(3),
        Node::Placeholder { weight: Some(3) },
    );
    win_in_x_turns_1.insert_child(
        InjectableGameAction::WinInXTurns(4),
        Node::Placeholder { weight: Some(4) },
    );
    win_in_x_turns_2.insert_child(
        InjectableGameAction::WinInXTurns(5),
        Node::Placeholder { weight: Some(5) },
    );
    win_in_x_turns_2.insert_child(
        InjectableGameAction::WinInXTurns(6),
        Node::Placeholder { weight: Some(6) },
    );
    root_node.insert_child(InjectableGameAction::WinInXTurns(1), win_in_x_turns_1);
    root_node.insert_child(InjectableGameAction::WinInXTurns(2), win_in_x_turns_2);
    root_node
}

fn visit_child(
    root: &mut Node<InjectableGameState, InjectableGameAction>,
    action: InjectableGameAction,
) {
    if let Node::Expanded { children, .. } = root {
        for (slot, child) in children.iter_mut() {
            if *slot == action {
                child.visit(0);
            }
        }
    }
}

#[test]
fn test_create_expanded_node() {
    let state = InjectableGameState {
        injected_reward: vec![0],
        injected_terminal: false,
        injected_permitted_actions: vec![InjectableGameAction::Win],
        player_count: 1,
        next_actor: Actor::Player(0),
    };
    let node = create_expanded_node(state, None);
    assert_eq!(node.visit_count(), 0);
    assert_eq!(node.value_sum(), 0);
}

#[test]
fn test_best_pick_weighted_visits() {
    let mut root_node = weighted_root();
    root_node.visit(0);

    visit_child(&mut root_node, InjectableGameAction::WinInXTurns(2));
    // Weight 2 visited, weight 1 not, check that weight 1 is next
    {
        let best_pick = best_pick(&mut root_node, DEFAULT_EXPLORATION_CONSTANT, &ucb);
        assert_eq!(
            best_pick.first().unwrap().0,
            InjectableGameAction::WinInXTurns(1)
        );
        assert_eq!(best_pick.first().unwrap().1, SCORE_INFINITY);
    }

    visit_child(&mut root_node, InjectableGameAction::WinInXTurns(1));

    // Both visited once under a parent that counts one visit: the logarithm
    // of one is nothing, so the two score the same and keep their order.
    let best_pick = best_pick(&mut root_node, DEFAULT_EXPLORATION_CONSTANT, &ucb);
    assert_eq!(best_pick.len(), 2);
    assert_eq!(best_pick[0].1, best_pick[1].1);
    assert_eq!(best_pick[0].0, InjectableGameAction::WinInXTurns(1));
}

#[test]
fn best_pick_prefers_the_heavier_outcome() {
    let mut root_node = weighted_root();
    root_node.visit(0);
    root_node.visit(0);
    visit_child(&mut root_node, InjectableGameAction::WinInXTurns(2));
    visit_child(&mut root_node, InjectableGameAction::WinInXTurns(1));

    let best_pick = best_pick(&mut root_node, DEFAULT_EXPLORATION_CONSTANT, &ucb);
    assert_eq!(
        best_pick.first().unwrap().0,
        InjectableGameAction::WinInXTurns(2)
    );
    // 1 + 1.414214 * sqrt(ln 2 / (1 / 2)) and 1 + 1.414214 * sqrt(ln 2 / 1)
    assert_eq!(best_pick[0].1, 2_665_110);
    assert_eq!(best_pick[1].1, 2_177_410);
}

#[test]
fn best_pick_leaves_out_fully_explored_children() {
    let mut root = create_expanded_node(
        player_state(vec![InjectableGameAction::Win, InjectableGameAction::Lose]),
        None,
    );
    let won = create_expanded_node(
        InjectableGameState {
            injected_reward: vec![1_000_000],
            injected_terminal: true,
            injected_permitted_actions: vec![],
            player_count: 1,
            next_actor: Actor::Player(0),
        },
        None,
    );
    root.insert_child(InjectableGameAction::Win, won);
    let picks = best_pick(&mut root, DEFAULT_EXPLORATION_CONSTANT, &ucb);
    assert_eq!(picks, vec![(InjectableGameAction::Lose, SCORE_INFINITY)]);
    assert!(!root.fully_explored());
}

#[test]
fn best_pick_of_a_placeholder_is_empty() {
    let mut node: Node<InjectableGameState, InjectableGameAction> =
        Node::Placeholder { weight: None };
    assert!(best_pick(&mut node, DEFAULT_EXPLORATION_CONSTANT, &ucb).is_empty());
    assert!(!node.fully_explored());
    assert_eq!(node.weight(), 1);
}

#[test]
fn remembered_score_is_returned_for_the_same_statistics_only() {
    let mut node = create_expanded_node(player_state(vec![InjectableGameAction::Win]), Some(7));
    assert_eq!(node.cached_ucb(0, 0, 1), None);
    node.cache_ucb(42, 5, 2, 3);
    assert_eq!(node.cached_ucb(5, 2, 3), Some(42));
    assert_eq!(node.cached_ucb(6, 2, 3), None);
    assert_eq!(node.cached_ucb(5, 1, 3), None);
    assert_eq!(node.cached_ucb(5, 2, 4), None);
    assert_eq!(node.weight(), 7);
    assert!(!node.game_action());
}

#[test]
fn node_without_open_moves_is_fully_explored() {
    let mut node = create_expanded_node(
        InjectableGameState {
            injected_reward: vec![1_000_000],
            injected_terminal: true,
            injected_permitted_actions: vec![],
            player_count: 1,
            next_actor: Actor::Player(0),
        },
        None,
    );
    if let Node::Expanded { children, .. } = &node {
        assert!(children.is_empty());
    } else {
        panic!("Node is not expanded");
    }
    assert!(node.fully_explored());
    let mut open = create_expanded_node(player_state(vec![InjectableGameAction::Win]), None);
    assert!(!open.fully_explored());
    open.insert_child(InjectableGameAction::Win, node);
    assert!(open.fully_explored());
    open.insert_child(InjectableGameAction::Lose, Node::Placeholder { weight: None });
    assert!(!open.fully_explored());
}

#[test]
fn chance_node_has_one_child_per_outcome_with_its_weight() {
    let node = create_expanded_node(
        chance_state(vec![
            (InjectableGameAction::Lose, 1),
            (InjectableGameAction::Win, 2),
        ]),
        None,
    );
    assert!(node.game_action());
    assert_eq!(node.get_child(InjectableGameAction::Lose).weight(), 1);
    assert_eq!(node.get_child(InjectableGameAction::Win).weight(), 2);
    if let Node::Expanded { children, .. } = &node {
        assert_eq!(children.len(), 2);
        assert_eq!(children[0].0, InjectableGameAction::Lose);
        assert_eq!(children[1].0, InjectableGameAction::Win);
    } else {
        panic!("Node is not expanded");
    }
}

#[test]
fn visit_counts_and_adds() {
    let mut node = create_expanded_node(player_state(vec![InjectableGameAction::Win]), None);
    node.visit(800_000);
    node.visit(-600_000);
    assert_eq!(node.visit_count(), 2);
    assert_eq!(node.value_sum(), 200_000);
    let mut placeholder: Node<InjectableGameState, InjectableGameAction> =
        Node::Placeholder { weight: Some(2) };
    placeholder.visit(800_000);
    assert_eq!(placeholder.visit_count(), 0);
    assert_eq!(placeholder.value_sum(), 0);
    assert_eq!(placeholder.weight(), 2);
}

#[test]
fn children_are_found_by_their_moves() {
    let mut root = create_expanded_node(
        player_state(vec![
            InjectableGameAction::WinInXTurns(1),
            InjectableGameAction::Lose,
        ]),
        None,
    );
    let mut child = create_expanded_node(player_state(vec![InjectableGameAction::Win]), None);
    child.visit(500_000);
    root.insert_child(InjectableGameAction::WinInXTurns(1), child);
    // the child took the slot of the placeholder
    if let Node::Expanded { children, .. } = &root {
        assert_eq!(children.len(), 2);
        assert_eq!(children[0].0, InjectableGameAction::WinInXTurns(1));
    } else {
        panic!("Node is not expanded");
    }
    assert_eq!(root.get_child(InjectableGameAction::WinInXTurns(1)).visit_count(), 1);
    assert_eq!(root.get_child(InjectableGameAction::Lose).visit_count(), 0);
    // a move without a slot gets a new last slot
    root.insert_child(InjectableGameAction::Nothing, Node::Placeholder { weight: Some(9) });
    if let Node::Expanded { children, .. } = &root {
        assert_eq!(children.len(), 3);
        assert_eq!(children[2].0, InjectableGameAction::Nothing);
    } else {
        panic!("Node is not expanded");
    }
    assert_eq!(root.get_child(InjectableGameAction::Nothing).weight(), 9);
    let below = root.get_node_by_path(vec![
        InjectableGameAction::WinInXTurns(1),
        InjectableGameAction::Win,
    ]);
    assert!(matches!(below, Node::Placeholder { weight: None }));
    assert_eq!(root.descendant(&vec![]).visit_count(), 0);
    assert_eq!(root.state().player_count, 1);
}

#[test]
fn a_player_node_has_one_child_per_move() {
    let actions = vec![
        InjectableGameAction::Lose,
        InjectableGameAction::WinInXTurns(4),
        InjectableGameAction::NextTurnInjectActionCount(2),
    ];
    let node = create_expanded_node(player_state(actions.clone()), Some(3));
    assert!(!node.game_action());
    assert_eq!(node.weight(), 3);
    if let Node::Expanded { children, state, .. } = &node {
        let slots: Vec<InjectableGameAction> = children.iter().map(|(action, _)| *action).collect();
        assert_eq!(slots, actions);
        assert_eq!(slots, state.injected_permitted_actions);
        for (_, child) in children {
            assert!(matches!(child, Node::Placeholder { weight: None }));
        }
    } else {
        panic!("Node is not expanded");
    }
}

#[test]
fn a_child_without_a_visit_comes_before_any_score() {
    let high = |_: UcbTerms| -> Score { SCORE_INFINITY - 1 };
    let mut root = create_expanded_node(
        player_state(vec![
            InjectableGameAction::WinInXTurns(1),
            InjectableGameAction::WinInXTurns(2),
            InjectableGameAction::WinInXTurns(3),
        ]),
        None,
    );
    let mut visited = create_expanded_node(player_state(vec![InjectableGameAction::Win]), None);
    visited.visit(1_000_000);
    root.insert_child(InjectableGameAction::WinInXTurns(1), visited);
    let unvisited = create_expanded_node(player_state(vec![InjectableGameAction::Win]), None);
    root.insert_child(InjectableGameAction::WinInXTurns(3), unvisited);
    let picks = best_pick(&mut root, DEFAULT_EXPLORATION_CONSTANT, &high);
    assert_eq!(
        picks,
        vec![
            (InjectableGameAction::WinInXTurns(2), SCORE_INFINITY),
            (InjectableGameAction::WinInXTurns(3), SCORE_INFINITY),
            (InjectableGameAction::WinInXTurns(1), SCORE_INFINITY - 1),
        ]
    );
    // the scores are remembered, and come back the same
    let again = best_pick(&mut root, DEFAULT_EXPLORATION_CONSTANT, &high);
    assert_eq!(again, picks);
}

#[test]
fn a_finished_game_offers_no_move() {
    let over = InjectableGameState {
        injected_reward: vec![1_000_000],
        injected_terminal: true,
        injected_permitted_actions: vec![InjectableGameAction::Win],
        player_count: 2,
        next_actor: Actor::GameAction(vec![(InjectableGameAction::Win, 1)]),
    };
    assert!(over.permitted_actions().is_empty());
    match over.next_actor() {
        Actor::GameAction(outcomes) => assert!(outcomes.is_empty()),
        Actor::Player(_) => panic!("chance moves here"),
    }
    // one reward per player: nothing for a player whom the script leaves out
    assert_eq!(over.reward(), vec![1_000_000, 0]);
    let mut node = create_expanded_node(over, None);
    assert!(node.fully_explored());
    assert!(node.game_action());
}
