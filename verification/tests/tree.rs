use mon2y_rs::mon2y::game::{Action, Actor};
use mon2y_rs::mon2y::node::{create_expanded_node, Node, UcbTerms};
use mon2y_rs::mon2y::tree::{Selection, Tree};
use mon2y_rs::mon2y::{Score, DEFAULT_EXPLORATION_CONSTANT};
use mon2y_rs::test::injectable_game::{InjectableGameAction, InjectableGameState};

fn fixed(reward: f64) -> i64 {
    (reward * 1e6).round() as i64
}

fn score(terms: UcbTerms) -> Score {
    let parent_visits = terms.parent_visits as f64;
    let visits = terms.visits as f64;
    let constant = terms.constant as f64 / 1e6;
    let (q, u) = if terms.game_action {
        (1.0, (parent_visits.ln() / (visits / terms.weight as f64)).sqrt())
    } else {
        (
            terms.value_sum as f64 / 1e6 / visits,
            (parent_visits.ln() / visits).sqrt(),
        )
    };
    // only a child without a visit scores infinity
    (((q + constant * u) * 1e6).round() as Score).min(i64::MAX - 1)
}

fn two_move_state(player_count: u8) -> InjectableGameState {
    InjectableGameState {
        injected_reward: vec![fixed(0.0)],
        injected_terminal: false,
        injected_permitted_actions: vec![
            InjectableGameAction::WinInXTurns(2),
            InjectableGameAction::WinInXTurns(3),
        ],
        player_count,
        next_actor: Actor::Player(0),
    }
}

/// A root with one line of three expanded nodes below it.
fn line_of_three(player_count: u8) -> Tree<InjectableGameState, InjectableGameAction> {
    let root_state = two_move_state(player_count);
    let explored_state = InjectableGameAction::WinInXTurns(2).execute(&root_state);
    let mut root = create_expanded_node(root_state, None);
    let mut explored_node = create_expanded_node(explored_state, None);
    let mut child_node = create_expanded_node(
        InjectableGameAction::WinInXTurns(1).execute(explored_node.state()),
        None,
    );
    let grandchild_state = InjectableGameAction::Win.execute(child_node.state());
    let grandchild_node = create_expanded_node(grandchild_state, None);
    child_node.insert_child(InjectableGameAction::Win, grandchild_node);
    explored_node.insert_child(InjectableGameAction::WinInXTurns(1), child_node);
    root.insert_child(InjectableGameAction::WinInXTurns(2), explored_node);
    Tree::new(root)
}

///
/// Test that selection returns the unexplored path at the next node
///
#[test]
fn test_selection_basic() {
    let root_state = two_move_state(1);
    let explored_state = InjectableGameAction::WinInXTurns(2).execute(&root_state);
    let mut root = create_expanded_node(root_state, None);

    let mut explored_node = create_expanded_node(explored_state, None);
    explored_node.visit(fixed(0.0));

    root.insert_child(InjectableGameAction::WinInXTurns(2), explored_node);
    root.insert_child(
        InjectableGameAction::WinInXTurns(3),
        Node::Placeholder { weight: None },
    );
    root.visit(fixed(0.0));
    let mut tree = Tree::new(root);

    assert_eq!(
        tree.selection(&score),
        Selection::Selection(vec![InjectableGameAction::WinInXTurns(3)])
    );
}

///
/// Test that selection returns the unexplored path at the next node
///
#[test]
fn test_selection_multiple_expanded() {
    let root_state = two_move_state(1);

    let mut explored_state_1 = InjectableGameAction::WinInXTurns(2).execute(&root_state);
    explored_state_1.injected_permitted_actions = vec![InjectableGameAction::WinInXTurns(1)];
    let explored_state_2 = InjectableGameAction::WinInXTurns(3).execute(&root_state);
    let mut root = create_expanded_node(root_state, None);

    let mut explored_node_1 = create_expanded_node(explored_state_1, None);
    explored_node_1.visit(fixed(0.0));
    explored_node_1.insert_child(
        InjectableGameAction::WinInXTurns(1),
        Node::Placeholder { weight: None },
    );

    let mut explored_node_2 = create_expanded_node(explored_state_2, None);
    explored_node_2.visit(fixed(-1.0));
    explored_node_2.visit(fixed(0.0));

    root.insert_child(InjectableGameAction::WinInXTurns(2), explored_node_1);
    root.insert_child(InjectableGameAction::WinInXTurns(3), explored_node_2);
    root.visit(fixed(0.0));
    root.visit(fixed(0.0));
    root.visit(fixed(0.0));
    let mut tree = Tree::new(root);

    assert_eq!(
        tree.selection(&score),
        Selection::Selection(vec![
            InjectableGameAction::WinInXTurns(2),
            InjectableGameAction::WinInXTurns(1)
        ])
    );
}

#[test]
fn test_expansion_basic() {
    let root_state = two_move_state(1);
    let mut explored_state_1 = InjectableGameAction::WinInXTurns(2).execute(&root_state);
    explored_state_1.injected_permitted_actions =
        vec![InjectableGameAction::NextTurnInjectActionCount(5)];

    let explored_state_2 = InjectableGameAction::WinInXTurns(3).execute(&root_state);
    let mut root = create_expanded_node(root_state, None);

    let mut explored_node_1 = create_expanded_node(explored_state_1, None);
    explored_node_1.visit(fixed(0.0));
    explored_node_1.insert_child(
        InjectableGameAction::NextTurnInjectActionCount(5),
        Node::Placeholder { weight: None },
    );

    let mut explored_node_2 = create_expanded_node(explored_state_2, None);
    explored_node_2.visit(fixed(-1.0));
    explored_node_2.visit(fixed(0.0));

    root.insert_child(InjectableGameAction::WinInXTurns(2), explored_node_1);
    root.insert_child(InjectableGameAction::WinInXTurns(3), explored_node_2);

    let selection_path = vec![
        InjectableGameAction::WinInXTurns(2),
        InjectableGameAction::NextTurnInjectActionCount(5),
    ];
    let selection = Selection::Selection(selection_path.clone());

    let mut tree = Tree::new(root);
    tree.expansion(&selection);
    let node = tree.root.get_node_by_path(selection_path);
    if let Node::Expanded { children, .. } = node {
        assert_eq!(children.len(), 5);
    } else {
        panic!("Node is not expanded");
    }
}

#[test]
fn expanding_twice_changes_nothing() {
    let root = create_expanded_node(two_move_state(1), None);
    let selection = Selection::Selection(vec![
        InjectableGameAction::WinInXTurns(2),
        InjectableGameAction::WinInXTurns(1),
    ]);
    let mut tree = Tree::new(root);
    tree.expansion(&selection);
    let once = format!("{:?}", tree.root);
    tree.expansion(&selection);
    assert_eq!(format!("{:?}", tree.root), once);
    tree.expansion(&Selection::FullyExplored);
    assert_eq!(format!("{:?}", tree.root), once);
}

#[test]
fn test_play_out() {
    let root_state = InjectableGameState {
        injected_reward: vec![fixed(0.0)],
        injected_terminal: false,
        injected_permitted_actions: vec![InjectableGameAction::WinInXTurns(3)],
        player_count: 1,
        next_actor: Actor::Player(0),
    };

    let explored_state = InjectableGameAction::WinInXTurns(2).execute(&root_state);
    let root = create_expanded_node(root_state, None);
    let mut tree = Tree::new(root);
    let reward = tree.play_out(&explored_state);

    assert_eq!(reward, vec![fixed(1.0)]);
}

#[test]
fn test_propagate_one_player() {
    let mut tree = line_of_three(1);

    let path = vec![
        InjectableGameAction::WinInXTurns(2),
        InjectableGameAction::WinInXTurns(1),
        InjectableGameAction::Win,
    ];

    let check_path = path.clone();
    const REWARD: f64 = 0.8;
    tree.propagate_reward(path, vec![fixed(REWARD)]);

    for path_i in 1..=check_path.len() {
        let semi_path = check_path[0..path_i].to_vec();
        let node = tree.root.get_node_by_path(semi_path);
        assert_eq!(node.value_sum(), fixed(REWARD) as i128);
        assert_eq!(node.visit_count(), 1);
    }
    // no move leads into the root: it is not visited
    assert_eq!(tree.root.visit_count(), 0);
    assert_eq!(tree.root.value_sum(), 0);
}

#[test]
fn test_propagate_two_players() {
    let mut tree = line_of_three(2);

    let path = vec![
        InjectableGameAction::WinInXTurns(2),
        InjectableGameAction::WinInXTurns(1),
        InjectableGameAction::Win,
    ];

    let check_path = path.clone();
    // Using slightly unusual rewards to just make more certain that it was actually this reward
    const REWARD: f64 = 0.8;
    const LOSS_REWARD: f64 = -0.6;
    tree.propagate_reward(path, vec![fixed(REWARD), fixed(LOSS_REWARD)]);

    for path_i in 1..=check_path.len() {
        let semi_path = check_path[0..path_i].to_vec();
        let player_id = (path_i + 1) % 2;
        let node = tree.root.get_node_by_path(semi_path);
        if player_id == 0 {
            assert_eq!(node.value_sum(), fixed(REWARD) as i128);
            assert_eq!(node.visit_count(), 1);
        } else {
            assert_eq!(node.value_sum(), fixed(LOSS_REWARD) as i128);
            assert_eq!(node.visit_count(), 1);
        }
    }
}

#[test]
fn propagate_credits_nothing_below_a_chance_move() {
    let root_state = InjectableGameState {
        injected_reward: vec![fixed(0.0)],
        injected_terminal: false,
        injected_permitted_actions: vec![],
        player_count: 1,
        next_actor: Actor::GameAction(vec![
            (InjectableGameAction::Lose, 1),
            (InjectableGameAction::Win, 2),
        ]),
    };
    let mut tree = Tree::new(create_expanded_node(root_state, None));
    let path = vec![InjectableGameAction::Win];
    tree.expansion(&Selection::Selection(path.clone()));
    tree.propagate_reward(path.clone(), vec![fixed(1.0)]);
    let node = tree.root.get_node_by_path(path);
    assert_eq!(node.visit_count(), 1);
    assert_eq!(node.value_sum(), 0);
    assert_eq!(node.weight(), 2);
}

#[test]
fn propagate_leaves_the_rest_of_the_tree_alone() {
    let mut tree = line_of_three(2);
    tree.root.visit(fixed(0.5));
    let path = vec![InjectableGameAction::WinInXTurns(2)];
    tree.propagate_reward(path.clone(), vec![fixed(0.8), fixed(-0.6)]);
    // the root keeps what it had
    assert_eq!(tree.root.visit_count(), 1);
    assert_eq!(tree.root.value_sum(), fixed(0.5) as i128);
    let node = tree.root.get_node_by_path(path);
    assert_eq!(node.visit_count(), 1);
    assert_eq!(node.value_sum(), fixed(0.8) as i128);
    // nothing below the end of the path is visited
    let below = tree.root.get_node_by_path(vec![
        InjectableGameAction::WinInXTurns(2),
        InjectableGameAction::WinInXTurns(1),
    ]);
    assert_eq!(below.visit_count(), 0);
    assert_eq!(below.value_sum(), 0);
    // an empty path visits nothing
    tree.propagate_reward(vec![], vec![fixed(0.8), fixed(-0.6)]);
    assert_eq!(tree.root.visit_count(), 1);
}

#[test]
fn test_weighted_game_action_play_out() {
    let root_state = InjectableGameState {
        injected_reward: vec![fixed(0.0)],
        injected_terminal: false,
        injected_permitted_actions: vec![],
        player_count: 1,
        next_actor: Actor::GameAction(vec![
            (InjectableGameAction::Lose, 1),
            (InjectableGameAction::Win, 2),
        ]),
    };

    let root = create_expanded_node(root_state.clone(), None);
    let mut tree = Tree::seeded(root, DEFAULT_EXPLORATION_CONSTANT, 7);

    let mut weight_1_visits = 0;
    let mut weight_2_visits = 0;
    for _ in 0..1000 {
        let reward = tree.play_out(&root_state);
        if reward[0] < 0 {
            weight_1_visits += 1
        } else {
            weight_2_visits += 1
        };
    }

    let tolerance = 0.1;
    let ratio = weight_1_visits as f32 / weight_2_visits as f32;
    assert!(
        (ratio - (1.0 / 2.0)).abs() < tolerance,
        "Ratio was {}, expected {} +/- {}",
        ratio,
        1.0 / 2.0,
        tolerance
    );
}

#[test]
fn iterations_keep_the_visits_adding_up() {
    let root_state = InjectableGameState {
        injected_reward: vec![fixed(0.0)],
        injected_terminal: false,
        injected_permitted_actions: vec![
            InjectableGameAction::NextTurnInjectActionCount(3),
            InjectableGameAction::WinInXTurns(1),
            InjectableGameAction::Lose,
        ],
        player_count: 2,
        next_actor: Actor::Player(0),
    };
    let mut tree = Tree::new(create_expanded_node(root_state, None));
    let mut iterations = 0;
    while tree.iterate(&score) != Selection::FullyExplored {
        iterations += 1;
        // the root is never visited: the iterations show in its children
        assert_eq!(tree.root.visit_count(), 0);
        assert_eq!(tree.root.value_sum(), 0);
        assert_eq!(visits_below(&tree.root), iterations);
        check_visits(&tree.root, true);
        assert!(iterations <= 14);
    }
    // each iteration added one node: the game has fourteen positions below
    // the first
    assert_eq!(iterations, 14);
    assert!(tree.root.fully_explored());
}

#[test]
fn a_tree_without_open_moves_is_fully_explored() {
    let finished = |reward: i64| InjectableGameState {
        injected_reward: vec![reward],
        injected_terminal: true,
        injected_permitted_actions: vec![],
        player_count: 1,
        next_actor: Actor::Player(0),
    };
    let root_state = InjectableGameState {
        injected_reward: vec![fixed(0.0)],
        injected_terminal: false,
        injected_permitted_actions: vec![InjectableGameAction::Win, InjectableGameAction::Lose],
        player_count: 1,
        next_actor: Actor::Player(0),
    };
    let mut root = create_expanded_node(root_state, None);
    root.insert_child(
        InjectableGameAction::Win,
        create_expanded_node(finished(fixed(1.0)), None),
    );
    let mut tree = Tree::new(root);
    assert_eq!(
        tree.selection(&score),
        Selection::Selection(vec![InjectableGameAction::Lose])
    );
    tree.root.insert_child(
        InjectableGameAction::Lose,
        create_expanded_node(finished(fixed(-1.0)), None),
    );
    assert_eq!(tree.selection(&score), Selection::FullyExplored);
    assert_eq!(tree.iterate(&score), Selection::FullyExplored);
    assert!(tree.root.fully_explored());
    assert_eq!(tree.root.visit_count(), 0);
}

fn visits_below(node: &Node<InjectableGameState, InjectableGameAction>) -> u32 {
    match node {
        Node::Expanded { children, .. } => children.iter().map(|(_, child)| child.visit_count()).sum(),
        Node::Placeholder { .. } => 0,
    }
}

fn check_visits(node: &Node<InjectableGameState, InjectableGameAction>, root: bool) {
    if let Node::Expanded { children, visit_count, .. } = node {
        if !root {
            assert_eq!(*visit_count, visits_below(node) + 1);
        }
        for (_, child) in children.iter() {
            assert!(root || child.visit_count() <= *visit_count);
            check_visits(child, false);
        }
    }
}

#[test]
fn iterations_of_two_searchers_can_be_interleaved() {
    let root_state = InjectableGameState {
        injected_reward: vec![fixed(0.0)],
        injected_terminal: false,
        injected_permitted_actions: vec![
            InjectableGameAction::WinInXTurns(1),
            InjectableGameAction::Lose,
        ],
        player_count: 1,
        next_actor: Actor::Player(0),
    };
    let mut tree = Tree::new(create_expanded_node(root_state, None));
    // both select before either counts its visits: the second finds the
    // node of the first without a visit and goes on below it
    let first = tree.begin_iteration(&score).unwrap();
    let second = tree.begin_iteration(&score).unwrap();
    assert_eq!(first, vec![InjectableGameAction::WinInXTurns(1)]);
    assert_eq!(
        second,
        vec![
            InjectableGameAction::WinInXTurns(1),
            InjectableGameAction::WinInXTurns(0)
        ]
    );
    assert_eq!(tree.root.visit_count(), 0);
    let state = tree.leaf_state(&first).clone();
    assert_eq!(
        state.injected_permitted_actions,
        vec![InjectableGameAction::WinInXTurns(0)]
    );
    assert!(tree.finish_iteration(&first, &vec![fixed(1.0)]));
    assert!(tree.finish_iteration(&second, &vec![fixed(-1.0)]));
    assert_eq!(tree.root.visit_count(), 0);
    let child = tree.root.get_node_by_path(first);
    assert_eq!(child.visit_count(), 2);
    assert_eq!(child.value_sum(), 0);
    let grandchild = tree.root.get_node_by_path(second);
    assert_eq!(grandchild.visit_count(), 1);
    assert_eq!(grandchild.value_sum(), fixed(-1.0) as i128);
    // the next searcher goes elsewhere
    let third = tree.begin_iteration(&score).unwrap();
    assert_eq!(third, vec![InjectableGameAction::Lose]);
    assert!(tree.finish_iteration(&third, &vec![fixed(-1.0)]));
    assert_eq!(visits_below(&tree.root), 3);
    check_order(&tree.root, true);
}

fn check_order(node: &Node<InjectableGameState, InjectableGameAction>, root: bool) {
    if let Node::Expanded { children, visit_count, .. } = node {
        for (_, child) in children.iter() {
            assert!(root || child.visit_count() <= *visit_count);
            check_order(child, false);
        }
    }
}
