//! Tests of the arena, the tree builder and estimator, the RNG and the
//! solver, mostly over Kuhn poker.

use game_tree::allocator::{
    allocate_action_nodes, allocate_chance_nodes, allocate_root_node, allocate_tree, NodeArena,
};
use game_tree::cfr::{Cfr, CfrParameter};
use game_tree::estimator::TreeEstimator;
use game_tree::kuhn::{KuhnAction, KuhnGame, KuhnStage, KuhnState, NoChance};
use game_tree::node::{node_layout, NodeLayout, NodePtr, NodePtrIterator, NodeSlot, SlotLayout};
use game_tree::rng::{JKiss32Rng, JKiss32RngSeed};
use game_tree::game::{Game, ParameterMapping};
use game_tree::kuhn::KuhnParameterMapping;

fn kuhn_layout() -> NodeLayout {
    // One-byte actions, empty chance payloads, and two 32-bit words per
    // solver parameter: the dense format of the pointer-based layout.
    node_layout(
        SlotLayout { size: 1, align: 1 },
        SlotLayout { size: 0, align: 1 },
        SlotLayout { size: 8, align: 4 },
    )
}

fn kuhn_state(cards: &[u8]) -> KuhnState {
    let v: Vec<u8> = cards.to_vec();
    KuhnState::from_cards(&v)
}

fn showdown(cards: &[u8], bet: bool, called: &[bool]) -> KuhnState {
    let mut s = kuhn_state(cards);
    let mut mask: u32 = 0;
    for (i, &c) in called.iter().enumerate() {
        if c {
            mask |= 1 << i;
        }
    }
    s.bet = bet;
    s.called = mask;
    s.stage = KuhnStage::Showdown;
    s
}

#[test]
fn test_rng() {
    let mut rng = JKiss32Rng::from_seed(JKiss32RngSeed::zeroed());

    let values: [u32; 5] = [
        rng.next_u32(),
        rng.next_u32(),
        rng.next_u32(),
        rng.next_u32(),
        rng.next_u32(),
    ];

    assert_eq!(
        values,
        [1411392427, 2822784854, 4234177281, 1350602412, 2761994839]
    );
}

#[test]
fn test_allocate() {
    // Three one-byte-parameter action nodes with six-byte actions, then a
    // group of chance nodes, in a 200-byte arena.
    let layout = node_layout(
        SlotLayout { size: 6, align: 1 },
        SlotLayout { size: 6, align: 1 },
        SlotLayout { size: 1, align: 1 },
    );
    let mut arena: NodeArena<[u8; 6], [u8; 6], CfrParameter> = NodeArena::new(layout, 200);

    let events: Vec<[u8; 6]> = vec![[1; 6], [2; 6], [3; 6]];
    let first = allocate_action_nodes(&events, 4, &mut arena).unwrap();

    // The first node sits at the buffer base plus its alignment offset.
    assert_eq!(arena.offset_of(first), 0);
    assert_eq!(arena.offset_of(NodePtr(first.0 + 1)), 32);
    assert_eq!(arena.offset_of(NodePtr(first.0 + 2)), 64);

    // Sibling links run forward through the group and terminate.
    for j in 0..3 {
        match arena.slot(NodePtr(first.0 + j)) {
            NodeSlot::Action(a) => {
                assert_eq!(a.action, events[j], "incorrect action");
                assert_eq!(a.parameters, j * 4, "parameters are incorrect");
                assert_eq!(a.parameter_count, 4);
                if j + 1 < 3 {
                    assert_eq!(a.next_sibling, Some(NodePtr(first.0 + j + 1)));
                } else {
                    assert_eq!(a.next_sibling, None);
                }
            }
            _ => panic!("expected an action node"),
        }
    }

    // Twelve parameter slots, zero-initialized.
    assert_eq!(arena.parameter_count(), 12);
    for i in 0..12 {
        let p = arena.param(i);
        assert_eq!(p.cumulative_regret.read(), 0);
        assert_eq!(p.cumulative_strategy.read(), 0);
    }

    // Nodes: 3 * 32 bytes; parameters 12 bytes; chance nodes align to 8.
    assert_eq!(arena.len(), 108);
    let chances: Vec<[u8; 6]> = vec![[1; 6], [2; 6], [3; 6]];
    let chance_first = allocate_chance_nodes(&chances, &mut arena).unwrap();
    assert_eq!(arena.offset_of(chance_first), 112);
}

#[test]
fn test_iterator() {
    let layout = node_layout(
        SlotLayout { size: 6, align: 1 },
        SlotLayout { size: 6, align: 1 },
        SlotLayout { size: 1, align: 1 },
    );
    let mut arena: NodeArena<[u8; 6], [u8; 6], CfrParameter> = NodeArena::new(layout, 300);

    let events: Vec<[u8; 6]> = vec![[1; 6], [2; 6], [3; 6], [4; 6], [5; 6]];
    let first = allocate_action_nodes(&events, 4, &mut arena).unwrap();

    let mut iter = NodePtrIterator::new(Some(first));
    let mut yielded: Vec<NodePtr> = Vec::new();
    while let Some(p) = iter.next(&arena) {
        yielded.push(p);
    }

    assert_eq!(yielded.len(), events.len(), "incorrect number of values returned");
    for (j, p) in yielded.iter().enumerate() {
        assert_eq!(p.0, first.0 + j, "incorrect sibling");
    }
}

#[test]
fn test_kuhn_utilities() {
    const COMBOS: [[u8; 2]; 6] = [[0, 1], [0, 2], [1, 0], [1, 2], [2, 0], [2, 1]];
    let game = KuhnGame { players: 2 };

    // check-check

    let utilities = [
        [-1.0, 1.0],
        [-1.0, 1.0],
        [1.0, -1.0],
        [-1.0, 1.0],
        [1.0, -1.0],
        [1.0, -1.0],
    ];

    for (combo, expected) in COMBOS.iter().zip(utilities.iter()) {
        let state = showdown(combo, false, &[false, false]);
        let mut result: Vec<i64> = vec![0; 2];
        game.get_terminal_utilities(&state, &mut result);
        let got = [result[0] as f32, result[1] as f32];
        assert_eq!(*expected, got, "incorrect check-check utilities");
    }

    // check-bet-fold

    let utilities = [[-1.0, 1.0]; 6];

    for (combo, expected) in COMBOS.iter().zip(utilities.iter()) {
        let state = showdown(combo, true, &[false, true]);
        let mut result: Vec<i64> = vec![0; 2];
        game.get_terminal_utilities(&state, &mut result);
        let got = [result[0] as f32, result[1] as f32];
        assert_eq!(*expected, got, "incorrect check-bet-fold utilities");
    }

    // bet-fold

    let utilities = [[1.0, -1.0]; 6];

    for (combo, expected) in COMBOS.iter().zip(utilities.iter()) {
        let state = showdown(combo, true, &[true, false]);
        let mut result: Vec<i64> = vec![0; 2];
        game.get_terminal_utilities(&state, &mut result);
        let got = [result[0] as f32, result[1] as f32];
        assert_eq!(*expected, got, "incorrect bet-fold utilities");
    }

    // bet-call and check-bet-call

    let utilities = [
        [-2.0, 2.0],
        [-2.0, 2.0],
        [2.0, -2.0],
        [-2.0, 2.0],
        [2.0, -2.0],
        [2.0, -2.0],
    ];

    for (combo, expected) in COMBOS.iter().zip(utilities.iter()) {
        let state = showdown(combo, true, &[true, true]);
        let mut result: Vec<i64> = vec![0; 2];
        game.get_terminal_utilities(&state, &mut result);
        let got = [result[0] as f32, result[1] as f32];
        assert_eq!(*expected, got, "incorrect bet-call utilities");
    }
}

#[test]
fn test_kuhn_zero_sum() {
    // Payoffs cancel at every showdown shape.
    let game = KuhnGame { players: 3 };
    let shapes: [(bool, [bool; 3]); 4] = [
        (false, [false, false, false]),
        (true, [true, false, false]),
        (true, [true, true, false]),
        (true, [true, true, true]),
    ];
    for (bet, called) in shapes.iter() {
        let state = showdown(&[0, 1, 2], *bet, called);
        let mut result: Vec<i64> = vec![0; 3];
        game.get_terminal_utilities(&state, &mut result);
        assert_eq!(result.iter().sum::<i64>(), 0);
    }
}

#[test]
fn test_tree_estimate() {
    let root_state = kuhn_state(&[0, 0, 0]);
    let game = KuhnGame { players: 3 };

    let estimator = TreeEstimator::from_root(&game, &root_state, kuhn_layout(), 16);

    assert_eq!(estimator.action_nodes(), 24);
    assert_eq!(estimator.chance_nodes(), 0);
    assert_eq!(estimator.parameters(), 96);
    assert_eq!(estimator.memory_bounds(), (1552, 1559));
}

#[test]
fn test_tree_allocation_size() {
    let root_state = kuhn_state(&[0, 0]);
    let game = KuhnGame { players: 2 };

    let estimator = TreeEstimator::from_root(&game, &root_state, kuhn_layout(), 16);
    let memory_bounds = estimator.memory_bounds();

    let mut arena: NodeArena<KuhnAction, NoChance, CfrParameter> =
        NodeArena::new(kuhn_layout(), 10000);
    let _root = allocate_tree(&game, &root_state, &mut arena, 16).expect("could not allocate tree");
    let size = arena.len();

    assert!(size >= memory_bounds.0, "tree is smaller than expected");
    assert!(size <= memory_bounds.1, "tree is larger than expected");
}

#[test]
fn test_tree_rebuild_matches() {
    // Building the same tree twice gives identical accounts and layouts.
    let root_state = kuhn_state(&[0, 1, 2]);
    let game = KuhnGame { players: 3 };

    let mut first: NodeArena<KuhnAction, NoChance, CfrParameter> =
        NodeArena::new(kuhn_layout(), 10000);
    let mut second: NodeArena<KuhnAction, NoChance, CfrParameter> =
        NodeArena::new(kuhn_layout(), 10000);
    let a = allocate_tree(&game, &root_state, &mut first, 16).unwrap();
    let b = allocate_tree(&game, &root_state, &mut second, 16).unwrap();

    assert_eq!(a, b);
    assert_eq!(first.len(), second.len());
    assert_eq!(first.node_count(), second.node_count());
    assert_eq!(first.parameter_count(), second.parameter_count());
}

#[test]
fn test_sibling_order_matches_events() {
    // The root's children realize populate_events in order: bet first,
    // check second.
    let root_state = kuhn_state(&[0, 1]);
    let game = KuhnGame { players: 2 };
    let mut arena: NodeArena<KuhnAction, NoChance, CfrParameter> =
        NodeArena::new(kuhn_layout(), 10000);
    let root = allocate_tree(&game, &root_state, &mut arena, 16).unwrap();

    let mut children = arena.children(root);
    let first = children.next(&arena).unwrap();
    let second = children.next(&arena).unwrap();
    assert!(children.next(&arena).is_none());

    match arena.slot(first) {
        NodeSlot::Action(a) => {
            assert_eq!(a.action, KuhnAction::Bet);
            assert_eq!(a.parameters, 0);
            assert_eq!(a.parameter_count, 3);
        }
        _ => panic!("expected an action node"),
    }
    match arena.slot(second) {
        NodeSlot::Action(a) => {
            assert_eq!(a.action, KuhnAction::Check);
            assert_eq!(a.parameters, 3);
        }
        _ => panic!("expected an action node"),
    }
}

#[test]
fn test_allocation_failure() {
    // A tree that cannot fit reports out of memory and keeps the arena
    // usable.
    let root_state = kuhn_state(&[0, 1]);
    let game = KuhnGame { players: 2 };
    let mut arena: NodeArena<KuhnAction, NoChance, CfrParameter> =
        NodeArena::new(kuhn_layout(), 50);
    let result = allocate_tree(&game, &root_state, &mut arena, 16);
    assert!(result.is_err());
}

#[test]
fn test_zero_iterations_uniform() {
    // With no iterations every parameter is zero and the reported
    // strategy is exactly uniform.
    let root_state = kuhn_state(&[0, 1]);
    let game = KuhnGame { players: 2 };
    let mut arena: NodeArena<KuhnAction, NoChance, CfrParameter> =
        NodeArena::new(kuhn_layout(), 10000);
    let root = allocate_tree(&game, &root_state, &mut arena, 16).unwrap();

    for i in 0..arena.parameter_count() {
        let p = arena.param(i);
        assert_eq!(p.cumulative_regret.read(), 0);
        assert_eq!(p.cumulative_strategy.read(), 0);
    }

    let solver = Cfr;
    let mut strategy: Vec<u64> = vec![0; 2];
    solver.get_strategy(&game, &arena, root, &root_state, Some(0), &mut strategy);
    assert_eq!(strategy, vec![32768, 32768]);
}

#[test]
fn test_strategy_sums_monotone() {
    // One iteration only ever grows cumulative strategies.
    let root_state = kuhn_state(&[0, 1, 2]);
    let game = KuhnGame { players: 3 };
    let mut arena: NodeArena<KuhnAction, NoChance, CfrParameter> =
        NodeArena::new(kuhn_layout(), 10000);
    let root = allocate_tree(&game, &root_state, &mut arena, 16).unwrap();

    let solver = Cfr;
    solver.iterate(&game, &mut arena, root, &root_state, 0);
    let before: Vec<i64> = (0..arena.parameter_count())
        .map(|i| arena.param(i).cumulative_strategy.read())
        .collect();
    solver.iterate(&game, &mut arena, root, &kuhn_state(&[2, 0, 1]), 1);
    for i in 0..arena.parameter_count() {
        assert!(arena.param(i).cumulative_strategy.read() >= before[i]);
    }
}

#[test]
fn test_kuhn_solve() {
    let root_state = kuhn_state(&[0, 1, 2]);
    let game = KuhnGame { players: 3 };

    let estimator = TreeEstimator::from_root(&game, &root_state, kuhn_layout(), 16);
    let mut arena: NodeArena<KuhnAction, NoChance, CfrParameter> =
        NodeArena::new(kuhn_layout(), estimator.memory_bounds().1);

    let root = allocate_tree(&game, &root_state, &mut arena, 16).expect("could not allocate tree");

    let solver = Cfr;
    let mut rng = JKiss32Rng::from_seed(JKiss32RngSeed::zeroed());

    for i in 0..100000 {
        // Deal three distinct cards out of four.
        let mut cards: [u8; 3] = [0; 3];
        loop {
            for c in cards.iter_mut() {
                *c = (rng.next_u32() % 4) as u8;
            }
            if cards[0] != cards[1] && cards[0] != cards[2] && cards[1] != cards[2] {
                break;
            }
        }
        let state = kuhn_state(&cards);
        solver.iterate(&game, &mut arena, root, &state, i);
    }

    // The reported strategy at the root is a well-defined distribution
    // for every information partition.
    for idx in 0..4 {
        let mut strategy: Vec<u64> = vec![0; 2];
        solver.get_strategy(&game, &arena, root, &root_state, Some(idx), &mut strategy);
        let sum: u64 = strategy.iter().sum();
        assert!(sum <= 65536);
        assert!(sum >= 65534);
    }
}

#[test]
fn test_estimator_brackets_build() {
    // The built tree's byte count equals the estimator's minimum bound.
    let root_state = kuhn_state(&[0, 1, 2]);
    let game = KuhnGame { players: 3 };
    let estimator = TreeEstimator::from_root(&game, &root_state, kuhn_layout(), 16);
    let (min, max) = estimator.memory_bounds();

    let mut arena: NodeArena<KuhnAction, NoChance, CfrParameter> =
        NodeArena::new(kuhn_layout(), max);
    allocate_tree(&game, &root_state, &mut arena, 16).unwrap();
    assert_eq!(arena.len(), min);
    assert!(arena.len() <= max);
}

#[test]
fn test_kuhn_parameter_index() {
    // The information partition of an action state is the acting player's
    // card.
    let state = kuhn_state(&[2, 0, 3]);
    assert_eq!(KuhnParameterMapping::get_parameter_index(&state), 2);
    let mut advanced = state;
    let game = KuhnGame { players: 3 };
    game.advance_state(
        &mut advanced,
        game_tree::game::Event::Action(KuhnAction::Check),
    );
    assert_eq!(KuhnParameterMapping::get_parameter_index(&advanced), 0);
}


#[test]
fn test_add_child_prepend() {
    // Prepending onto an existing child list: the old first child becomes
    // the new child's sibling, and the parent publishes the new child.
    let layout = node_layout(
        SlotLayout { size: 6, align: 1 },
        SlotLayout { size: 6, align: 1 },
        SlotLayout { size: 1, align: 1 },
    );
    let mut arena: NodeArena<[u8; 6], [u8; 6], CfrParameter> = NodeArena::new(layout, 300);
    let root = allocate_root_node::<[u8; 6], [u8; 6], CfrParameter>(&mut arena).unwrap();
    let first_group: Vec<[u8; 6]> = vec![[1; 6]];
    let second_group: Vec<[u8; 6]> = vec![[2; 6]];
    let c0 = allocate_chance_nodes(&first_group, &mut arena).unwrap();
    let c1 = allocate_chance_nodes(&second_group, &mut arena).unwrap();

    arena.add_child(root, c1);
    arena.add_child(root, c0);

    let mut it = arena.children(root);
    assert_eq!(it.next(&arena), Some(c0));
    assert_eq!(it.next(&arena), Some(c1));
    assert!(it.next(&arena).is_none());
}

#[test]
fn test_root_node_links_tree() {
    let mut arena: NodeArena<KuhnAction, NoChance, CfrParameter> =
        NodeArena::new(kuhn_layout(), 10000);
    let root = allocate_root_node::<KuhnAction, NoChance, CfrParameter>(&mut arena).unwrap();
    assert_eq!(root.0, 0);
    match arena.slot(root) {
        NodeSlot::Root(r) => assert!(r.first_child.read().is_none()),
        _ => panic!("expected the root node"),
    }
}
