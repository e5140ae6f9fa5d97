use hashlife::cell::{Leaf, Node};
use hashlife::cell_manager::CellManager;

fn alive_cells(cm: &CellManager, side: u32) -> Vec<(u32, u32)> {
    let mut out = Vec::new();
    for x in 0..side {
        for y in 0..side {
            if cm.state_at(x, y) == Leaf::Alive {
                out.push((x, y));
            }
        }
    }
    out
}

#[test]
fn test_toggle() {
    let mut cm = CellManager::setup(4);

    for i in 0..1 << 4 {
        for j in 0..1 << 4 {
            cm.toggle(i, j);
            assert_eq!(cm.state_at(i, j), Leaf::Alive);
            cm.toggle(i, j);
            assert_eq!(cm.state_at(i, j), Leaf::Dead);
        }
    }

    match cm.root_node() {
        // The node should be empty...
        Node::Empty(size) => assert_eq!(size, 4),
        _ => panic!("Macrocell not empty"),
    };
}

#[test]
fn test_step() {
    let mut cm = CellManager::setup(3);
    let points = [(3, 3), (4, 3), (4, 4), (3, 5)];
    for (x, y) in points {
        cm.toggle(x, y);
    }

    assert_eq!(cm.state_at(3, 3), Leaf::Alive);
    assert_eq!(cm.state_at(3, 5), Leaf::Alive);
    assert_eq!(cm.state_at(3, 4), Leaf::Dead);
    assert_eq!(cm.state_at(4, 4), Leaf::Alive);
    assert_eq!(cm.state_at(4, 3), Leaf::Alive);

    cm.step();

    assert_eq!(cm.state_at(3, 3), Leaf::Alive);
    assert_eq!(cm.state_at(3, 5), Leaf::Dead);
    assert_eq!(cm.state_at(3, 4), Leaf::Dead);
    assert_eq!(cm.state_at(4, 4), Leaf::Alive);
    assert_eq!(cm.state_at(4, 3), Leaf::Alive);

    cm.step();

    assert_eq!(cm.state_at(3, 3), Leaf::Alive);
    assert_eq!(cm.state_at(3, 5), Leaf::Dead);
    assert_eq!(cm.state_at(3, 4), Leaf::Alive);
    assert_eq!(cm.state_at(4, 4), Leaf::Alive);
    assert_eq!(cm.state_at(4, 3), Leaf::Alive);

    cm.step();

    assert_eq!(cm.state_at(3, 3), Leaf::Alive);
    assert_eq!(cm.state_at(3, 5), Leaf::Dead);
    assert_eq!(cm.state_at(3, 4), Leaf::Alive);
    assert_eq!(cm.state_at(4, 4), Leaf::Alive);
    assert_eq!(cm.state_at(4, 3), Leaf::Alive);
}

#[test]
fn blinker_has_period_two() {
    let mut cm = CellManager::setup(3);
    for (x, y) in [(3, 4), (4, 4), (5, 4)] {
        cm.toggle(x, y);
    }
    cm.step();
    assert_eq!(alive_cells(&cm, 8), vec![(4, 3), (4, 4), (4, 5)]);
    cm.step();
    assert_eq!(alive_cells(&cm, 8), vec![(3, 4), (4, 4), (5, 4)]);
}

#[test]
fn block_is_still() {
    let mut cm = CellManager::setup(3);
    for (x, y) in [(3, 3), (3, 4), (4, 3), (4, 4)] {
        cm.toggle(x, y);
    }
    let root = cm.root_ref();
    for _ in 0..5 {
        cm.step();
        assert_eq!(alive_cells(&cm, 8), vec![(3, 3), (3, 4), (4, 3), (4, 4)]);
        assert_eq!(cm.root_ref(), root);
    }
}

#[test]
fn glider_moves_diagonally() {
    let mut cm = CellManager::setup(5);
    for (x, y) in [(10, 10), (11, 11), (12, 9), (12, 10), (12, 11)] {
        cm.toggle(x, y);
    }
    for _ in 0..4 {
        cm.step();
    }
    assert_eq!(alive_cells(&cm, 32), vec![(11, 11), (12, 12), (13, 10), (13, 11), (13, 12)]);
}

#[test]
fn empty_universe_stays_empty() {
    let mut cm = CellManager::setup(3);
    let root = cm.root_ref();
    assert_eq!(cm.root_node(), Node::Empty(3));
    cm.step();
    assert_eq!(cm.root_ref(), root);
    assert!(alive_cells(&cm, 8).is_empty());
}

#[test]
fn toggle_twice_restores_root() {
    let mut cm = CellManager::setup(4);
    let root = cm.root_ref();
    for x in 0..16 {
        for y in 0..16 {
            cm.toggle(x, y);
            cm.toggle(x, y);
            assert_eq!(cm.state_at(x, y), Leaf::Dead);
            assert_eq!(cm.root_ref(), root);
        }
    }
}

#[test]
fn toggle_twice_keeps_pattern_identity() {
    let mut cm = CellManager::setup(4);
    for (x, y) in [(2, 3), (7, 7), (9, 1)] {
        cm.toggle(x, y);
    }
    let root = cm.root_ref();
    cm.toggle(5, 12);
    assert_ne!(cm.root_ref(), root);
    cm.toggle(5, 12);
    assert_eq!(cm.root_ref(), root);
}

#[test]
fn all_on_then_all_off_is_canonical_empty() {
    let mut cm = CellManager::setup(3);
    let root = cm.root_ref();
    for x in 0..8 {
        for y in 0..8 {
            cm.toggle(x, y);
        }
    }
    assert_eq!(alive_cells(&cm, 8).len(), 64);
    for y in (0..8).rev() {
        for x in 0..8 {
            cm.toggle(x, y);
        }
    }
    assert_eq!(cm.root_node(), Node::Empty(3));
    assert_eq!(cm.root_ref(), root);
}

#[test]
fn two_universes_agree() {
    let glider = [(10, 10), (11, 11), (12, 9), (12, 10), (12, 11)];
    let mut a = CellManager::setup(5);
    for (x, y) in glider {
        a.toggle(x, y);
    }
    for _ in 0..20 {
        a.step();
    }
    let mut b = CellManager::setup(5);
    for (x, y) in glider {
        b.toggle(x, y);
    }
    for _ in 0..20 {
        b.step();
    }
    assert_eq!(alive_cells(&a, 32), alive_cells(&b, 32));
    assert_eq!(alive_cells(&a, 32).len(), 5);
}

#[test]
fn cells_at_the_border_see_dead_outside() {
    let mut cm = CellManager::setup(3);
    for (x, y) in [(0, 0), (0, 1), (1, 0)] {
        cm.toggle(x, y);
    }
    cm.step();
    assert_eq!(alive_cells(&cm, 8), vec![(0, 0), (0, 1), (1, 0), (1, 1)]);
}

#[test]
fn overcrowded_cell_dies() {
    let mut cm = CellManager::setup(3);
    for (x, y) in [(3, 3), (2, 3), (4, 3), (3, 2), (3, 4)] {
        cm.toggle(x, y);
    }
    cm.step();
    assert_eq!(cm.state_at(3, 3), Leaf::Dead);
    assert_eq!(cm.state_at(2, 2), Leaf::Alive);
}

#[test]
fn reset_kills_everything() {
    let mut cm = CellManager::setup(3);
    cm.toggle(1, 2);
    cm.reset(4);
    assert_eq!(cm.root_node(), Node::Empty(4));
    assert_eq!(cm.state_at(1, 2), Leaf::Dead);
    assert_eq!(cm.state_at(15, 15), Leaf::Dead);
}
