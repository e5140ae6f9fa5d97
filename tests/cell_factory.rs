use hashlife::cell::{Leaf, MacroCell, Node};
use hashlife::cell_factory::{CellFactory, ALIVE_LEAF, DEAD_LEAF};

#[test]
fn leaves_are_canonical() {
    let f = CellFactory::new();
    assert_eq!(f.get_leaf(Leaf::Dead), DEAD_LEAF);
    assert_eq!(f.get_leaf(Leaf::Alive), ALIVE_LEAF);
    assert_eq!(f.get_node(ALIVE_LEAF), Node::Leaf(Leaf::Alive));
}

#[test]
fn empty_is_cached() {
    let mut f = CellFactory::new();
    let e3 = f.get_empty(3);
    assert_eq!(f.get_empty(3), e3);
    assert_eq!(f.get_node(e3), Node::Empty(3));
    assert_eq!(f.get_empty(0), DEAD_LEAF);
}

#[test]
fn compose_of_dead_is_empty() {
    let mut f = CellFactory::new();
    let d = f.get_leaf(Leaf::Dead);
    let n = f.node_from(d, d, d, d);
    assert_eq!(f.get_node(n), Node::Empty(1));
    assert_eq!(n, f.get_empty(1));
    let e1 = f.get_empty(1);
    let m = f.node_from(e1, e1, e1, e1);
    assert_eq!(m, f.get_empty(2));
}

#[test]
fn compose_is_interned() {
    let mut f = CellFactory::new();
    let d = f.get_leaf(Leaf::Dead);
    let a = f.get_leaf(Leaf::Alive);
    let n1 = f.node_from(a, d, d, a);
    let n2 = f.node_from(a, d, d, a);
    assert_eq!(n1, n2);
    let n3 = f.node_from(d, a, a, d);
    assert_ne!(n1, n3);
    assert_eq!(f.get_node(n1), Node::MacroCell(MacroCell { ul: a, ur: d, ll: d, lr: a, size: 1 }));
}

#[test]
fn quadrants_of_macrocell_and_empty() {
    let mut f = CellFactory::new();
    let d = f.get_leaf(Leaf::Dead);
    let a = f.get_leaf(Leaf::Alive);
    let n = f.node_from(d, a, d, d);
    assert_eq!(f.get_quad(n, 0, 1), a);
    assert_eq!(f.get_quad(n, 1, 1), d);
    let e2 = f.get_empty(2);
    let e1 = f.get_empty(1);
    assert_eq!(f.get_quad(e2, 1, 0), e1);
}

#[test]
fn state_at_reads_through_quadrants() {
    let mut f = CellFactory::new();
    let d = f.get_leaf(Leaf::Dead);
    let a = f.get_leaf(Leaf::Alive);
    let n = f.node_from(d, a, d, d);
    let e = f.get_empty(1);
    let big = f.node_from(e, e, n, e);
    let node = f.get_node(big);
    assert_eq!(node.get_size(), 2);
    assert_eq!(node.state_at(&f, 2, 1), Leaf::Alive);
    assert_eq!(node.state_at(&f, 2, 0), Leaf::Dead);
    assert_eq!(node.state_at(&f, 0, 1), Leaf::Dead);
    assert!(!node.is_dead());
    assert!(f.get_node(e).is_dead());
}

#[test]
fn result_memo_round_trip() {
    let mut f = CellFactory::new();
    let e2 = f.get_empty(2);
    let e1 = f.get_empty(1);
    assert_eq!(f.get_result(e2), None);
    f.cache_result(e2, e1);
    assert_eq!(f.get_result(e2), Some(e1));
}

#[test]
fn leaf_toggle_and_sizes() {
    assert_eq!(Leaf::Dead.toggle(), Leaf::Alive);
    assert_eq!(Leaf::Alive.toggle(), Leaf::Dead);
    assert_eq!(Node::new_empty(5), Node::Empty(5));
    assert_eq!(Node::Leaf(Leaf::Alive).get_size(), 0);
    assert!(Node::Leaf(Leaf::Dead).is_dead());
    assert!(!Node::Leaf(Leaf::Alive).is_dead());
}

#[test]
fn macrocell_constructors() {
    let mut f = CellFactory::new();
    let d = f.get_leaf(Leaf::Dead);
    let a = f.get_leaf(Leaf::Alive);
    let m = MacroCell::new(&f, a, d, d, d);
    assert_eq!(m, MacroCell { ul: a, ur: d, ll: d, lr: d, size: 1 });
    let e = MacroCell::new_empty(&mut f, 3);
    let e2 = f.get_empty(2);
    assert_eq!(e, MacroCell { ul: e2, ur: e2, ll: e2, lr: e2, size: 3 });
    let z = MacroCell::new_empty(&mut f, 1);
    assert_eq!(z.ul, DEAD_LEAF);
}
