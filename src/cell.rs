//! The nodes of the quadtree. A node names its children by their identities
//! in the factory that made it.
use vstd::prelude::*;
use crate::cell_factory::{CellFactory, MAX_SIZE};
use crate::quadtree::{empty_tree, half_side, pow2, lemma_pow2_succ};

verus! {

/// The state of a single cell.
#[derive(Debug, Clone, Copy, PartialEq, Eq, Structural)]
pub enum Leaf {
    Dead,
    Alive,
}

/// A non-empty square made of four quadrants of equal size, one size smaller.
#[derive(Debug, Clone, Copy, PartialEq, Eq, Structural)]
pub struct MacroCell {
    pub ul: usize,
    pub ur: usize,
    pub ll: usize,
    pub lr: usize,
    pub size: u32,
}

/// A node of the quadtree: a single cell, an all-dead square of side `2^k`,
/// or a macrocell.
#[derive(Debug, Clone, Copy, PartialEq, Eq, Structural)]
pub enum Node {
    MacroCell(MacroCell),
    Leaf(Leaf),
    Empty(u32),
}

impl Leaf {
    pub open spec fn is_alive(self) -> bool {
        self == Leaf::Alive
    }

    /// The other state.
    pub fn toggle(&self) -> (r: Leaf)
        ensures
            r.is_alive() == !self.is_alive(),
    {
        match *self {
            Leaf::Dead => Leaf::Alive,
            Leaf::Alive => Leaf::Dead,
        }
    }
}

impl Node {
    pub open spec fn size(self) -> nat {
        match self {
            Node::MacroCell(mc) => mc.size as nat,
            Node::Leaf(_) => 0,
            Node::Empty(k) => k as nat,
        }
    }

    /// A dead leaf or an empty square. The factory never makes a macrocell
    /// without a live cell, so these are exactly the nodes with no live cell.
    pub open spec fn dead(self) -> bool {
        match self {
            Node::MacroCell(_) => false,
            Node::Leaf(l) => l == Leaf::Dead,
            Node::Empty(_) => true,
        }
    }

    /// log2 of the number of cells in a row of the node.
    pub fn get_size(&self) -> (r: u32)
        ensures
            r == self.size(),
    {
        match self {
            Node::MacroCell(mc) => mc.size,
            Node::Leaf(_) => 0,
            Node::Empty(size) => *size,
        }
    }

    /// Whether the node holds no live cell.
    pub fn is_dead(&self) -> (r: bool)
        ensures
            r == self.dead(),
    {
        match self {
            Node::Leaf(leaf) => *leaf == Leaf::Dead,
            Node::MacroCell(_) => false,
            Node::Empty(_) => true,
        }
    }

    /// The state of the cell at `(x, y)`: `x` is the row, `y` the column.
    pub fn state_at(&self, factory: &CellFactory, x: u32, y: u32) -> (r: Leaf)
        requires
            factory.wf(),
            factory.holds(*self),
            x < pow2(self.size()),
            y < pow2(self.size()),
        ensures
            r.is_alive() == factory.tree_of_node(*self).alive(x as int, y as int),
        decreases self.size(),
    {
        proof {
            let id = factory.lemma_holds(*self);
            factory.lemma_node(id);
        }
        match *self {
            Node::MacroCell(mc) => {
                proof {
                    factory.lemma_node(mc.ul as int);
                    factory.lemma_node(mc.ur as int);
                    factory.lemma_node(mc.ll as int);
                    factory.lemma_node(mc.lr as int);
                    lemma_pow2_succ((mc.size - 1) as nat);
                }
                let h = half_side(mc.size);
                let (upper, rel_x) = if (x as u64) < h {
                    (true, x)
                } else {
                    (false, (x as u64 - h) as u32)
                };
                let (left, rel_y) = if (y as u64) < h {
                    (true, y)
                } else {
                    (false, (y as u64 - h) as u32)
                };
                let child = if upper {
                    if left {
                        mc.ul
                    } else {
                        mc.ur
                    }
                } else {
                    if left {
                        mc.ll
                    } else {
                        mc.lr
                    }
                };
                let child_node = factory.get_node(child);
                proof {
                    factory.lemma_node(child as int);
                }
                child_node.state_at(factory, rel_x, rel_y)
            },
            Node::Leaf(leaf) => leaf,
            Node::Empty(_) => Leaf::Dead,
        }
    }

    /// The all-dead node of the given size.
    pub fn new_empty(size: u32) -> (r: Node)
        requires
            size >= 1,
        ensures
            r == Node::Empty(size),
    {
        Node::Empty(size)
    }
}

impl MacroCell {
    /// The macrocell with the given quadrants, one size larger than they are.
    pub fn new(factory: &CellFactory, ul: usize, ur: usize, ll: usize, lr: usize) -> (r: MacroCell)
        requires
            factory.wf(),
            ul < factory.len(),
            ur < factory.len(),
            ll < factory.len(),
            lr < factory.len(),
            factory.tree(ur as int).size() == factory.tree(ul as int).size(),
            factory.tree(ll as int).size() == factory.tree(ul as int).size(),
            factory.tree(lr as int).size() == factory.tree(ul as int).size(),
            factory.tree(ul as int).size() < MAX_SIZE,
        ensures
            r == (MacroCell { ul, ur, ll, lr, size: (factory.tree(ul as int).size() + 1) as u32 }),
    {
        proof {
            factory.lemma_node(ul as int);
        }
        let size = factory.get_node(ul).get_size();
        MacroCell { ul, ur, ll, lr, size: size + 1 }
    }

    /// A macrocell of the given size whose four quadrants are the
    /// canonical empty node one size smaller.
    pub fn new_empty(factory: &mut CellFactory, size: u32) -> (r: MacroCell)
        requires
            old(factory).wf(),
            1 <= size <= MAX_SIZE,
        ensures
            final(factory).wf(),
            final(factory).extends(old(factory)),
            r.size == size,
            r.ur == r.ul && r.ll == r.ul && r.lr == r.ul,
            r.ul < final(factory).len(),
            final(factory).tree(r.ul as int) == empty_tree((size - 1) as nat),
    {
        let e = factory.get_empty(size - 1);
        MacroCell { ul: e, ur: e, ll: e, lr: e, size }
    }
}

} // verus!
