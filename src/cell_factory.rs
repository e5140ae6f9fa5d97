//! The hash-consing node factory: an arena of nodes whose index is their
//! identity, with an interning table for macrocells, one canonical node per
//! empty size, and the memo of evolution results.
use std::collections::{BTreeMap, HashMap};
use vstd::prelude::*;
use crate::cell::{Leaf, MacroCell, Node};
use crate::quadtree::{
    Tree, empty_tree, is_result, same_grid, shifted, pow2, lemma_dead_grid, lemma_outside_dead,
    lemma_pow2_pos, lemma_pow2_succ,
};

verus! {

broadcast use vstd::std_specs::hash::group_hash_axioms, vstd::std_specs::btree::group_btree_axioms,
    vstd::laws_cmp::group_laws_cmp;

/// The largest node size: the table of empty squares has one slot for each
/// size up to it.
pub const MAX_SIZE: u32 = 63;

/// Identity of the dead leaf.
pub const DEAD_LEAF: usize = 0;

/// Identity of the live leaf.
pub const ALIVE_LEAF: usize = 1;

/// The interning store. Every node is made here, so that two nodes with the
/// same cells have the same identity.
pub struct CellFactory {
    /// The nodes made so far; a node's index is its identity.
    nodes: Vec<Node>,
    /// Interning table: the identity of the macrocell with the given children.
    node_cache: BTreeMap<(usize, usize, usize, usize), usize>,
    /// Memo of evolution results, keyed by node identity.
    result_cache: HashMap<usize, usize>,
    /// The canonical empty node of each size, once made.
    empty_cache: Vec<Option<usize>>,
    /// The region that each node stands for.
    trees: Ghost<Seq<Tree>>,
}

impl CellFactory {
    /// The number of nodes made so far.
    pub closed spec fn len(&self) -> nat {
        self.nodes@.len()
    }

    /// The region of the node with identity `id`.
    pub closed spec fn tree(&self, id: int) -> Tree {
        self.trees@[id]
    }

    /// The node with identity `id`.
    pub closed spec fn node(&self, id: int) -> Node {
        self.nodes@[id]
    }

    /// The memo of evolution results.
    pub closed spec fn memo(&self) -> Map<usize, usize> {
        self.result_cache@
    }

    /// The region that a node value stands for, its children read from this factory.
    pub open spec fn tree_of_node(&self, n: Node) -> Tree {
        match n {
            Node::Leaf(l) => Tree::Cell(l == Leaf::Alive),
            Node::Empty(k) => Tree::Blank(k as nat),
            Node::MacroCell(m) => Tree::quad(
                self.tree(m.ul as int),
                self.tree(m.ur as int),
                self.tree(m.ll as int),
                self.tree(m.lr as int),
            ),
        }
    }

    /// Node value `n` was made by this factory.
    pub closed spec fn holds(&self, n: Node) -> bool {
        exists|i: int| 0 <= i < self.nodes@.len() && self.nodes@[i] == n
    }

    /// Everything made before is still there and unchanged.
    pub open spec fn extends(&self, prev: &CellFactory) -> bool {
        &&& prev.len() <= self.len()
        &&& forall|i: int|
            0 <= i < prev.len() ==> #[trigger] self.tree(i) == prev.tree(i) && self.node(i)
                == prev.node(i)
    }

    spec fn key_of(m: MacroCell) -> (usize, usize, usize, usize) {
        (m.ul, m.ur, m.ll, m.lr)
    }

    spec fn node_wf(&self, i: int) -> bool {
        let n = self.nodes@[i];
        &&& self.trees@[i] == self.tree_of_node(n)
        &&& self.trees@[i].size() == n.size()
        &&& n.size() <= MAX_SIZE
        &&& match n {
            Node::Leaf(l) => i == (if l == Leaf::Alive {
                1int
            } else {
                0int
            }),
            Node::Empty(k) => {
                &&& k >= 1
                &&& self.empty_cache@[k as int] is Some
                &&& self.empty_cache@[k as int]->Some_0 == i
            },
            Node::MacroCell(m) => {
                &&& m.ul < i && m.ur < i && m.ll < i && m.lr < i
                &&& self.nodes@[m.ul as int].size() + 1 == m.size
                &&& self.nodes@[m.ur as int].size() + 1 == m.size
                &&& self.nodes@[m.ll as int].size() + 1 == m.size
                &&& self.nodes@[m.lr as int].size() + 1 == m.size
                &&& !(self.nodes@[m.ul as int].dead() && self.nodes@[m.ur as int].dead()
                    && self.nodes@[m.ll as int].dead() && self.nodes@[m.lr as int].dead())
                &&& self.node_cache@.contains_key(Self::key_of(m))
                &&& self.node_cache@[Self::key_of(m)] == i
            },
        }
    }

    /// The factory's invariant.
    pub closed spec fn wf(&self) -> bool {
        &&& self.nodes@.len() == self.trees@.len()
        &&& self.nodes@.len() >= 2
        &&& self.nodes@[DEAD_LEAF as int] == Node::Leaf(Leaf::Dead)
        &&& self.nodes@[ALIVE_LEAF as int] == Node::Leaf(Leaf::Alive)
        &&& forall|i: int| 0 <= i < self.nodes@.len() ==> #[trigger] self.node_wf(i)
        &&& forall|key: (usize, usize, usize, usize)|
            #[trigger] self.node_cache@.contains_key(key) ==> {
                let v = self.node_cache@[key] as int;
                &&& 0 <= v < self.nodes@.len()
                &&& self.nodes@[v] is MacroCell
                &&& Self::key_of(self.nodes@[v]->MacroCell_0) == key
            }
        &&& self.empty_cache@.len() == MAX_SIZE + 1
        &&& self.empty_cache@[0] is None
        &&& forall|k: int|
            0 <= k <= MAX_SIZE && #[trigger] self.empty_cache@[k] is Some ==> {
                let v = self.empty_cache@[k]->Some_0 as int;
                0 <= v < self.nodes@.len() && self.nodes@[v] == Node::Empty(k as u32)
            }
        &&& forall|n: usize|
            #[trigger] self.result_cache@.contains_key(n) ==> {
                let r = self.result_cache@[n];
                &&& n < self.nodes@.len()
                &&& r < self.nodes@.len()
                &&& is_result(self.trees@[n as int], self.trees@[r as int])
            }
    }

    /// What the invariant says of one node.
    pub proof fn lemma_node(&self, id: int)
        requires
            self.wf(),
            0 <= id < self.len(),
        ensures
            self.tree(id) == self.tree_of_node(self.node(id)),
            self.tree(id).size() == self.node(id).size(),
            self.node(id).size() <= MAX_SIZE,
            self.node(id).dead() == self.tree(id).is_dead(),
            self.node(id) is Empty ==> self.node(id).size() >= 1,
            self.node(id) is Leaf ==> self.node(id).size() == 0,
            self.node(id) is MacroCell ==> {
                let m = self.node(id)->MacroCell_0;
                &&& m.ul < id && m.ur < id && m.ll < id && m.lr < id
                &&& self.tree(m.ul as int).size() + 1 == m.size
                &&& self.tree(m.ur as int).size() + 1 == m.size
                &&& self.tree(m.ll as int).size() + 1 == m.size
                &&& self.tree(m.lr as int).size() + 1 == m.size
            },
    {
        assert(self.node_wf(id));
        if let Node::MacroCell(m) = self.node(id) {
            assert(self.node_wf(m.ul as int));
            assert(self.node_wf(m.ur as int));
            assert(self.node_wf(m.ll as int));
            assert(self.node_wf(m.lr as int));
        }
    }

    /// What the invariant says of a node value that this factory made.
    pub proof fn lemma_holds(&self, n: Node) -> (id: int)
        requires
            self.wf(),
            self.holds(n),
        ensures
            0 <= id < self.len(),
            self.node(id) == n,
    {
        choose|i: int| 0 <= i < self.nodes@.len() && self.nodes@[i] == n
    }

    /// A node that is not dead has a live cell.
    pub proof fn lemma_live(&self, id: int) -> (c: (int, int))
        requires
            self.wf(),
            0 <= id < self.len(),
            !self.node(id).dead(),
        ensures
            self.tree(id).alive(c.0, c.1),
            0 <= c.0 < self.tree(id).side(),
            0 <= c.1 < self.tree(id).side(),
        decreases self.tree(id).size(),
    {
        self.lemma_node(id);
        match self.node(id) {
            Node::MacroCell(m) => {
                let h = pow2((m.size - 1) as nat) as int;
                lemma_pow2_pos((m.size - 1) as nat);
                lemma_pow2_succ((m.size - 1) as nat);
                self.lemma_node(m.ul as int);
                self.lemma_node(m.ur as int);
                self.lemma_node(m.ll as int);
                self.lemma_node(m.lr as int);
                assert(self.node_wf(id));
                if !self.node(m.ul as int).dead() {
                    let (x, y) = self.lemma_live(m.ul as int);
                    assert(self.tree(id).alive(x, y));
                    (x, y)
                } else if !self.node(m.ur as int).dead() {
                    let (x, y) = self.lemma_live(m.ur as int);
                    assert(self.tree(id).alive(x, y + h));
                    (x, y + h)
                } else if !self.node(m.ll as int).dead() {
                    let (x, y) = self.lemma_live(m.ll as int);
                    assert(self.tree(id).alive(x + h, y));
                    (x + h, y)
                } else {
                    let (x, y) = self.lemma_live(m.lr as int);
                    assert(self.tree(id).alive(x + h, y + h));
                    (x + h, y + h)
                }
            },
            _ => {
                lemma_pow2_pos(0);
                (0, 0)
            },
        }
    }

    /// Identity is structure: two nodes of this factory of one size that
    /// hold the same cells are one node.
    pub proof fn lemma_identity_is_structure(&self, a: int, b: int)
        requires
            self.wf(),
            0 <= a < self.len(),
            0 <= b < self.len(),
            self.tree(a).size() == self.tree(b).size(),
            same_grid(self.tree(a), self.tree(b)),
        ensures
            a == b,
        decreases self.tree(a).size(),
    {
        self.lemma_node(a);
        self.lemma_node(b);
        assert(self.node_wf(a));
        assert(self.node_wf(b));
        let na = self.node(a);
        let nb = self.node(b);
        if !na.dead() {
            let (x, y) = self.lemma_live(a);
            assert(self.tree(b).alive(x, y));
        }
        if !nb.dead() {
            let (x, y) = self.lemma_live(b);
            assert(self.tree(a).alive(x, y));
        }
        match (na, nb) {
            (Node::Empty(ka), Node::Empty(kb)) => {
                assert(ka == kb);
                assert(a == b);
            },
            (Node::Leaf(la), Node::Leaf(lb)) => {
                assert(la == lb);
                assert(a == b);
            },
            (Node::MacroCell(ma), Node::MacroCell(mb)) => {
                let h = pow2((ma.size - 1) as nat) as int;
                lemma_pow2_succ((ma.size - 1) as nat);
                let ta = self.tree(a);
                let tb = self.tree(b);
                self.lemma_node(ma.ul as int);
                self.lemma_node(mb.ul as int);
                assert(same_grid(self.tree(ma.ul as int), self.tree(mb.ul as int))) by {
                    assert forall|x: int, y: int|
                        #[trigger] self.tree(ma.ul as int).alive(x, y) == self.tree(
                            mb.ul as int,
                        ).alive(x, y) by {
                        if x < 0 || y < 0 || x >= h || y >= h {
                            lemma_outside_dead(self.tree(ma.ul as int), x, y);
                            lemma_outside_dead(self.tree(mb.ul as int), x, y);
                        } else {
                            assert(ta.alive(x, y) == tb.alive(x, y));
                        }
                    }
                }
                assert(same_grid(self.tree(ma.ur as int), self.tree(mb.ur as int))) by {
                    assert forall|x: int, y: int|
                        #[trigger] self.tree(ma.ur as int).alive(x, y) == self.tree(
                            mb.ur as int,
                        ).alive(x, y) by {
                        if x < 0 || y < 0 || x >= h || y >= h {
                            lemma_outside_dead(self.tree(ma.ur as int), x, y);
                            lemma_outside_dead(self.tree(mb.ur as int), x, y);
                        } else {
                            assert(ta.alive(x, y + h) == tb.alive(x, y + h));
                        }
                    }
                }
                assert(same_grid(self.tree(ma.ll as int), self.tree(mb.ll as int))) by {
                    assert forall|x: int, y: int|
                        #[trigger] self.tree(ma.ll as int).alive(x, y) == self.tree(
                            mb.ll as int,
                        ).alive(x, y) by {
                        if x < 0 || y < 0 || x >= h || y >= h {
                            lemma_outside_dead(self.tree(ma.ll as int), x, y);
                            lemma_outside_dead(self.tree(mb.ll as int), x, y);
                        } else {
                            assert(ta.alive(x + h, y) == tb.alive(x + h, y));
                        }
                    }
                }
                assert(same_grid(self.tree(ma.lr as int), self.tree(mb.lr as int))) by {
                    assert forall|x: int, y: int|
                        #[trigger] self.tree(ma.lr as int).alive(x, y) == self.tree(
                            mb.lr as int,
                        ).alive(x, y) by {
                        if x < 0 || y < 0 || x >= h || y >= h {
                            lemma_outside_dead(self.tree(ma.lr as int), x, y);
                            lemma_outside_dead(self.tree(mb.lr as int), x, y);
                        } else {
                            assert(ta.alive(x + h, y + h) == tb.alive(x + h, y + h));
                        }
                    }
                }
                self.lemma_identity_is_structure(ma.ul as int, mb.ul as int);
                self.lemma_identity_is_structure(ma.ur as int, mb.ur as int);
                self.lemma_identity_is_structure(ma.ll as int, mb.ll as int);
                self.lemma_identity_is_structure(ma.lr as int, mb.lr as int);
                assert(Self::key_of(ma) == Self::key_of(mb));
                assert(self.node_cache@[Self::key_of(ma)] == a);
                assert(self.node_cache@[Self::key_of(mb)] == b);
                assert(a == b);
            },
            _ => {
                assert(false);
            },
        }
    }

    /// Two macrocells composed of quadrants that hold the same cells, one
    /// by one, are one node.
    pub proof fn lemma_same_children_same_node(
        &self,
        r1: int,
        r2: int,
        u0: Tree,
        u1: Tree,
        u2: Tree,
        u3: Tree,
        v0: Tree,
        v1: Tree,
        v2: Tree,
        v3: Tree,
    )
        requires
            self.wf(),
            0 <= r1 < self.len(),
            0 <= r2 < self.len(),
            self.tree(r1).size() == u0.size() + 1,
            self.tree(r2).size() == v0.size() + 1,
            u0.size() == v0.size(),
            same_grid(self.tree(r1), Tree::quad(u0, u1, u2, u3)),
            same_grid(self.tree(r2), Tree::quad(v0, v1, v2, v3)),
            same_grid(u0, v0),
            same_grid(u1, v1),
            same_grid(u2, v2),
            same_grid(u3, v3),
        ensures
            r1 == r2,
    {
        let a = Tree::quad(u0, u1, u2, u3);
        let b = Tree::quad(v0, v1, v2, v3);
        assert forall|x: int, y: int| #[trigger]
            self.tree(r1).alive(x, y) == self.tree(r2).alive(x, y) by {
            let h = pow2(u0.size()) as int;
            if x < 0 || y < 0 || x >= 2 * h || y >= 2 * h {
            } else if x < h {
                if y < h {
                    assert(u0.alive(x, y) == v0.alive(x, y));
                } else {
                    assert(u1.alive(x, y - h) == v1.alive(x, y - h));
                }
            } else {
                if y < h {
                    assert(u2.alive(x - h, y) == v2.alive(x - h, y));
                } else {
                    assert(u3.alive(x - h, y - h) == v3.alive(x - h, y - h));
                }
            }
            assert(a.alive(x, y) == b.alive(x, y));
        }
        self.lemma_identity_is_structure(r1, r2);
    }

    /// The result of a node is one node, whenever it is computed.
    pub proof fn lemma_result_unique(&self, n: int, r1: int, r2: int)
        requires
            self.wf(),
            0 <= n < self.len(),
            0 <= r1 < self.len(),
            0 <= r2 < self.len(),
            is_result(self.tree(n), self.tree(r1)),
            is_result(self.tree(n), self.tree(r2)),
        ensures
            r1 == r2,
    {
        reveal(is_result);
        let t1 = self.tree(r1);
        let t2 = self.tree(r2);
        assert forall|x: int, y: int| #[trigger] t1.alive(x, y) == t2.alive(x, y) by {
            if x < 0 || y < 0 || x >= t1.side() || y >= t1.side() {
                lemma_outside_dead(t1, x, y);
                lemma_outside_dead(t2, x, y);
            }
        }
        self.lemma_identity_is_structure(r1, r2);
    }

    /// A factory that holds the two leaves and nothing else.
    pub fn new() -> (r: Self)
        ensures
            r.wf(),
            r.len() == 2,
            r.memo() == Map::<usize, usize>::empty(),
    {
        let mut empty_cache: Vec<Option<usize>> = Vec::new();
        let mut k: u32 = 0;
        while k <= MAX_SIZE
            invariant
                k <= MAX_SIZE + 1,
                empty_cache@.len() == k,
                forall|j: int| 0 <= j < k ==> #[trigger] empty_cache@[j] is None,
            decreases MAX_SIZE + 1 - k,
        {
            empty_cache.push(None);
            k = k + 1;
        }
        let mut nodes: Vec<Node> = Vec::new();
        nodes.push(Node::Leaf(Leaf::Dead));
        nodes.push(Node::Leaf(Leaf::Alive));
        let ghost trees = seq![Tree::Cell(false), Tree::Cell(true)];
        let r = CellFactory {
            nodes,
            node_cache: BTreeMap::new(),
            result_cache: HashMap::new(),
            empty_cache,
            trees: Ghost(trees),
        };
        assert forall|i: int| 0 <= i < r.nodes@.len() implies #[trigger] r.node_wf(i) by {}
        r
    }

    /// The node with identity `id`.
    pub fn get_node(&self, id: usize) -> (r: Node)
        requires
            self.wf(),
            id < self.len(),
        ensures
            r == self.node(id as int),
            self.holds(r),
    {
        self.nodes[id]
    }

    /// The canonical empty node of the given size: the dead leaf for size 0.
    pub fn get_empty(&mut self, size: u32) -> (r: usize)
        requires
            old(self).wf(),
            size <= MAX_SIZE,
        ensures
            final(self).wf(),
            final(self).extends(old(self)),
            final(self).memo() == old(self).memo(),
            r < final(self).len(),
            final(self).tree(r as int) == empty_tree(size as nat),
    {
        if let Some(node) = self.empty_cache[size as usize] {
            proof {
                assert(self.empty_cache@[size as int] is Some);
                assert(self.node_wf(node as int));
            }
            node
        } else {
            if size == 0 {
                proof {
                    assert(self.node_wf(0));
                }
                return DEAD_LEAF;
            }
            let ghost prev = *self;
            let id = self.nodes.len();
            self.nodes.push(Node::Empty(size));
            self.trees = Ghost(self.trees@.push(Tree::Blank(size as nat)));
            self.empty_cache.set(size as usize, Some(id));
            proof {
                assert forall|i: int| 0 <= i < self.nodes@.len() implies #[trigger] self.node_wf(
                    i,
                ) by {
                    if i < id {
                        assert(prev.node_wf(i));
                        if let Node::Empty(k) = self.nodes@[i] {
                            assert(prev.empty_cache@[k as int] is Some);
                        }
                    }
                }
                assert forall|k: int|
                    0 <= k <= MAX_SIZE && #[trigger] self.empty_cache@[k] is Some implies {
                    let v = self.empty_cache@[k]->Some_0 as int;
                    0 <= v < self.nodes@.len() && self.nodes@[v] == Node::Empty(k as u32)
                } by {
                    if k != size {
                        assert(prev.empty_cache@[k] is Some);
                    }
                }
            }
            id
        }
    }

    /// The unique node whose quadrants are the four given nodes: the empty
    /// node of the next size when all four are dead.
    pub fn node_from(&mut self, ul: usize, ur: usize, ll: usize, lr: usize) -> (r: usize)
        requires
            old(self).wf(),
            ul < old(self).len(),
            ur < old(self).len(),
            ll < old(self).len(),
            lr < old(self).len(),
            old(self).tree(ur as int).size() == old(self).tree(ul as int).size(),
            old(self).tree(ll as int).size() == old(self).tree(ul as int).size(),
            old(self).tree(lr as int).size() == old(self).tree(ul as int).size(),
            old(self).tree(ul as int).size() < MAX_SIZE,
        ensures
            final(self).wf(),
            final(self).extends(old(self)),
            final(self).memo() == old(self).memo(),
            r < final(self).len(),
            final(self).tree(r as int).size() == old(self).tree(ul as int).size() + 1,
            same_grid(
                final(self).tree(r as int),
                Tree::quad(
                    old(self).tree(ul as int),
                    old(self).tree(ur as int),
                    old(self).tree(ll as int),
                    old(self).tree(lr as int),
                ),
            ),
            ({
                let dead = old(self).tree(ul as int).is_dead() && old(self).tree(ur as int).is_dead()
                    && old(self).tree(ll as int).is_dead() && old(self).tree(lr as int).is_dead();
                &&& dead ==> final(self).tree(r as int) == Tree::Blank(
                    old(self).tree(ul as int).size() + 1,
                )
                &&& !dead ==> final(self).tree(r as int) == Tree::quad(
                    old(self).tree(ul as int),
                    old(self).tree(ur as int),
                    old(self).tree(ll as int),
                    old(self).tree(lr as int),
                )
            }),
    {
        proof {
            self.lemma_node(ul as int);
            self.lemma_node(ur as int);
            self.lemma_node(ll as int);
            self.lemma_node(lr as int);
        }
        let ghost prev = *self;
        let ghost q = Tree::quad(
            self.tree(ul as int),
            self.tree(ur as int),
            self.tree(ll as int),
            self.tree(lr as int),
        );
        let key = (ul, ur, ll, lr);
        if let Some(node) = self.node_cache.get(&key) {
            let node = *node;
            proof {
                assert(self.node_cache@.contains_key(key));
                assert(self.node_wf(node as int));
                assert(self.tree(node as int) == q);
            }
            return node;
        }
        let size = self.nodes[ul].get_size();
        if self.nodes[ul].is_dead() && self.nodes[ur].is_dead() && self.nodes[ll].is_dead()
            && self.nodes[lr].is_dead() {
            let r = self.get_empty(size + 1);
            proof {
                assert forall|x: int, y: int| #[trigger]
                    self.tree(r as int).alive(x, y) == q.alive(x, y) by {
                    lemma_dead_grid(prev.tree(ul as int), x, y);
                    lemma_dead_grid(prev.tree(ur as int), x, y);
                    lemma_dead_grid(prev.tree(ll as int), x, y);
                    lemma_dead_grid(prev.tree(lr as int), x, y);
                    lemma_dead_grid(prev.tree(ul as int), x - pow2(prev.tree(ul as int).size()), y);
                    lemma_dead_grid(prev.tree(ur as int), x, y - pow2(prev.tree(ul as int).size()));
                    lemma_dead_grid(prev.tree(lr as int), x - pow2(prev.tree(ul as int).size()), y - pow2(prev.tree(ul as int).size()));
                    lemma_dead_grid(prev.tree(ll as int), x - pow2(prev.tree(ul as int).size()), y);
                }
            }
            return r;
        }
        let id = self.nodes.len();
        let m = MacroCell { ul, ur, ll, lr, size: size + 1 };
        self.nodes.push(Node::MacroCell(m));
        self.trees = Ghost(self.trees@.push(q));
        self.node_cache.insert(key, id);
        proof {
            assert forall|i: int| 0 <= i < self.nodes@.len() implies #[trigger] self.node_wf(i) by {
                if i < id {
                    assert(prev.node_wf(i));
                    if let Node::MacroCell(mi) = self.nodes@[i] {
                        assert(prev.node_cache@.contains_key(Self::key_of(mi)));
                    }
                }
            }
            assert forall|k: (usize, usize, usize, usize)| #[trigger]
                self.node_cache@.contains_key(k) implies {
                let v = self.node_cache@[k] as int;
                &&& 0 <= v < self.nodes@.len()
                &&& self.nodes@[v] is MacroCell
                &&& Self::key_of(self.nodes@[v]->MacroCell_0) == k
            } by {
                if k != key {
                    assert(prev.node_cache@.contains_key(k));
                }
            }
            assert forall|k: int|
                0 <= k <= MAX_SIZE && #[trigger] self.empty_cache@[k] is Some implies {
                let v = self.empty_cache@[k]->Some_0 as int;
                0 <= v < self.nodes@.len() && self.nodes@[v] == Node::Empty(k as u32)
            } by {
                assert(prev.empty_cache@[k] is Some);
            }
            assert forall|n: usize| #[trigger] self.result_cache@.contains_key(n) implies {
                let r = self.result_cache@[n];
                &&& n < self.nodes@.len()
                &&& r < self.nodes@.len()
                &&& is_result(self.trees@[n as int], self.trees@[r as int])
            } by {
                assert(prev.result_cache@.contains_key(n));
            }
        }
        id
    }

    /// The quadrant `(x, y)` of a node of size at least 1: `x` picks the
    /// upper or lower half, `y` the left or right half.
    pub fn get_quad(&mut self, node: usize, x: u32, y: u32) -> (r: usize)
        requires
            old(self).wf(),
            node < old(self).len(),
            old(self).tree(node as int).size() >= 1,
            x <= 1,
            y <= 1,
        ensures
            final(self).wf(),
            final(self).extends(old(self)),
            final(self).memo() == old(self).memo(),
            r < final(self).len(),
            final(self).tree(r as int).size() + 1 == old(self).tree(node as int).size(),
            ({
                let h = pow2((old(self).tree(node as int).size() - 1) as nat) as int;
                shifted(
                    final(self).tree(r as int),
                    old(self).tree(node as int),
                    if x == 0 {
                        0
                    } else {
                        h
                    },
                    if y == 0 {
                        0
                    } else {
                        h
                    },
                )
            }),
    {
        proof {
            self.lemma_node(node as int);
            reveal(shifted);
        }
        match self.nodes[node] {
            Node::MacroCell(mc) => {
                proof {
                    self.lemma_node(mc.ul as int);
                    lemma_pow2_pos(self.tree(mc.ul as int).size());
                }
                if x == 0 {
                    if y == 0 {
                        mc.ul
                    } else {
                        mc.ur
                    }
                } else {
                    if y == 0 {
                        mc.ll
                    } else {
                        mc.lr
                    }
                }
            },
            Node::Empty(size) => {
                let r = self.get_empty(size - 1);
                proof {
                    assert forall|a: int, b: int|
                        0 <= a < self.tree(r as int).side() && 0 <= b < self.tree(
                            r as int,
                        ).side() implies #[trigger] self.tree(r as int).alive(a, b) == false by {
                        lemma_dead_grid(self.tree(r as int), a, b);
                    }
                }
                r
            },
            Node::Leaf(_) => {
                proof {
                    assert(false);
                }
                DEAD_LEAF
            },
        }
    }

    /// The memoized result of a node, if there is one.
    pub fn get_result(&self, node: usize) -> (r: Option<usize>)
        requires
            self.wf(),
        ensures
            r == (if self.memo().contains_key(node) {
                Some(self.memo()[node])
            } else {
                None::<usize>
            }),
            r matches Some(v) ==> node < self.len() && v < self.len() && is_result(
                self.tree(node as int),
                self.tree(v as int),
            ),
    {
        match self.result_cache.get(&node) {
            Some(v) => Some(*v),
            None => None,
        }
    }

    /// Memoizes `result` as the result of `node`.
    pub fn cache_result(&mut self, node: usize, result: usize)
        requires
            old(self).wf(),
            node < old(self).len(),
            result < old(self).len(),
            is_result(old(self).tree(node as int), old(self).tree(result as int)),
        ensures
            final(self).wf(),
            final(self).extends(old(self)),
            final(self).len() == old(self).len(),
            final(self).memo() == old(self).memo().insert(node, result),
    {
        let ghost prev = *self;
        self.result_cache.insert(node, result);
        proof {
            assert forall|i: int| 0 <= i < self.nodes@.len() implies #[trigger] self.node_wf(i) by {
                assert(prev.node_wf(i));
            }
            assert forall|n: usize| #[trigger] self.result_cache@.contains_key(n) implies {
                let r = self.result_cache@[n];
                &&& n < self.nodes@.len()
                &&& r < self.nodes@.len()
                &&& is_result(self.trees@[n as int], self.trees@[r as int])
            } by {
                if n != node {
                    assert(prev.result_cache@.contains_key(n));
                }
            }
        }
    }

    /// The canonical leaf of the given state.
    pub fn get_leaf(&self, variant: Leaf) -> (r: usize)
        requires
            self.wf(),
        ensures
            r < self.len(),
            r == (if variant == Leaf::Alive {
                ALIVE_LEAF
            } else {
                DEAD_LEAF
            }),
            self.node(r as int) == Node::Leaf(variant),
            self.tree(r as int) == Tree::Cell(variant == Leaf::Alive),
    {
        proof {
            assert(self.node_wf(0));
            assert(self.node_wf(1));
        }
        match variant {
            Leaf::Alive => ALIVE_LEAF,
            Leaf::Dead => DEAD_LEAF,
        }
    }
}

} // verus!
