//! The evolver and the universe it advances: a root node, the factory that
//! made it, and the HashLife one-generation step.
use vstd::prelude::*;
use crate::cell::{Leaf, Node};
use crate::cell_factory::{CellFactory, MAX_SIZE};
use crate::quadtree::{
    Tree, is_result, is_next, next_alive, pow2, same_grid, shifted, toggled,
    lemma_pow2_pos, lemma_pow2_succ, lemma_outside_dead, lemma_dead_grid, lemma_quads_grid, lemma_toggle_quad,
    half_side,
};

verus! {

/// Which of three tiles of side `side` holds coordinate `x`.
pub open spec fn tile_index(x: int, side: int) -> int {
    if x < side {
        0
    } else if x < 2 * side {
        1
    } else {
        2
    }
}

/// Where that tile starts.
pub open spec fn tile_start(x: int, side: int) -> int {
    if x < side {
        0
    } else if x < 2 * side {
        side
    } else {
        2 * side
    }
}

/// The cell at `(x, y)` of a three-by-three mosaic of tiles of side `side`,
/// given row by row.
pub open spec fn mosaic(tiles: Seq<Tree>, side: int, x: int, y: int) -> bool {
    tiles[3 * tile_index(x, side) + tile_index(y, side)].alive(
        x - tile_start(x, side),
        y - tile_start(y, side),
    )
}

/// Every cell of `r` is the cell of `n` at offset `(ox, oy)`, one generation later.
#[verifier::opaque]
pub open spec fn advanced(r: Tree, n: Tree, ox: int, oy: int) -> bool {
    forall|x: int, y: int|
        0 <= x < r.side() && 0 <= y < r.side() ==> #[trigger] r.alive(x, y) == next_alive(
            n,
            x + ox,
            y + oy,
        )
}

/// A window of `n` at an offset, advanced: the same as advancing `n` there.
proof fn lemma_window_result(n: Tree, w: Tree, r: Tree, ox: int, oy: int)
    requires
        shifted(w, n, ox, oy),
        is_result(w, r),
    ensures
        advanced(r, n, ox + pow2((w.size() - 2) as nat), oy + pow2((w.size() - 2) as nat)),
{
    reveal(shifted);
    reveal(is_result);
    reveal(advanced);
    let q = pow2((w.size() - 2) as nat) as int;
    lemma_pow2_pos((w.size() - 2) as nat);
    lemma_pow2_succ((w.size() - 2) as nat);
    lemma_pow2_succ((w.size() - 1) as nat);
    assert(w.side() == 4 * q);
    assert(r.side() == 2 * q);
    assert forall|x: int, y: int| 0 <= x < r.side() && 0 <= y < r.side() implies #[trigger] r.alive(
        x,
        y,
    ) == next_alive(n, x + ox + q, y + oy + q) by {
        let a = x + q;
        let b = y + q;
        assert(w.alive(a - 1, b - 1) == n.alive(a - 1 + ox, b - 1 + oy));
        assert(w.alive(a - 1, b) == n.alive(a - 1 + ox, b + oy));
        assert(w.alive(a - 1, b + 1) == n.alive(a - 1 + ox, b + 1 + oy));
        assert(w.alive(a, b - 1) == n.alive(a + ox, b - 1 + oy));
        assert(w.alive(a, b) == n.alive(a + ox, b + oy));
        assert(w.alive(a, b + 1) == n.alive(a + ox, b + 1 + oy));
        assert(w.alive(a + 1, b - 1) == n.alive(a + 1 + ox, b - 1 + oy));
        assert(w.alive(a + 1, b) == n.alive(a + 1 + ox, b + oy));
        assert(w.alive(a + 1, b + 1) == n.alive(a + 1 + ox, b + 1 + oy));
    }
}

/// The strip between two side-by-side windows of `n` is a window of `n`.
proof fn lemma_left_right(res: Tree, l: Tree, r: Tree, n: Tree, h: int, ox: int, oy: int)
    requires
        res.side() == 2 * h,
        forall|x: int, y: int|
            0 <= x < 2 * h && 0 <= y < 2 * h ==> #[trigger] res.alive(x, y) == if y < h {
                l.alive(x, y + h)
            } else {
                r.alive(x, y - h)
            },
        l.side() == 2 * h,
        r.side() == 2 * h,
        shifted(l, n, ox, oy),
        shifted(r, n, ox, oy + 2 * h),
    ensures
        shifted(res, n, ox, oy + h),
{
    reveal(shifted);
    assert forall|x: int, y: int| 0 <= x < res.side() && 0 <= y < res.side() implies #[trigger]
        res.alive(x, y) == n.alive(x + ox, y + oy + h) by {
        if y < h {
            assert(l.alive(x, y + h) == n.alive(x + ox, y + h + oy));
        } else {
            assert(r.alive(x, y - h) == n.alive(x + ox, y - h + oy + 2 * h));
        }
    }
}

/// The strip between two stacked windows of `n` is a window of `n`.
proof fn lemma_top_bottom(res: Tree, t: Tree, b: Tree, n: Tree, h: int, ox: int, oy: int)
    requires
        res.side() == 2 * h,
        forall|x: int, y: int|
            0 <= x < 2 * h && 0 <= y < 2 * h ==> #[trigger] res.alive(x, y) == if x < h {
                t.alive(x + h, y)
            } else {
                b.alive(x - h, y)
            },
        t.side() == 2 * h,
        b.side() == 2 * h,
        shifted(t, n, ox, oy),
        shifted(b, n, ox + 2 * h, oy),
    ensures
        shifted(res, n, ox + h, oy),
{
    reveal(shifted);
    assert forall|x: int, y: int| 0 <= x < res.side() && 0 <= y < res.side() implies #[trigger]
        res.alive(x, y) == n.alive(x + ox + h, y + oy) by {
        if x < h {
            assert(t.alive(x + h, y) == n.alive(x + h + ox, y + oy));
        } else {
            assert(b.alive(x - h, y) == n.alive(x - h + ox + 2 * h, y + oy));
        }
    }
}

/// Nine advanced tiles, laid out row by row at stride `q`, make one
/// advanced square of side `3q`.
proof fn lemma_mosaic(tiles: Seq<Tree>, n: Tree, q: int, qq: int)
    requires
        tiles.len() == 9,
        q >= 1,
        forall|i: int| 0 <= i < 9 ==> (#[trigger] tiles[i]).side() == q,
        advanced(tiles[0], n, qq, qq),
        advanced(tiles[1], n, qq, q + qq),
        advanced(tiles[2], n, qq, 2 * q + qq),
        advanced(tiles[3], n, q + qq, qq),
        advanced(tiles[4], n, q + qq, q + qq),
        advanced(tiles[5], n, q + qq, 2 * q + qq),
        advanced(tiles[6], n, 2 * q + qq, qq),
        advanced(tiles[7], n, 2 * q + qq, q + qq),
        advanced(tiles[8], n, 2 * q + qq, 2 * q + qq),
    ensures
        forall|x: int, y: int|
            0 <= x < 3 * q && 0 <= y < 3 * q ==> #[trigger] mosaic(tiles, q, x, y) == next_alive(
                n,
                x + qq,
                y + qq,
            ),
{
    reveal(advanced);
    assert forall|x: int, y: int| 0 <= x < 3 * q && 0 <= y < 3 * q implies #[trigger] mosaic(
        tiles,
        q,
        x,
        y,
    ) == next_alive(n, x + qq, y + qq) by {
        let i = tile_index(x, q);
        let j = tile_index(y, q);
        let t = tiles[3 * i + j];
        let a = x - tile_start(x, q);
        let b = y - tile_start(y, q);
        assert(0 <= a < q && 0 <= b < q);
        assert(t.alive(a, b) == next_alive(n, x + qq, y + qq));
    }
}

/// The combined nine results of the windows of `n` are the result of `n`.
proof fn lemma_assemble(tiles: Seq<Tree>, n: Tree, t: Tree)
    requires
        tiles.len() == 9,
        n.size() >= 3,
        forall|i: int| 0 <= i < 9 ==> (#[trigger] tiles[i]).size() + 2 == n.size(),
        ({
            let q = pow2((n.size() - 2) as nat) as int;
            let qq = pow2((n.size() - 3) as nat) as int;
            &&& advanced(tiles[0], n, qq, qq)
            &&& advanced(tiles[1], n, qq, q + qq)
            &&& advanced(tiles[2], n, qq, 2 * q + qq)
            &&& advanced(tiles[3], n, q + qq, qq)
            &&& advanced(tiles[4], n, q + qq, q + qq)
            &&& advanced(tiles[5], n, q + qq, 2 * q + qq)
            &&& advanced(tiles[6], n, 2 * q + qq, qq)
            &&& advanced(tiles[7], n, 2 * q + qq, q + qq)
            &&& advanced(tiles[8], n, 2 * q + qq, 2 * q + qq)
        }),
        t.size() + 1 == n.size(),
        ({
            let side = pow2(tiles[0].size()) as int;
            let hh = pow2((tiles[0].size() - 1) as nat) as int;
            forall|x: int, y: int|
                0 <= x < 2 * side && 0 <= y < 2 * side ==> #[trigger] t.alive(x, y) == mosaic(
                    tiles,
                    side,
                    x + hh,
                    y + hh,
                )
        }),
    ensures
        is_result(n, t),
{
    reveal(is_result);
    let k = n.size();
    let q = pow2((k - 2) as nat) as int;
    let qq = pow2((k - 3) as nat) as int;
    lemma_pow2_succ((k - 3) as nat);
    lemma_pow2_succ((k - 2) as nat);
    lemma_pow2_pos((k - 3) as nat);
    assert(tiles[0].size() == k - 2);
    lemma_mosaic(tiles, n, q, qq);
    assert forall|x: int, y: int| 0 <= x < t.side() && 0 <= y < t.side() implies #[trigger]
        t.alive(x, y) == next_alive(n, x + q, y + q) by {
        assert(t.alive(x, y) == mosaic(tiles, q, x + qq, y + qq));
    }
}

/// A quadrant of `t` moved to the opposite corner of a square of dead
/// quadrants: the square is `t` shifted by half its side.
proof fn lemma_pad(r: Tree, te: Tree, p: Tree, t: Tree, h: int, upper: bool, left: bool)
    requires
        te.is_dead(),
        p.size() == te.size(),
        pow2(te.size()) == h,
        h >= 1,
        t.side() == 2 * h,
        shifted(
            p,
            t,
            if upper {
                0
            } else {
                h
            },
            if left {
                0
            } else {
                h
            },
        ),
        same_grid(
            r,
            Tree::quad(
                if !upper && !left {
                    p
                } else {
                    te
                },
                if !upper && left {
                    p
                } else {
                    te
                },
                if upper && !left {
                    p
                } else {
                    te
                },
                if upper && left {
                    p
                } else {
                    te
                },
            ),
        ),
    ensures
        forall|x: int, y: int|
            0 <= x < 2 * h && 0 <= y < 2 * h ==> #[trigger] r.alive(x, y) == t.alive(
                x + if upper {
                    -h
                } else {
                    h
                },
                y + if left {
                    -h
                } else {
                    h
                },
            ),
{
    reveal(shifted);
    let dx = if upper {
        -h
    } else {
        h
    };
    let dy = if left {
        -h
    } else {
        h
    };
    let sx = if upper {
        0
    } else {
        h
    };
    let sy = if left {
        0
    } else {
        h
    };
    let q = Tree::quad(
        if !upper && !left {
            p
        } else {
            te
        },
        if !upper && left {
            p
        } else {
            te
        },
        if upper && !left {
            p
        } else {
            te
        },
        if upper && left {
            p
        } else {
            te
        },
    );
    assert forall|x: int, y: int| 0 <= x < 2 * h && 0 <= y < 2 * h implies #[trigger] r.alive(x, y)
        == t.alive(x + dx, y + dy) by {
        assert(r.alive(x, y) == q.alive(x, y));
        let px = if x < h {
            x
        } else {
            x - h
        };
        let py = if y < h {
            y
        } else {
            y - h
        };
        let at_p = (x >= h) == upper && (y >= h) == left;
        if at_p {
            assert(q.alive(x, y) == p.alive(px, py));
            assert(p.alive(px, py) == t.alive(px + sx, py + sy));
        } else {
            lemma_dead_grid(te, px, py);
            lemma_outside_dead(t, x + dx, y + dy);
        }
    }
}

/// Owns the root node of the universe and the factory that made it.
pub struct CellManager {
    /// The factory shared by every operation on this universe.
    nf: CellFactory,
    /// Identity of the root node.
    root: usize,
}

impl CellManager {
    /// The invariant: the root is a node of the factory, of a size that can
    /// still be padded by one level.
    pub closed spec fn wf(&self) -> bool {
        &&& self.nf.wf()
        &&& self.root < self.nf.len()
        &&& 1 <= self.nf.tree(self.root as int).size() < MAX_SIZE
    }

    /// The whole universe.
    pub closed spec fn grid(&self) -> Tree {
        self.nf.tree(self.root as int)
    }

    /// Identity of the root node.
    pub closed spec fn root_id(&self) -> usize {
        self.root
    }

    pub closed spec fn factory(&self) -> CellFactory {
        self.nf
    }

    /// log2 of the side of the universe.
    pub open spec fn levels(&self) -> nat {
        self.grid().size()
    }

    /// What `toggle` does: `self` is `prev` with the cell `(x, y)` flipped.
    pub open spec fn toggle_of(&self, prev: &CellManager, x: int, y: int) -> bool {
        &&& self.wf()
        &&& self.factory().extends(&prev.factory())
        &&& self.levels() == prev.levels()
        &&& toggled(self.grid(), prev.grid(), x, y)
    }

    /// Flipping a cell twice gives back the universe as it was: the same
    /// cells and the same root node.
    pub proof fn lemma_toggle_twice(m0: CellManager, m1: CellManager, m2: CellManager, x: int, y: int)
        requires
            m0.wf(),
            m1.toggle_of(&m0, x, y),
            m2.toggle_of(&m1, x, y),
        ensures
            same_grid(m2.grid(), m0.grid()),
            m2.root_id() == m0.root_id(),
    {
        let f = m2.nf;
        assert(f.tree(m0.root as int) == m0.grid());
        assert forall|a: int, b: int| #[trigger] m2.grid().alive(a, b) == m0.grid().alive(a, b) by {
            assert(m1.grid().alive(a, b) == if a == x && b == y {
                !m0.grid().alive(a, b)
            } else {
                m0.grid().alive(a, b)
            });
        }
        f.lemma_identity_is_structure(m2.root as int, m0.root as int);
    }

    /// A universe with no live cell is the canonical empty node of its size,
    /// and no other node of the factory holds the same cells.
    pub proof fn lemma_dead_universe_is_empty(m: CellManager)
        requires
            m.wf(),
            forall|x: int, y: int| !(#[trigger] m.grid().alive(x, y)),
        ensures
            m.grid() == Tree::Blank(m.levels()),
            m.factory().node(m.root_id() as int) == Node::Empty(m.levels() as u32),
            forall|i: int|
                0 <= i < m.factory().len() && #[trigger] m.factory().tree(i) == Tree::Blank(
                    m.levels(),
                ) ==> i == m.root_id(),
    {
        let f = m.nf;
        f.lemma_node(m.root as int);
        if !f.node(m.root as int).dead() {
            let (x, y) = f.lemma_live(m.root as int);
        }
        assert forall|i: int|
            0 <= i < f.len() && #[trigger] f.tree(i) == Tree::Blank(m.levels()) implies i
            == m.root by {
            f.lemma_identity_is_structure(i, m.root as int);
        }
    }

    /// A universe of side `2^size` with every cell dead.
    pub fn setup(size: u32) -> (r: CellManager)
        requires
            1 <= size < MAX_SIZE,
        ensures
            r.wf(),
            r.grid() == Tree::Blank(size as nat),
    {
        let mut nf = CellFactory::new();
        let root = nf.get_empty(size);
        CellManager { nf, root }
    }

    /// Replaces the universe by one of side `2^size` with every cell dead.
    pub fn reset(&mut self, size: u32)
        requires
            old(self).wf(),
            1 <= size < MAX_SIZE,
        ensures
            final(self).wf(),
            final(self).grid() == Tree::Blank(size as nat),
            final(self).factory().extends(&old(self).factory()),
    {
        self.root = self.nf.get_empty(size);
    }

    /// Identity of the root node.
    pub fn root_ref(&self) -> (r: usize)
        ensures
            r == self.root_id(),
    {
        self.root
    }

    /// The root node.
    pub fn root_node(&self) -> (r: Node)
        requires
            self.wf(),
        ensures
            r == self.factory().node(self.root_id() as int),
            self.factory().tree_of_node(r) == self.grid(),
    {
        proof {
            self.nf.lemma_node(self.root as int);
        }
        self.nf.get_node(self.root)
    }

    /// The state of the cell in row `x`, column `y`.
    pub fn state_at(&self, x: u32, y: u32) -> (r: Leaf)
        requires
            self.wf(),
            x < self.grid().side(),
            y < self.grid().side(),
        ensures
            r.is_alive() == self.grid().alive(x as int, y as int),
    {
        let n = self.nf.get_node(self.root);
        proof {
            self.nf.lemma_node(self.root as int);
        }
        n.state_at(&self.nf, x, y)
    }

    /// `node` padded by half its side of dead cells on every border.
    fn frame_of(&mut self, node: usize) -> (f: usize)
        requires
            old(self).nf.wf(),
            node < old(self).nf.len(),
            1 <= old(self).nf.tree(node as int).size() < MAX_SIZE,
        ensures
            final(self).nf.wf(),
            final(self).nf.extends(&old(self).nf),
            f < final(self).nf.len(),
            final(self).nf.tree(f as int).size() == old(self).nf.tree(node as int).size() + 1,
            ({
                let h = pow2((old(self).nf.tree(node as int).size() - 1) as nat) as int;
                forall|x: int, y: int| #[trigger]
                    final(self).nf.tree(f as int).alive(x, y) == old(self).nf.tree(
                        node as int,
                    ).alive(x - h, y - h)
            }),
    {
        let ghost t = self.nf.tree(node as int);
        let ghost h = pow2((t.size() - 1) as nat) as int;
        proof {
            self.nf.lemma_node(node as int);
            lemma_pow2_succ((t.size() - 1) as nat);
            lemma_pow2_succ(t.size());
            lemma_pow2_pos((t.size() - 1) as nat);
            reveal(shifted);
        }
        let k = self.nf.get_node(node).get_size();
        let e = self.nf.get_empty(k - 1);
        let a = self.nf.get_quad(node, 0, 0);
        let b = self.nf.get_quad(node, 0, 1);
        let c = self.nf.get_quad(node, 1, 0);
        let d = self.nf.get_quad(node, 1, 1);
        let ghost te = self.nf.tree(e as int);
        let ghost ta = self.nf.tree(a as int);
        let ghost tb = self.nf.tree(b as int);
        let ghost tc = self.nf.tree(c as int);
        let ghost td = self.nf.tree(d as int);
        let ul = self.nf.node_from(e, e, e, a);
        let ghost t_ul = self.nf.tree(ul as int);
        proof {
            lemma_pad(t_ul, te, ta, t, h, true, true);
        }
        let ur = self.nf.node_from(e, e, b, e);
        let ghost t_ur = self.nf.tree(ur as int);
        proof {
            lemma_pad(t_ur, te, tb, t, h, true, false);
        }
        let ll = self.nf.node_from(e, c, e, e);
        let ghost t_ll = self.nf.tree(ll as int);
        proof {
            lemma_pad(t_ll, te, tc, t, h, false, true);
        }
        let lr = self.nf.node_from(d, e, e, e);
        let ghost t_lr = self.nf.tree(lr as int);
        proof {
            lemma_pad(t_lr, te, td, t, h, false, false);
            assert(self.nf.tree(ul as int) == t_ul);
            assert(self.nf.tree(ur as int) == t_ur);
            assert(self.nf.tree(ll as int) == t_ll);
        }
        let f = self.nf.node_from(ul, ur, ll, lr);
        proof {
            let q = Tree::quad(t_ul, t_ur, t_ll, t_lr);
            let tf = self.nf.tree(f as int);
            assert forall|x: int, y: int| #[trigger] tf.alive(x, y) == t.alive(x - h, y - h) by {
                assert(tf.alive(x, y) == q.alive(x, y));
                if x < 0 || y < 0 || x >= 4 * h || y >= 4 * h {
                    lemma_outside_dead(t, x - h, y - h);
                } else if x < 2 * h {
                    if y < 2 * h {
                        assert(t_ul.alive(x, y) == t.alive(x - h, y - h));
                    } else {
                        assert(t_ur.alive(x, y - 2 * h) == t.alive(x - h, y - h));
                    }
                } else {
                    if y < 2 * h {
                        assert(t_ll.alive(x - 2 * h, y) == t.alive(x - h, y - h));
                    } else {
                        assert(t_lr.alive(x - 2 * h, y - 2 * h) == t.alive(x - h, y - h));
                    }
                }
            }
        }
        f
    }

    /// `node` one generation later: the result of its padded frame.
    fn _step(&mut self, node: usize) -> (r: usize)
        requires
            old(self).nf.wf(),
            node < old(self).nf.len(),
            1 <= old(self).nf.tree(node as int).size() < MAX_SIZE,
        ensures
            final(self).nf.wf(),
            final(self).nf.extends(&old(self).nf),
            r < final(self).nf.len(),
            is_next(final(self).nf.tree(r as int), old(self).nf.tree(node as int)),
    {
        let ghost t = self.nf.tree(node as int);
        let ghost h = pow2((t.size() - 1) as nat) as int;
        let frame = self.frame_of(node);
        let ghost tf = self.nf.tree(frame as int);
        let r = self.get_result(frame);
        proof {
            reveal(is_result);
            let tr = self.nf.tree(r as int);
            assert forall|x: int, y: int| 0 <= x < t.side() && 0 <= y < t.side() implies #[trigger]
                tr.alive(x, y) == next_alive(t, x, y) by {
                assert(tf.alive(x + h - 1, y + h - 1) == t.alive(x - 1, y - 1));
                assert(tf.alive(x + h - 1, y + h) == t.alive(x - 1, y));
                assert(tf.alive(x + h - 1, y + h + 1) == t.alive(x - 1, y + 1));
                assert(tf.alive(x + h, y + h - 1) == t.alive(x, y - 1));
                assert(tf.alive(x + h, y + h) == t.alive(x, y));
                assert(tf.alive(x + h, y + h + 1) == t.alive(x, y + 1));
                assert(tf.alive(x + h + 1, y + h - 1) == t.alive(x + 1, y - 1));
                assert(tf.alive(x + h + 1, y + h) == t.alive(x + 1, y));
                assert(tf.alive(x + h + 1, y + h + 1) == t.alive(x + 1, y + 1));
            }
        }
        r
    }

    /// Advances the universe by one generation. Cells beyond the border
    /// count as dead.
    pub fn step(&mut self)
        requires
            old(self).wf(),
        ensures
            final(self).wf(),
            final(self).factory().extends(&old(self).factory()),
            is_next(final(self).grid(), old(self).grid()),
    {
        let parent = self._step(self.root);
        self.root = parent;
    }

    /// `curr` with the cell in row `x`, column `y` flipped, rebuilt through
    /// the factory on the way back up.
    fn _toggle(&mut self, curr: usize, x: u32, y: u32) -> (r: usize)
        requires
            old(self).nf.wf(),
            curr < old(self).nf.len(),
            x < old(self).nf.tree(curr as int).side(),
            y < old(self).nf.tree(curr as int).side(),
        ensures
            final(self).nf.wf(),
            final(self).nf.extends(&old(self).nf),
            r < final(self).nf.len(),
            final(self).nf.tree(r as int).size() == old(self).nf.tree(curr as int).size(),
            toggled(final(self).nf.tree(r as int), old(self).nf.tree(curr as int), x as int, y as int),
        decreases old(self).nf.tree(curr as int).size(),
    {
        let ghost t = self.nf.tree(curr as int);
        let node = self.nf.get_node(curr);
        proof {
            self.nf.lemma_node(curr as int);
        }
        let curr_size = node.get_size();
        if curr_size == 0 {
            match node {
                Node::Leaf(leaf) => {
                    return self.nf.get_leaf(leaf.toggle());
                },
                _ => {
                    proof {
                        assert(false);
                    }
                    return curr;
                },
            }
        }
        let ghost h = pow2((t.size() - 1) as nat) as int;
        proof {
            lemma_pow2_succ((t.size() - 1) as nat);
        }
        let half = half_side(curr_size);
        let (upper, rel_x) = if (x as u64) < half {
            (true, x)
        } else {
            (false, (x as u64 - half) as u32)
        };
        let (left, rel_y) = if (y as u64) < half {
            (true, y)
        } else {
            (false, (y as u64 - half) as u32)
        };
        let mut ul = self.nf.get_quad(curr, 0, 0);
        let mut ur = self.nf.get_quad(curr, 0, 1);
        let mut ll = self.nf.get_quad(curr, 1, 0);
        let mut lr = self.nf.get_quad(curr, 1, 1);
        let ghost q0 = self.nf.tree(ul as int);
        let ghost q1 = self.nf.tree(ur as int);
        let ghost q2 = self.nf.tree(ll as int);
        let ghost q3 = self.nf.tree(lr as int);
        proof {
            lemma_quads_grid(t, q0, q1, q2, q3, h);
        }
        if upper && left {
            ul = self._toggle(ul, rel_x, rel_y);
        } else if upper {
            ur = self._toggle(ur, rel_x, rel_y);
        } else if left {
            ll = self._toggle(ll, rel_x, rel_y);
        } else {
            lr = self._toggle(lr, rel_x, rel_y);
        }
        let ghost n0 = self.nf.tree(ul as int);
        let ghost n1 = self.nf.tree(ur as int);
        let ghost n2 = self.nf.tree(ll as int);
        let ghost n3 = self.nf.tree(lr as int);
        proof {
            lemma_toggle_quad(q0, q1, q2, q3, n0, n1, n2, n3, upper, left, rel_x as int, rel_y as int);
        }
        let r = self.nf.node_from(ul, ur, ll, lr);
        proof {
            let tr = self.nf.tree(r as int);
            let nq = Tree::quad(n0, n1, n2, n3);
            let oq = Tree::quad(q0, q1, q2, q3);
            assert forall|a: int, b: int| #[trigger] tr.alive(a, b) == if a == x && b == y {
                !t.alive(a, b)
            } else {
                t.alive(a, b)
            } by {
                assert(tr.alive(a, b) == nq.alive(a, b));
                assert(t.alive(a, b) == oq.alive(a, b));
            }
        }
        r
    }

    /// Flips the cell in row `x`, column `y`.
    pub fn toggle(&mut self, x: u32, y: u32)
        requires
            old(self).wf(),
            x < old(self).grid().side(),
            y < old(self).grid().side(),
        ensures
            final(self).toggle_of(old(self), x as int, y as int),
    {
        let parent = self.root;
        self.root = self._toggle(parent, x, y);
    }

    /// Conway's rule at one inner cell of a 4x4 node.
    fn next_state(&self, node: usize, x: u32, y: u32) -> (r: Leaf)
        requires
            self.nf.wf(),
            node < self.nf.len(),
            self.nf.tree(node as int).size() == 2,
            1 <= x <= 2,
            1 <= y <= 2,
        ensures
            r.is_alive() == next_alive(self.nf.tree(node as int), x as int, y as int),
    {
        let n = self.nf.get_node(node);
        proof {
            self.nf.lemma_node(node as int);
            lemma_pow2_succ(0);
            lemma_pow2_succ(1);
        }
        let c0: u32 = if n.state_at(&self.nf, x - 1, y - 1) == Leaf::Alive { 1 } else { 0 };
        let c1: u32 = if n.state_at(&self.nf, x - 1, y) == Leaf::Alive { 1 } else { 0 };
        let c2: u32 = if n.state_at(&self.nf, x - 1, y + 1) == Leaf::Alive { 1 } else { 0 };
        let c3: u32 = if n.state_at(&self.nf, x, y - 1) == Leaf::Alive { 1 } else { 0 };
        let c4: u32 = if n.state_at(&self.nf, x, y + 1) == Leaf::Alive { 1 } else { 0 };
        let c5: u32 = if n.state_at(&self.nf, x + 1, y - 1) == Leaf::Alive { 1 } else { 0 };
        let c6: u32 = if n.state_at(&self.nf, x + 1, y) == Leaf::Alive { 1 } else { 0 };
        let c7: u32 = if n.state_at(&self.nf, x + 1, y + 1) == Leaf::Alive { 1 } else { 0 };
        let num_alive = c0 + c1 + c2 + c3 + c4 + c5 + c6 + c7;
        match (n.state_at(&self.nf, x, y), num_alive) {
            (Leaf::Alive, 2..=3) => Leaf::Alive,
            (Leaf::Alive, _) => Leaf::Dead,
            (Leaf::Dead, 3) => Leaf::Alive,
            (Leaf::Dead, _) => Leaf::Dead,
        }
    }

    /// Conway's rule on a 4x4 node: its center 2x2, one generation later.
    fn apply_rule(&mut self, node: usize) -> (r: usize)
        requires
            old(self).nf.wf(),
            node < old(self).nf.len(),
            old(self).nf.tree(node as int).size() == 2,
        ensures
            final(self).nf.wf(),
            final(self).nf.extends(&old(self).nf),
            r < final(self).nf.len(),
            final(self).nf.tree(r as int).size() == 1,
            is_result(old(self).nf.tree(node as int), final(self).nf.tree(r as int)),
    {
        proof {
            lemma_pow2_succ(0);
            lemma_pow2_succ(1);
        }
        let ghost n = self.nf.tree(node as int);
        let s11 = self.next_state(node, 1, 1);
        let s12 = self.next_state(node, 1, 2);
        let s21 = self.next_state(node, 2, 1);
        let s22 = self.next_state(node, 2, 2);
        let l11 = self.nf.get_leaf(s11);
        let l12 = self.nf.get_leaf(s12);
        let l21 = self.nf.get_leaf(s21);
        let l22 = self.nf.get_leaf(s22);
        let r = self.nf.node_from(l11, l12, l21, l22);
        proof {
            let t = self.nf.tree(r as int);
            let q = Tree::quad(
                Tree::Cell(s11.is_alive()),
                Tree::Cell(s12.is_alive()),
                Tree::Cell(s21.is_alive()),
                Tree::Cell(s22.is_alive()),
            );
            reveal_with_fuel(Tree::alive, 2);
            reveal(is_result);
            assert(t.side() == 2);
            assert forall|x: int, y: int|
                0 <= x < t.side() && 0 <= y < t.side() implies #[trigger] t.alive(x, y)
                == next_alive(n, x + 1, y + 1) by {
                assert(t.alive(x, y) == Tree::quad(
                    Tree::Cell(s11.is_alive()),
                    Tree::Cell(s12.is_alive()),
                    Tree::Cell(s21.is_alive()),
                    Tree::Cell(s22.is_alive()),
                ).alive(x, y));
                if x == 0 {
                    if y == 0 {
                        assert(t.alive(x, y) == s11.is_alive());
                    } else {
                        assert(t.alive(x, y) == s12.is_alive());
                    }
                } else {
                    if y == 0 {
                        assert(t.alive(x, y) == s21.is_alive());
                    } else {
                        assert(t.alive(x, y) == s22.is_alive());
                    }
                }
            }
        }
        r
    }

    /// The node straddling the border between two side-by-side nodes.
    fn combine_left_right(&mut self, l: usize, r: usize) -> (res: usize)
        requires
            old(self).nf.wf(),
            l < old(self).nf.len(),
            r < old(self).nf.len(),
            old(self).nf.tree(r as int).size() == old(self).nf.tree(l as int).size(),
            1 <= old(self).nf.tree(l as int).size() <= MAX_SIZE,
        ensures
            final(self).nf.wf(),
            final(self).nf.extends(&old(self).nf),
            res < final(self).nf.len(),
            final(self).nf.tree(res as int).size() == old(self).nf.tree(l as int).size(),
            ({
                let h = pow2((old(self).nf.tree(l as int).size() - 1) as nat) as int;
                forall|x: int, y: int|
                    0 <= x < 2 * h && 0 <= y < 2 * h ==> #[trigger] final(self).nf.tree(
                        res as int,
                    ).alive(x, y) == if y < h {
                        old(self).nf.tree(l as int).alive(x, y + h)
                    } else {
                        old(self).nf.tree(r as int).alive(x, y - h)
                    }
            }),
    {
        let ghost tl = self.nf.tree(l as int);
        let ghost tr = self.nf.tree(r as int);
        let ghost h = pow2((tl.size() - 1) as nat) as int;
        let ul = self.nf.get_quad(l, 0, 1);
        let ur = self.nf.get_quad(r, 0, 0);
        let ll = self.nf.get_quad(l, 1, 1);
        let lr = self.nf.get_quad(r, 1, 0);
        let ghost q = Tree::quad(
            self.nf.tree(ul as int),
            self.nf.tree(ur as int),
            self.nf.tree(ll as int),
            self.nf.tree(lr as int),
        );
        let res = self.nf.node_from(ul, ur, ll, lr);
        proof {
            reveal(shifted);
            assert forall|x: int, y: int| 0 <= x < 2 * h && 0 <= y < 2 * h implies #[trigger]
                self.nf.tree(res as int).alive(x, y) == if y < h {
                    tl.alive(x, y + h)
                } else {
                    tr.alive(x, y - h)
                } by {
                assert(self.nf.tree(res as int).alive(x, y) == q.alive(x, y));
                if x < h {
                    if y < h {
                        assert(q.alive(x, y) == self.nf.tree(ul as int).alive(x, y));
                    } else {
                        assert(q.alive(x, y) == self.nf.tree(ur as int).alive(x, y - h));
                    }
                } else {
                    if y < h {
                        assert(q.alive(x, y) == self.nf.tree(ll as int).alive(x - h, y));
                    } else {
                        assert(q.alive(x, y) == self.nf.tree(lr as int).alive(x - h, y - h));
                    }
                }
            }
        }
        res
    }

    /// The node straddling the border between two stacked nodes.
    fn combine_top_bottom(&mut self, t: usize, b: usize) -> (res: usize)
        requires
            old(self).nf.wf(),
            t < old(self).nf.len(),
            b < old(self).nf.len(),
            old(self).nf.tree(b as int).size() == old(self).nf.tree(t as int).size(),
            1 <= old(self).nf.tree(t as int).size() <= MAX_SIZE,
        ensures
            final(self).nf.wf(),
            final(self).nf.extends(&old(self).nf),
            res < final(self).nf.len(),
            final(self).nf.tree(res as int).size() == old(self).nf.tree(t as int).size(),
            ({
                let h = pow2((old(self).nf.tree(t as int).size() - 1) as nat) as int;
                forall|x: int, y: int|
                    0 <= x < 2 * h && 0 <= y < 2 * h ==> #[trigger] final(self).nf.tree(
                        res as int,
                    ).alive(x, y) == if x < h {
                        old(self).nf.tree(t as int).alive(x + h, y)
                    } else {
                        old(self).nf.tree(b as int).alive(x - h, y)
                    }
            }),
    {
        let ghost tt = self.nf.tree(t as int);
        let ghost tb = self.nf.tree(b as int);
        let ghost h = pow2((tt.size() - 1) as nat) as int;
        let ul = self.nf.get_quad(t, 1, 0);
        let ur = self.nf.get_quad(t, 1, 1);
        let ll = self.nf.get_quad(b, 0, 0);
        let lr = self.nf.get_quad(b, 0, 1);
        let ghost q = Tree::quad(
            self.nf.tree(ul as int),
            self.nf.tree(ur as int),
            self.nf.tree(ll as int),
            self.nf.tree(lr as int),
        );
        let res = self.nf.node_from(ul, ur, ll, lr);
        proof {
            reveal(shifted);
            assert forall|x: int, y: int| 0 <= x < 2 * h && 0 <= y < 2 * h implies #[trigger]
                self.nf.tree(res as int).alive(x, y) == if x < h {
                    tt.alive(x + h, y)
                } else {
                    tb.alive(x - h, y)
                } by {
                assert(self.nf.tree(res as int).alive(x, y) == q.alive(x, y));
                if x < h {
                    if y < h {
                        assert(q.alive(x, y) == self.nf.tree(ul as int).alive(x, y));
                    } else {
                        assert(q.alive(x, y) == self.nf.tree(ur as int).alive(x, y - h));
                    }
                } else {
                    if y < h {
                        assert(q.alive(x, y) == self.nf.tree(ll as int).alive(x - h, y));
                    } else {
                        assert(q.alive(x, y) == self.nf.tree(lr as int).alive(x - h, y - h));
                    }
                }
            }
        }
        res
    }

    /// The square centered on the meeting point of a two-by-two block of
    /// equal nodes, of their size.
    fn center_of(&mut self, a: usize, b: usize, c: usize, d: usize) -> (res: usize)
        requires
            old(self).nf.wf(),
            a < old(self).nf.len(),
            b < old(self).nf.len(),
            c < old(self).nf.len(),
            d < old(self).nf.len(),
            old(self).nf.tree(b as int).size() == old(self).nf.tree(a as int).size(),
            old(self).nf.tree(c as int).size() == old(self).nf.tree(a as int).size(),
            old(self).nf.tree(d as int).size() == old(self).nf.tree(a as int).size(),
            1 <= old(self).nf.tree(a as int).size() <= MAX_SIZE,
        ensures
            final(self).nf.wf(),
            final(self).nf.extends(&old(self).nf),
            res < final(self).nf.len(),
            final(self).nf.tree(res as int).size() == old(self).nf.tree(a as int).size(),
            ({
                let hh = pow2((old(self).nf.tree(a as int).size() - 1) as nat) as int;
                shifted(
                    final(self).nf.tree(res as int),
                    Tree::quad(
                        old(self).nf.tree(a as int),
                        old(self).nf.tree(b as int),
                        old(self).nf.tree(c as int),
                        old(self).nf.tree(d as int),
                    ),
                    hh,
                    hh,
                )
            }),
    {
        let ghost ta = self.nf.tree(a as int);
        let ghost tb = self.nf.tree(b as int);
        let ghost tc = self.nf.tree(c as int);
        let ghost td = self.nf.tree(d as int);
        let ghost big = Tree::quad(ta, tb, tc, td);
        let ghost hh = pow2((ta.size() - 1) as nat) as int;
        proof {
            lemma_pow2_succ((ta.size() - 1) as nat);
        }
        let ul = self.nf.get_quad(a, 1, 1);
        let ur = self.nf.get_quad(b, 1, 0);
        let ll = self.nf.get_quad(c, 0, 1);
        let lr = self.nf.get_quad(d, 0, 0);
        let ghost q = Tree::quad(
            self.nf.tree(ul as int),
            self.nf.tree(ur as int),
            self.nf.tree(ll as int),
            self.nf.tree(lr as int),
        );
        let res = self.nf.node_from(ul, ur, ll, lr);
        proof {
            reveal(shifted);
            let t = self.nf.tree(res as int);
            assert forall|x: int, y: int| 0 <= x < t.side() && 0 <= y < t.side() implies #[trigger]
                t.alive(x, y) == big.alive(x + hh, y + hh) by {
                assert(t.alive(x, y) == q.alive(x, y));
                if x < hh {
                    if y < hh {
                        assert(q.alive(x, y) == self.nf.tree(ul as int).alive(x, y));
                        assert(big.alive(x + hh, y + hh) == ta.alive(x + hh, y + hh));
                    } else {
                        assert(q.alive(x, y) == self.nf.tree(ur as int).alive(x, y - hh));
                        assert(big.alive(x + hh, y + hh) == tb.alive(x + hh, y - hh));
                    }
                } else {
                    if y < hh {
                        assert(q.alive(x, y) == self.nf.tree(ll as int).alive(x - hh, y));
                        assert(big.alive(x + hh, y + hh) == tc.alive(x - hh, y + hh));
                    } else {
                        assert(q.alive(x, y) == self.nf.tree(lr as int).alive(x - hh, y - hh));
                        assert(big.alive(x + hh, y + hh) == td.alive(x - hh, y - hh));
                    }
                }
            }
        }
        res
    }

    /// Puts the nine sub-results back together: the center of their
    /// three-by-three mosaic, twice their side.
    fn combine_results(
        &mut self,
        ul: usize,
        um: usize,
        ur: usize,
        ml: usize,
        mm: usize,
        mr: usize,
        ll: usize,
        lm: usize,
        lr: usize,
    ) -> (res: usize)
        requires
            old(self).nf.wf(),
            ul < old(self).nf.len(),
            um < old(self).nf.len(),
            ur < old(self).nf.len(),
            ml < old(self).nf.len(),
            mm < old(self).nf.len(),
            mr < old(self).nf.len(),
            ll < old(self).nf.len(),
            lm < old(self).nf.len(),
            lr < old(self).nf.len(),
            old(self).nf.tree(um as int).size() == old(self).nf.tree(ul as int).size(),
            old(self).nf.tree(ur as int).size() == old(self).nf.tree(ul as int).size(),
            old(self).nf.tree(ml as int).size() == old(self).nf.tree(ul as int).size(),
            old(self).nf.tree(mm as int).size() == old(self).nf.tree(ul as int).size(),
            old(self).nf.tree(mr as int).size() == old(self).nf.tree(ul as int).size(),
            old(self).nf.tree(ll as int).size() == old(self).nf.tree(ul as int).size(),
            old(self).nf.tree(lm as int).size() == old(self).nf.tree(ul as int).size(),
            old(self).nf.tree(lr as int).size() == old(self).nf.tree(ul as int).size(),
            1 <= old(self).nf.tree(ul as int).size() < MAX_SIZE,
        ensures
            final(self).nf.wf(),
            final(self).nf.extends(&old(self).nf),
            res < final(self).nf.len(),
            final(self).nf.tree(res as int).size() == old(self).nf.tree(ul as int).size() + 1,
            ({
                let side = pow2(old(self).nf.tree(ul as int).size()) as int;
                let hh = pow2((old(self).nf.tree(ul as int).size() - 1) as nat) as int;
                let tiles = seq![
                    old(self).nf.tree(ul as int),
                    old(self).nf.tree(um as int),
                    old(self).nf.tree(ur as int),
                    old(self).nf.tree(ml as int),
                    old(self).nf.tree(mm as int),
                    old(self).nf.tree(mr as int),
                    old(self).nf.tree(ll as int),
                    old(self).nf.tree(lm as int),
                    old(self).nf.tree(lr as int),
                ];
                forall|x: int, y: int|
                    0 <= x < 2 * side && 0 <= y < 2 * side ==> #[trigger] final(self).nf.tree(
                        res as int,
                    ).alive(x, y) == mosaic(tiles, side, x + hh, y + hh)
            }),
    {
        let ghost tiles = seq![
            self.nf.tree(ul as int),
            self.nf.tree(um as int),
            self.nf.tree(ur as int),
            self.nf.tree(ml as int),
            self.nf.tree(mm as int),
            self.nf.tree(mr as int),
            self.nf.tree(ll as int),
            self.nf.tree(lm as int),
            self.nf.tree(lr as int),
        ];
        let ghost side = pow2(tiles[0].size()) as int;
        let ghost hh = pow2((tiles[0].size() - 1) as nat) as int;
        proof {
            lemma_pow2_succ((tiles[0].size() - 1) as nat);
            lemma_pow2_pos((tiles[0].size() - 1) as nat);
        }
        let new_ul = self.center_of(ul, um, ml, mm);
        let ghost t_ul = self.nf.tree(new_ul as int);
        let new_ur = self.center_of(um, ur, mm, mr);
        let ghost t_ur = self.nf.tree(new_ur as int);
        let new_ll = self.center_of(ml, mm, ll, lm);
        let ghost t_ll = self.nf.tree(new_ll as int);
        let new_lr = self.center_of(mm, mr, lm, lr);
        proof {
            assert(self.nf.tree(new_ll as int) == t_ll);
            assert(self.nf.tree(new_ur as int) == t_ur);
            assert(self.nf.tree(new_ul as int) == t_ul);
        }
        let ghost q = Tree::quad(
            self.nf.tree(new_ul as int),
            self.nf.tree(new_ur as int),
            self.nf.tree(new_ll as int),
            self.nf.tree(new_lr as int),
        );
        let res = self.nf.node_from(new_ul, new_ur, new_ll, new_lr);
        proof {
            reveal(shifted);
            let t = self.nf.tree(res as int);
            let b0 = Tree::quad(tiles[0], tiles[1], tiles[3], tiles[4]);
            let b1 = Tree::quad(tiles[1], tiles[2], tiles[4], tiles[5]);
            let b2 = Tree::quad(tiles[3], tiles[4], tiles[6], tiles[7]);
            let b3 = Tree::quad(tiles[4], tiles[5], tiles[7], tiles[8]);
            assert forall|x: int, y: int| 0 <= x < 2 * side && 0 <= y < 2 * side implies #[trigger]
                t.alive(x, y) == mosaic(tiles, side, x + hh, y + hh) by {
                assert(t.alive(x, y) == q.alive(x, y));
                if x < side {
                    if y < side {
                        assert(q.alive(x, y) == t_ul.alive(x, y));
                        assert(t_ul.side() == side);
                        assert(t_ul.alive(x, y) == b0.alive(x + hh, y + hh));
                    } else {
                        assert(q.alive(x, y) == t_ur.alive(x, y - side));
                        assert(t_ur.side() == side);
                        assert(t_ur.alive(x, y - side) == b1.alive(x + hh, y - side + hh));
                    }
                } else {
                    if y < side {
                        assert(q.alive(x, y) == t_ll.alive(x - side, y));
                        assert(t_ll.side() == side);
                        assert(t_ll.alive(x - side, y) == b2.alive(x - side + hh, y + hh));
                    } else {
                        let t_lr = self.nf.tree(new_lr as int);
                        assert(q.alive(x, y) == t_lr.alive(x - side, y - side));
                        assert(t_lr.side() == side);
                        assert(t_lr.alive(x - side, y - side) == b3.alive(
                            x - side + hh,
                            y - side + hh,
                        ));
                    }
                }
            }
        }
        res
    }

    /// The nine windows of a node of size at least 3, row by row: each of
    /// its size less one, at offsets of a quarter side.
    fn windows(&mut self, node: usize) -> (w: (usize, usize, usize, usize, usize, usize, usize, usize, usize))
        requires
            old(self).nf.wf(),
            node < old(self).nf.len(),
            3 <= old(self).nf.tree(node as int).size() <= MAX_SIZE,
        ensures
            final(self).nf.wf(),
            final(self).nf.extends(&old(self).nf),
            ({
                let tn = old(self).nf.tree(node as int);
                let f = final(self).nf;
                let q = pow2((tn.size() - 2) as nat) as int;
                &&& w.0 < f.len() && w.1 < f.len() && w.2 < f.len()
                &&& w.3 < f.len() && w.4 < f.len() && w.5 < f.len()
                &&& w.6 < f.len() && w.7 < f.len() && w.8 < f.len()
                &&& f.tree(w.0 as int).size() + 1 == tn.size()
                &&& f.tree(w.1 as int).size() + 1 == tn.size()
                &&& f.tree(w.2 as int).size() + 1 == tn.size()
                &&& f.tree(w.3 as int).size() + 1 == tn.size()
                &&& f.tree(w.4 as int).size() + 1 == tn.size()
                &&& f.tree(w.5 as int).size() + 1 == tn.size()
                &&& f.tree(w.6 as int).size() + 1 == tn.size()
                &&& f.tree(w.7 as int).size() + 1 == tn.size()
                &&& f.tree(w.8 as int).size() + 1 == tn.size()
                &&& shifted(f.tree(w.0 as int), tn, 0, 0)
                &&& shifted(f.tree(w.1 as int), tn, 0, q)
                &&& shifted(f.tree(w.2 as int), tn, 0, 2 * q)
                &&& shifted(f.tree(w.3 as int), tn, q, 0)
                &&& shifted(f.tree(w.4 as int), tn, q, q)
                &&& shifted(f.tree(w.5 as int), tn, q, 2 * q)
                &&& shifted(f.tree(w.6 as int), tn, 2 * q, 0)
                &&& shifted(f.tree(w.7 as int), tn, 2 * q, q)
                &&& shifted(f.tree(w.8 as int), tn, 2 * q, 2 * q)
            }),
    {
        let ghost tn = self.nf.tree(node as int);
        let ghost k = tn.size();
        let ghost q = pow2((k - 2) as nat) as int;
        proof {
            lemma_pow2_succ((k - 2) as nat);
            lemma_pow2_succ((k - 1) as nat);
        }
        let ul_quad = self.nf.get_quad(node, 0, 0);
        let ur_quad = self.nf.get_quad(node, 0, 1);
        let ll_quad = self.nf.get_quad(node, 1, 0);
        let lr_quad = self.nf.get_quad(node, 1, 1);
        let ghost ta = self.nf.tree(ul_quad as int);
        let ghost tb = self.nf.tree(ur_quad as int);
        let ghost tc = self.nf.tree(ll_quad as int);
        let ghost td = self.nf.tree(lr_quad as int);
        proof {
            assert(shifted(ta, tn, 0, 0));
            assert(shifted(tb, tn, 0, 2 * q));
            assert(shifted(tc, tn, 2 * q, 0));
            assert(shifted(td, tn, 2 * q, 2 * q));
        }

        let um = self.combine_left_right(ul_quad, ur_quad);
        let ghost t_um = self.nf.tree(um as int);
        proof {
            lemma_left_right(t_um, ta, tb, tn, q, 0, 0);
        }
        let lm = self.combine_left_right(ll_quad, lr_quad);
        let ghost t_lm = self.nf.tree(lm as int);
        proof {
            lemma_left_right(t_lm, tc, td, tn, q, 2 * q, 0);
        }
        let ml = self.combine_top_bottom(ul_quad, ll_quad);
        let ghost t_ml = self.nf.tree(ml as int);
        proof {
            lemma_top_bottom(t_ml, ta, tc, tn, q, 0, 0);
        }
        let mr = self.combine_top_bottom(ur_quad, lr_quad);
        let ghost t_mr = self.nf.tree(mr as int);
        proof {
            lemma_top_bottom(t_mr, tb, td, tn, q, 0, 2 * q);
        }
        let mm = self.combine_top_bottom(um, lm);
        let ghost t_mm = self.nf.tree(mm as int);
        proof {
            lemma_top_bottom(t_mm, t_um, t_lm, tn, q, 0, q);
        }

        proof {
            assert(self.nf.tree(ul_quad as int) == ta);
            assert(self.nf.tree(ur_quad as int) == tb);
            assert(self.nf.tree(ll_quad as int) == tc);
            assert(self.nf.tree(lr_quad as int) == td);
            assert(self.nf.tree(um as int) == t_um);
            assert(self.nf.tree(lm as int) == t_lm);
            assert(self.nf.tree(ml as int) == t_ml);
            assert(self.nf.tree(mr as int) == t_mr);
        }
        (ul_quad, um, ur_quad, ml, mm, mr, ll_quad, lm, lr_quad)
    }

    /// The center half of `node`, one generation later: HashLife's
    /// recursion over nine overlapping windows, memoized on node identity.
    #[verifier::spinoff_prover]
    #[verifier::rlimit(100)]
    fn get_result(&mut self, node: usize) -> (r: usize)
        requires
            old(self).nf.wf(),
            node < old(self).nf.len(),
            2 <= old(self).nf.tree(node as int).size() <= MAX_SIZE,
        ensures
            final(self).nf.wf(),
            final(self).nf.extends(&old(self).nf),
            r < final(self).nf.len(),
            final(self).nf.tree(r as int).size() + 1 == old(self).nf.tree(node as int).size(),
            is_result(old(self).nf.tree(node as int), final(self).nf.tree(r as int)),
        decreases old(self).nf.tree(node as int).size(),
    {
        let ghost tn = self.nf.tree(node as int);
        let n = self.nf.get_node(node);
        proof {
            self.nf.lemma_node(node as int);
        }
        if let Node::Empty(size) = n {
            let r = self.nf.get_empty(size - 1);
            proof {
                reveal(is_result);
                assert forall|x: int, y: int|
                    0 <= x < self.nf.tree(r as int).side() && 0 <= y < self.nf.tree(
                        r as int,
                    ).side() implies #[trigger] self.nf.tree(r as int).alive(x, y) == next_alive(
                    tn,
                    x + pow2((tn.size() - 2) as nat),
                    y + pow2((tn.size() - 2) as nat),
                ) by {}
            }
            return r;
        }
        if let Some(r) = self.nf.get_result(node) {
            proof {
                reveal(is_result);
            }
            return r;
        }
        if n.get_size() == 2 {
            return self.apply_rule(node);
        }
        let ghost k = tn.size();
        let ghost q = pow2((k - 2) as nat) as int;
        let ghost qq = pow2((k - 3) as nat) as int;
        proof {
            lemma_pow2_succ((k - 3) as nat);
            lemma_pow2_succ((k - 2) as nat);
            lemma_pow2_succ((k - 1) as nat);
            lemma_pow2_pos((k - 3) as nat);
        }
        let (ul_quad, um, ur_quad, ml, mm, mr, ll_quad, lm, lr_quad) = self.windows(node);
        let ghost ta = self.nf.tree(ul_quad as int);
        let ghost tb = self.nf.tree(ur_quad as int);
        let ghost tc = self.nf.tree(ll_quad as int);
        let ghost td = self.nf.tree(lr_quad as int);
        let ghost t_um = self.nf.tree(um as int);
        let ghost t_lm = self.nf.tree(lm as int);
        let ghost t_ml = self.nf.tree(ml as int);
        let ghost t_mr = self.nf.tree(mr as int);
        let ghost t_mm = self.nf.tree(mm as int);

        let ul_result = self.get_result(ul_quad);
        let ghost r0 = self.nf.tree(ul_result as int);
        proof {
            lemma_window_result(tn, ta, r0, 0, 0);
        }
        let um_result = self.get_result(um);
        let ghost r1 = self.nf.tree(um_result as int);
        proof {
            lemma_window_result(tn, t_um, r1, 0, q);
        }
        let ur_result = self.get_result(ur_quad);
        let ghost r2 = self.nf.tree(ur_result as int);
        proof {
            lemma_window_result(tn, tb, r2, 0, 2 * q);
        }
        let ml_result = self.get_result(ml);
        let ghost r3 = self.nf.tree(ml_result as int);
        proof {
            lemma_window_result(tn, t_ml, r3, q, 0);
        }
        let mm_result = self.get_result(mm);
        let ghost r4 = self.nf.tree(mm_result as int);
        proof {
            lemma_window_result(tn, t_mm, r4, q, q);
        }
        let mr_result = self.get_result(mr);
        let ghost r5 = self.nf.tree(mr_result as int);
        proof {
            lemma_window_result(tn, t_mr, r5, q, 2 * q);
        }
        let ll_result = self.get_result(ll_quad);
        let ghost r6 = self.nf.tree(ll_result as int);
        proof {
            lemma_window_result(tn, tc, r6, 2 * q, 0);
        }
        let lm_result = self.get_result(lm);
        let ghost r7 = self.nf.tree(lm_result as int);
        proof {
            lemma_window_result(tn, t_lm, r7, 2 * q, q);
        }
        let lr_result = self.get_result(lr_quad);
        let ghost r8 = self.nf.tree(lr_result as int);
        proof {
            lemma_window_result(tn, td, r8, 2 * q, 2 * q);
            assert(self.nf.tree(ul_result as int) == r0);
            assert(self.nf.tree(um_result as int) == r1);
            assert(self.nf.tree(ur_result as int) == r2);
            assert(self.nf.tree(ml_result as int) == r3);
            assert(self.nf.tree(mm_result as int) == r4);
            assert(self.nf.tree(mr_result as int) == r5);
            assert(self.nf.tree(ll_result as int) == r6);
            assert(self.nf.tree(lm_result as int) == r7);
        }

        let final_result = self.combine_results(
            ul_result,
            um_result,
            ur_result,
            ml_result,
            mm_result,
            mr_result,
            ll_result,
            lm_result,
            lr_result,
        );
        proof {
            lemma_assemble(seq![r0, r1, r2, r3, r4, r5, r6, r7, r8], tn, self.nf.tree(final_result as int));
        }
        self.nf.cache_result(node, final_result);
        final_result
    }
}

} // verus!
