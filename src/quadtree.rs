//! The mathematical model of a quadtree region and of Conway's rule.
//!
//! Coordinates follow one convention everywhere: `x` selects the row
//! (upper or lower half) and `y` the column (left or right half), with
//! `(0, 0)` the top-left cell.
use vstd::prelude::*;

verus! {

/// Two to the power `n`.
pub open spec fn pow2(n: nat) -> nat
    decreases n,
{
    if n == 0 {
        1
    } else {
        2 * pow2((n - 1) as nat)
    }
}

/// The region that a node stands for.
pub enum Tree {
    /// A single cell, alive or dead.
    Cell(bool),
    /// An all-dead square of side `2^k`.
    Blank(nat),
    /// Four quadrants: upper-left, upper-right, lower-left, lower-right.
    Quad(Box<Tree>, Box<Tree>, Box<Tree>, Box<Tree>),
}

impl Tree {
    /// log2 of the side.
    pub open spec fn size(self) -> nat
        decreases self,
    {
        match self {
            Tree::Cell(_) => 0,
            Tree::Blank(k) => k,
            Tree::Quad(ul, _, _, _) => ul.size() + 1,
        }
    }

    pub open spec fn side(self) -> nat {
        pow2(self.size())
    }

    /// Whether the cell at `(x, y)` is alive; every cell outside the square is dead.
    pub open spec fn alive(self, x: int, y: int) -> bool
        decreases self,
    {
        match self {
            Tree::Cell(b) => b && x == 0 && y == 0,
            Tree::Blank(_) => false,
            Tree::Quad(ul, ur, ll, lr) => {
                let h = pow2(ul.size()) as int;
                if x < 0 || y < 0 || x >= 2 * h || y >= 2 * h {
                    false
                } else if x < h {
                    if y < h {
                        ul.alive(x, y)
                    } else {
                        ur.alive(x, y - h)
                    }
                } else {
                    if y < h {
                        ll.alive(x - h, y)
                    } else {
                        lr.alive(x - h, y - h)
                    }
                }
            },
        }
    }

    /// The tree is a dead leaf or a blank square.
    pub open spec fn is_dead(self) -> bool {
        match self {
            Tree::Cell(b) => !b,
            Tree::Blank(_) => true,
            Tree::Quad(..) => false,
        }
    }

    pub open spec fn quad(ul: Tree, ur: Tree, ll: Tree, lr: Tree) -> Tree {
        Tree::Quad(Box::new(ul), Box::new(ur), Box::new(ll), Box::new(lr))
    }
}

/// The canonical all-dead region of size `k`: the dead leaf when `k` is 0.
pub open spec fn empty_tree(k: nat) -> Tree {
    if k == 0 {
        Tree::Cell(false)
    } else {
        Tree::Blank(k)
    }
}

/// Two regions hold the same cells.
pub open spec fn same_grid(a: Tree, b: Tree) -> bool {
    forall|x: int, y: int| #[trigger] a.alive(x, y) == b.alive(x, y)
}

/// Every cell of `r` equals the cell of `n` at offset `(ox, oy)`.
#[verifier::opaque]
pub open spec fn shifted(r: Tree, n: Tree, ox: int, oy: int) -> bool {
    forall|x: int, y: int|
        0 <= x < r.side() && 0 <= y < r.side() ==> #[trigger] r.alive(x, y) == n.alive(
            x + ox,
            y + oy,
        )
}

pub open spec fn count(b: bool) -> int {
    if b {
        1
    } else {
        0
    }
}

/// The number of live cells among the eight around `(x, y)`.
pub open spec fn live_neighbors(t: Tree, x: int, y: int) -> int {
    count(t.alive(x - 1, y - 1)) + count(t.alive(x - 1, y)) + count(t.alive(x - 1, y + 1))
        + count(t.alive(x, y - 1)) + count(t.alive(x, y + 1)) + count(t.alive(x + 1, y - 1))
        + count(t.alive(x + 1, y)) + count(t.alive(x + 1, y + 1))
}

/// Conway's rule B3/S23.
pub open spec fn conway(alive: bool, neighbors: int) -> bool {
    if alive {
        neighbors == 2 || neighbors == 3
    } else {
        neighbors == 3
    }
}

/// Whether the cell at `(x, y)` of `t` is alive one generation later.
pub open spec fn next_alive(t: Tree, x: int, y: int) -> bool {
    conway(t.alive(x, y), live_neighbors(t, x, y))
}

/// `r` is the center half of `n`, advanced by one generation.
#[verifier::opaque]
pub open spec fn is_result(n: Tree, r: Tree) -> bool {
    let q = pow2((n.size() - 2) as nat) as int;
    &&& n.size() >= 2
    &&& r.size() + 1 == n.size()
    &&& forall|x: int, y: int|
        0 <= x < r.side() && 0 <= y < r.side() ==> #[trigger] r.alive(x, y) == next_alive(
            n,
            x + q,
            y + q,
        )
}

pub proof fn lemma_pow2_pos(n: nat)
    ensures
        pow2(n) >= 1,
    decreases n,
{
    if n > 0 {
        lemma_pow2_pos((n - 1) as nat);
    }
}

pub proof fn lemma_pow2_succ(n: nat)
    ensures
        pow2(n + 1) == 2 * pow2(n),
{
}

/// Every cell outside a region's square is dead.
pub proof fn lemma_outside_dead(t: Tree, x: int, y: int)
    requires
        x < 0 || y < 0 || x >= t.side() || y >= t.side(),
    ensures
        !t.alive(x, y),
{
    lemma_pow2_pos(t.size());
    if let Tree::Quad(ul, _, _, _) = t {
        lemma_pow2_succ(ul.size());
    }
}

/// A dead leaf or a blank square has no live cell.
pub proof fn lemma_dead_grid(t: Tree, x: int, y: int)
    requires
        t.is_dead(),
    ensures
        !t.alive(x, y),
{
}

pub proof fn lemma_pow2_le(n: nat, m: nat)
    requires
        n <= m,
    ensures
        pow2(n) <= pow2(m),
    decreases m - n,
{
    if n < m {
        lemma_pow2_le(n, (m - 1) as nat);
        lemma_pow2_pos((m - 1) as nat);
    }
}

pub proof fn lemma_pow2_63()
    ensures
        pow2(63) == 0x8000_0000_0000_0000,
{
    reveal_with_fuel(pow2, 64);
}

/// `2^(size - 1)`: half the side of a node of the given size.
pub fn half_side(size: u32) -> (r: u64)
    requires
        1 <= size <= 64,
    ensures
        r == pow2((size - 1) as nat),
{
    let mut h: u64 = 1;
    let mut i: u32 = 1;
    while i < size
        invariant
            1 <= i <= size,
            size <= 64,
            h == pow2((i - 1) as nat),
        decreases size - i,
    {
        proof {
            lemma_pow2_le((i - 1) as nat, 62);
            lemma_pow2_succ(62);
            lemma_pow2_63();
            lemma_pow2_succ((i - 1) as nat);
        }
        h = h * 2;
        i = i + 1;
    }
    h
}

/// `r` is `t` with the cell at `(x, y)` flipped.
pub open spec fn toggled(r: Tree, t: Tree, x: int, y: int) -> bool {
    forall|a: int, b: int|
        #[trigger] r.alive(a, b) == if a == x && b == y {
            !t.alive(a, b)
        } else {
            t.alive(a, b)
        }
}

/// The region is one generation later than `t`, cell for cell.
pub open spec fn is_next(r: Tree, t: Tree) -> bool {
    &&& r.size() == t.size()
    &&& forall|x: int, y: int|
        0 <= x < t.side() && 0 <= y < t.side() ==> #[trigger] r.alive(x, y) == next_alive(t, x, y)
}

/// A node is the composition of its four quadrants.
pub proof fn lemma_quads_grid(t: Tree, q0: Tree, q1: Tree, q2: Tree, q3: Tree, h: int)
    requires
        t.side() == 2 * h,
        q0.size() + 1 == t.size(),
        q1.size() == q0.size(),
        q2.size() == q0.size(),
        q3.size() == q0.size(),
        pow2(q0.size()) == h,
        shifted(q0, t, 0, 0),
        shifted(q1, t, 0, h),
        shifted(q2, t, h, 0),
        shifted(q3, t, h, h),
    ensures
        same_grid(t, Tree::quad(q0, q1, q2, q3)),
{
    reveal(shifted);
    let q = Tree::quad(q0, q1, q2, q3);
    lemma_pow2_pos(q0.size());
    assert forall|a: int, b: int| #[trigger] t.alive(a, b) == q.alive(a, b) by {
        if a < 0 || b < 0 || a >= 2 * h || b >= 2 * h {
            lemma_outside_dead(t, a, b);
        } else if a < h {
            if b < h {
                assert(q0.alive(a, b) == t.alive(a, b));
            } else {
                assert(q1.alive(a, b - h) == t.alive(a, b));
            }
        } else {
            if b < h {
                assert(q2.alive(a - h, b) == t.alive(a, b));
            } else {
                assert(q3.alive(a - h, b - h) == t.alive(a, b));
            }
        }
    }
}

/// Flipping one cell of one quadrant flips that cell of the whole.
pub proof fn lemma_toggle_quad(
    q0: Tree,
    q1: Tree,
    q2: Tree,
    q3: Tree,
    n0: Tree,
    n1: Tree,
    n2: Tree,
    n3: Tree,
    upper: bool,
    left: bool,
    rx: int,
    ry: int,
)
    requires
        n0.size() == q0.size(),
        0 <= rx < pow2(q0.size()),
        0 <= ry < pow2(q0.size()),
        if upper && left {
            toggled(n0, q0, rx, ry)
        } else {
            n0 == q0
        },
        if upper && !left {
            toggled(n1, q1, rx, ry)
        } else {
            n1 == q1
        },
        if !upper && left {
            toggled(n2, q2, rx, ry)
        } else {
            n2 == q2
        },
        if !upper && !left {
            toggled(n3, q3, rx, ry)
        } else {
            n3 == q3
        },
    ensures
        ({
            let h = pow2(q0.size()) as int;
            toggled(
                Tree::quad(n0, n1, n2, n3),
                Tree::quad(q0, q1, q2, q3),
                if upper {
                    rx
                } else {
                    rx + h
                },
                if left {
                    ry
                } else {
                    ry + h
                },
            )
        }),
{
    let h = pow2(q0.size()) as int;
    let n = Tree::quad(n0, n1, n2, n3);
    let q = Tree::quad(q0, q1, q2, q3);
    let x = if upper {
        rx
    } else {
        rx + h
    };
    let y = if left {
        ry
    } else {
        ry + h
    };
    assert forall|a: int, b: int| #[trigger] n.alive(a, b) == if a == x && b == y {
        !q.alive(a, b)
    } else {
        q.alive(a, b)
    } by {
        if a < 0 || b < 0 || a >= 2 * h || b >= 2 * h {
        } else if a < h {
            if b < h {
                assert(n0.alive(a, b) == n.alive(a, b));
            } else {
                assert(n1.alive(a, b - h) == n.alive(a, b));
            }
        } else {
            if b < h {
                assert(n2.alive(a - h, b) == n.alive(a, b));
            } else {
                assert(n3.alive(a - h, b - h) == n.alive(a, b));
            }
        }
    }
}

} // verus!
