//! The universe as a host sees it: a square of side `2^levels` whose central
//! half is visible, and a byte buffer that always shows that visible half.
use vstd::prelude::*;
use vstd::arithmetic::div_mod::{lemma_fundamental_div_mod, lemma_fundamental_div_mod_converse};
use crate::cell::Leaf;
use crate::cell_manager::CellManager;
use crate::quadtree::{Tree, is_next, toggled, pow2, half_side, lemma_pow2_le, lemma_pow2_pos, lemma_pow2_succ};

verus! {

/// The largest number of levels: the linear index of a cell must fit in `u32`.
pub const MAX_LEVELS: u32 = 16;

/// A cell as a byte of the buffer.
pub open spec fn byte_of(alive: bool) -> u8 {
    if alive {
        1
    } else {
        0
    }
}

proof fn lemma_pow2_16()
    ensures
        pow2(16) == 65536,
{
    reveal_with_fuel(pow2, 17);
}

/// A universe and the buffer of its visible half.
pub struct Universe {
    levels: u32,
    /// Side of the universe: `2^levels`.
    width: u32,
    /// Side of the visible half: `2^(levels - 1)`.
    visible_width: u32,
    /// The visible cells, row after row, one byte each: 1 alive, 0 dead.
    cells: Vec<u8>,
    cell_manager: CellManager,
}

impl Universe {
    /// All the cells of the universe.
    pub closed spec fn grid(&self) -> Tree {
        self.cell_manager.grid()
    }

    /// The buffer handed to the host.
    pub closed spec fn buffer(&self) -> Seq<u8> {
        self.cells@
    }

    pub closed spec fn spec_levels(&self) -> nat {
        self.levels as nat
    }

    pub open spec fn side(&self) -> int {
        pow2(self.spec_levels()) as int
    }

    pub open spec fn visible_side(&self) -> int {
        pow2((self.spec_levels() - 1) as nat) as int
    }

    /// Row and column of the universe where the visible half starts.
    pub open spec fn margin(&self) -> int {
        self.side() / 4
    }

    /// The visible cell in row `vx`, column `vy`.
    pub open spec fn visible(&self, vx: int, vy: int) -> bool {
        self.grid().alive(vx + self.margin(), vy + self.margin())
    }

    /// The buffer shows the visible half, row after row.
    pub open spec fn shows(&self) -> bool {
        let vw = self.visible_side();
        &&& self.buffer().len() == vw * vw
        &&& forall|j: int|
            0 <= j < vw * vw ==> #[trigger] self.buffer()[j] == byte_of(
                self.visible(j / vw, j % vw),
            )
    }

    /// The invariant, but for what the buffer holds.
    pub closed spec fn sized(&self) -> bool {
        &&& self.cell_manager.wf()
        &&& self.cell_manager.levels() == self.levels
        &&& 1 <= self.levels <= MAX_LEVELS
        &&& self.width == pow2(self.levels as nat)
        &&& self.visible_width == pow2((self.levels - 1) as nat)
        &&& self.cells@.len() == self.visible_width * self.visible_width
    }

    /// The invariant.
    pub closed spec fn wf(&self) -> bool {
        self.sized() && self.shows()
    }

    proof fn lemma_sizes(&self)
        requires
            self.sized(),
        ensures
            self.width == 2 * self.visible_width,
            1 <= self.visible_width <= 32768,
            self.width <= 65536,
            self.visible_width * self.visible_width <= 0x4000_0000,
            self.width / 4 + self.visible_width <= self.width,
            self.grid().side() == self.width,
    {
        lemma_pow2_succ((self.levels - 1) as nat);
        lemma_pow2_le(self.levels as nat, 16);
        lemma_pow2_pos((self.levels - 1) as nat);
        lemma_pow2_16();
        let vw = self.visible_width as int;
        assert(vw * vw <= 32768 * 32768) by (nonlinear_arith)
            requires
                1 <= vw <= 32768,
        ;
    }

    /// A universe of side `2^levels` with every cell dead.
    pub fn new(levels: u32) -> (r: Self)
        requires
            1 <= levels <= MAX_LEVELS,
        ensures
            r.wf(),
            r.spec_levels() == levels,
            r.grid() == Tree::Blank(levels as nat),
    {
        proof {
            lemma_pow2_le(levels as nat, 16);
            lemma_pow2_16();
            lemma_pow2_succ((levels - 1) as nat);
            lemma_pow2_pos((levels - 1) as nat);
        }
        let width = half_side(levels + 1) as u32;
        let visible_width = half_side(levels) as u32;
        proof {
            let vw = visible_width as int;
            assert(vw * vw <= 32768 * 32768) by (nonlinear_arith)
                requires
                    1 <= vw <= 32768,
            ;
        }
        let n = visible_width * visible_width;
        let mut cells: Vec<u8> = Vec::new();
        let mut i: u32 = 0;
        while i < n
            invariant
                i <= n,
                cells@.len() == i,
                forall|j: int| 0 <= j < i ==> #[trigger] cells@[j] == 0,
            decreases n - i,
        {
            cells.push(0);
            i = i + 1;
        }
        Universe { levels, width, visible_width, cells, cell_manager: CellManager::setup(levels) }
    }

    /// Side of the visible half.
    pub fn visible_width(&self) -> (r: u32)
        requires
            self.wf(),
        ensures
            r == self.visible_side(),
    {
        self.visible_width
    }

    /// Viewport coordinates of a cell of the universe.
    pub fn to_viewport(&self, x: u32, y: u32) -> (r: (u32, u32))
        requires
            self.wf(),
            x >= self.margin(),
            y >= self.margin(),
        ensures
            r.0 == x - self.margin(),
            r.1 == y - self.margin(),
    {
        (x - self.width / 4, y - self.width / 4)
    }

    /// Universe coordinates of a cell of the viewport.
    pub fn to_universe(&self, x: u32, y: u32) -> (r: (u32, u32))
        requires
            self.wf(),
            x < self.visible_side(),
            y < self.visible_side(),
        ensures
            r.0 == x + self.margin(),
            r.1 == y + self.margin(),
            r.0 < self.side(),
            r.1 < self.side(),
    {
        proof {
            self.lemma_sizes();
        }
        (x + self.width / 4, y + self.width / 4)
    }

    /// Index in the buffer of a cell of the viewport.
    pub fn to_linear_viewport(&self, x: u32, y: u32) -> (r: u32)
        requires
            self.wf(),
            x < self.visible_side(),
            y < self.visible_side(),
        ensures
            r == x * self.visible_side() + y,
            r < self.visible_side() * self.visible_side(),
    {
        proof {
            self.lemma_sizes();
            let vw = self.visible_width as int;
            assert(x * vw + y < vw * vw) by (nonlinear_arith)
                requires
                    x < vw,
                    y < vw,
            ;
        }
        self.visible_width * x + y
    }

    /// Row-major index of a cell of the universe.
    pub fn to_linear_universe(&self, x: u32, y: u32) -> (r: u32)
        requires
            self.wf(),
            x < self.side(),
            y < self.side(),
        ensures
            r == x * self.side() + y,
    {
        proof {
            self.lemma_sizes();
            let w = self.width as int;
            assert(x * w + y < w * w) by (nonlinear_arith)
                requires
                    x < w,
                    y < w,
            ;
            assert(w * w <= 65536 * 65536) by (nonlinear_arith)
                requires
                    1 <= w <= 65536,
            ;
        }
        self.width * x + y
    }

    /// Copies the visible half of the universe into the buffer.
    pub fn sync_to_buf(&mut self)
        requires
            old(self).sized(),
        ensures
            final(self).wf(),
            final(self).grid() == old(self).grid(),
            final(self).spec_levels() == old(self).spec_levels(),
    {
        proof {
            self.lemma_sizes();
        }
        let vw = self.visible_width;
        let n = vw * vw;
        let mut i: u32 = 0;
        while i < n
            invariant
                self.sized(),
                self.grid() == old(self).grid(),
                self.spec_levels() == old(self).spec_levels(),
                vw == self.visible_width,
                n == vw * vw,
                i <= n,
                forall|j: int|
                    0 <= j < i ==> #[trigger] self.cells@[j] == byte_of(
                        self.visible(j / vw as int, j % vw as int),
                    ),
            decreases n - i,
        {
            proof {
                self.lemma_sizes();
                lemma_fundamental_div_mod(i as int, vw as int);
                assert(i / vw < vw) by (nonlinear_arith)
                    requires
                        i < vw * vw,
                        vw > 0,
                ;
            }
            let vx = i / vw;
            let vy = i % vw;
            let x = vx + self.width / 4;
            let y = vy + self.width / 4;
            let s = self.cell_manager.state_at(x, y);
            let b: u8 = if s == Leaf::Alive {
                1
            } else {
                0
            };
            self.cells.set(i as usize, b);
            i = i + 1;
        }
    }

    /// Flips the cell in row `x`, column `y` of the viewport.
    pub fn toggle(&mut self, x: u32, y: u32)
        requires
            old(self).wf(),
            x < old(self).visible_side(),
            y < old(self).visible_side(),
        ensures
            final(self).wf(),
            final(self).spec_levels() == old(self).spec_levels(),
            toggled(
                final(self).grid(),
                old(self).grid(),
                x + old(self).margin(),
                y + old(self).margin(),
            ),
    {
        proof {
            self.lemma_sizes();
        }
        let (nx, ny) = self.to_universe(x, y);
        let index = self.to_linear_viewport(x, y);
        let ghost prev = self.cells@;
        self.cell_manager.toggle(nx, ny);
        if self.cells[index as usize] == 1 {
            self.cells.set(index as usize, 0);
        } else {
            self.cells.set(index as usize, 1);
        }
        proof {
            let vw = self.visible_width as int;
            lemma_fundamental_div_mod_converse(index as int, vw, x as int, y as int);
            assert forall|j: int| 0 <= j < vw * vw implies #[trigger] self.cells@[j] == byte_of(
                self.visible(j / vw, j % vw),
            ) by {
                assert(prev[j] == byte_of(old(self).visible(j / vw, j % vw)));
                if j != index {
                    lemma_fundamental_div_mod(j, vw);
                    if j / vw == x && j % vw == y {
                        assert(vw * (j / vw) == x * vw) by (nonlinear_arith)
                            requires
                                j / vw == x,
                        ;
                    }
                }
            }
        }
    }

    /// Advances the universe by one generation and refreshes the buffer.
    pub fn tick(&mut self)
        requires
            old(self).wf(),
        ensures
            final(self).wf(),
            final(self).spec_levels() == old(self).spec_levels(),
            is_next(final(self).grid(), old(self).grid()),
    {
        self.cell_manager.step();
        self.sync_to_buf();
    }

    /// The buffer: the visible cells, row after row.
    pub fn get_cells(&self) -> (r: &Vec<u8>)
        ensures
            r@ == self.buffer(),
    {
        &self.cells
    }

    /// The state of the cell in row `x`, column `y` of the universe.
    pub fn state_at(&self, x: u32, y: u32) -> (r: Leaf)
        requires
            self.wf(),
            x < self.side(),
            y < self.side(),
        ensures
            r.is_alive() == self.grid().alive(x as int, y as int),
    {
        proof {
            self.lemma_sizes();
        }
        self.cell_manager.state_at(x, y)
    }

    /// Kills every cell.
    pub fn reset(&mut self)
        requires
            old(self).wf(),
        ensures
            final(self).wf(),
            final(self).spec_levels() == old(self).spec_levels(),
            final(self).grid() == Tree::Blank(old(self).spec_levels()),
    {
        proof {
            self.lemma_sizes();
        }
        let n = self.visible_width * self.visible_width;
        let mut i: u32 = 0;
        while i < n
            invariant
                self.sized(),
                self.spec_levels() == old(self).spec_levels(),
                n == self.visible_width * self.visible_width,
                i <= n,
            decreases n - i,
        {
            self.cells.set(i as usize, 0);
            i = i + 1;
        }
        self.cell_manager.reset(self.levels);
        self.sync_to_buf();
    }
}

} // verus!
