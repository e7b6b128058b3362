//! The color model, the opcode lookup over color transitions, color blocks
//! with their edge geometry, and the segmented program.

use vstd::prelude::*;

use crate::engine::{BinaryOp, Command, UnaryOp};
use crate::grid::Grid;
use crate::util::{Direction, Rotation};

verus! {

/// One of the six canonical hues, ordered cyclically.
#[derive(Debug, Copy, Clone, PartialEq, Eq, Structural)]
pub enum Hue {
    Red,
    Yellow,
    Green,
    Cyan,
    Blue,
    Magenta,
}

/// One of the three lightness grades, ordered cyclically.
#[derive(Debug, Copy, Clone, PartialEq, Eq, Structural)]
pub enum Lightness {
    Light,
    Normal,
    Dark,
}

/// One of the eighteen canonical colors.
#[derive(Debug, Copy, Clone, PartialEq, Eq, Structural)]
pub struct Color {
    pub hue: Hue,
    pub lightness: Lightness,
}

/// The position of a hue on the six-step wheel.
pub open spec fn hue_index(h: Hue) -> int {
    match h {
        Hue::Red => 0,
        Hue::Yellow => 1,
        Hue::Green => 2,
        Hue::Cyan => 3,
        Hue::Blue => 4,
        Hue::Magenta => 5,
    }
}

/// The position of a lightness grade on its three-step cycle.
pub open spec fn lightness_index(l: Lightness) -> int {
    match l {
        Lightness::Light => 0,
        Lightness::Normal => 1,
        Lightness::Dark => 2,
    }
}

/// Cyclic distance from `prev` to `next` around the hue wheel, in 0..6.
pub open spec fn hue_delta(prev: Hue, next: Hue) -> int {
    (hue_index(next) - hue_index(prev)) % 6
}

/// Cyclic distance from `prev` to `next` on the lightness cycle, in 0..3.
pub open spec fn lightness_delta(prev: Lightness, next: Lightness) -> int {
    (lightness_index(next) - lightness_index(prev)) % 3
}

/// The fixed 6 x 3 opcode table, keyed by hue delta and lightness delta.
pub open spec fn opcode_table(hd: int, ld: int) -> Command {
    if hd == 0 {
        if ld == 0 {
            Command::Nop
        } else if ld == 1 {
            Command::Push
        } else {
            Command::Unary(UnaryOp::Pop)
        }
    } else if hd == 1 {
        if ld == 0 {
            Command::Binary(BinaryOp::Add)
        } else if ld == 1 {
            Command::Binary(BinaryOp::Subtract)
        } else {
            Command::Binary(BinaryOp::Multiply)
        }
    } else if hd == 2 {
        if ld == 0 {
            Command::Binary(BinaryOp::Divide)
        } else if ld == 1 {
            Command::Binary(BinaryOp::Mod)
        } else {
            Command::Unary(UnaryOp::Not)
        }
    } else if hd == 3 {
        if ld == 0 {
            Command::Binary(BinaryOp::Greater)
        } else if ld == 1 {
            Command::Unary(UnaryOp::Pointer)
        } else {
            Command::Unary(UnaryOp::Switch)
        }
    } else if hd == 4 {
        if ld == 0 {
            Command::Unary(UnaryOp::Duplicate)
        } else if ld == 1 {
            Command::Binary(BinaryOp::Roll)
        } else {
            Command::InputNum
        }
    } else {
        if ld == 0 {
            Command::InputChar
        } else if ld == 1 {
            Command::Unary(UnaryOp::OutNum)
        } else {
            Command::Unary(UnaryOp::OutChar)
        }
    }
}

/// The opcode of a transition from color `prev` to color `next`.
pub open spec fn spec_compare(prev: Color, next: Color) -> Command {
    opcode_table(
        hue_delta(prev.hue, next.hue),
        lightness_delta(prev.lightness, next.lightness),
    )
}

fn hue_num(h: Hue) -> (r: u8)
    ensures
        r as int == hue_index(h),
{
    match h {
        Hue::Red => 0,
        Hue::Yellow => 1,
        Hue::Green => 2,
        Hue::Cyan => 3,
        Hue::Blue => 4,
        Hue::Magenta => 5,
    }
}

fn lightness_num(l: Lightness) -> (r: u8)
    ensures
        r as int == lightness_index(l),
{
    match l {
        Lightness::Light => 0,
        Lightness::Normal => 1,
        Lightness::Dark => 2,
    }
}

impl Color {
    /// The opcode of the transition from `prev` to `next`.
    pub fn compare(prev: Self, next: Self) -> (r: Command)
        ensures
            r == spec_compare(prev, next),
    {
        let hd: u8 = (hue_num(next.hue) + 6 - hue_num(prev.hue)) % 6;
        let ld: u8 = (lightness_num(next.lightness) + 3 - lightness_num(prev.lightness)) % 3;
        if hd == 0 {
            if ld == 0 {
                Command::Nop
            } else if ld == 1 {
                Command::Push
            } else {
                Command::Unary(UnaryOp::Pop)
            }
        } else if hd == 1 {
            if ld == 0 {
                Command::Binary(BinaryOp::Add)
            } else if ld == 1 {
                Command::Binary(BinaryOp::Subtract)
            } else {
                Command::Binary(BinaryOp::Multiply)
            }
        } else if hd == 2 {
            if ld == 0 {
                Command::Binary(BinaryOp::Divide)
            } else if ld == 1 {
                Command::Binary(BinaryOp::Mod)
            } else {
                Command::Unary(UnaryOp::Not)
            }
        } else if hd == 3 {
            if ld == 0 {
                Command::Binary(BinaryOp::Greater)
            } else if ld == 1 {
                Command::Unary(UnaryOp::Pointer)
            } else {
                Command::Unary(UnaryOp::Switch)
            }
        } else if hd == 4 {
            if ld == 0 {
                Command::Unary(UnaryOp::Duplicate)
            } else if ld == 1 {
                Command::Binary(BinaryOp::Roll)
            } else {
                Command::InputNum
            }
        } else {
            if ld == 0 {
                Command::InputChar
            } else if ld == 1 {
                Command::Unary(UnaryOp::OutNum)
            } else {
                Command::Unary(UnaryOp::OutChar)
            }
        }
    }
}

/// With the lightness pair fixed, the opcode of a transition depends only on
/// the cyclic hue delta.
pub proof fn lemma_opcode_depends_on_hue_delta(p1: Color, n1: Color, p2: Color, n2: Color)
    requires
        p1.lightness == p2.lightness,
        n1.lightness == n2.lightness,
        hue_delta(p1.hue, n1.hue) == hue_delta(p2.hue, n2.hue),
    ensures
        spec_compare(p1, n1) == spec_compare(p2, n2),
{
}

/// A transition from a color to itself is a no-op.
pub proof fn lemma_self_transition_nop(c: Color)
    ensures
        spec_compare(c, c) == Command::Nop,
{
}

/// One cell of the segmented program grid.
#[derive(Debug, Copy, Clone, PartialEq, Eq, Structural)]
pub enum Codel {
    White,
    Black,
    ColorBlock(usize),
}

/// A maximal 4-connected region of codels sharing one color.
#[derive(Debug)]
pub struct ColorBlock {
    pub color: Color,
    pub codels: Vec<(usize, usize)>,
}

impl ColorBlock {
    /// `r` is the exit corner of this block for direction `dp` and bias `cc`:
    /// farthest along `dp` among all members, and among the members tied on
    /// that axis, farthest along `dp` turned one quarter by `cc`.
    pub open spec fn is_edge(self, dp: Direction, cc: Rotation, r: (usize, usize)) -> bool {
        &&& self.codels@.contains(r)
        &&& forall|k: int|
            0 <= k < self.codels@.len() ==> !dp.spec_prefers(#[trigger] self.codels@[k], r)
        &&& forall|k: int|
            0 <= k < self.codels@.len() && dp.spec_axis(#[trigger] self.codels@[k])
                == dp.spec_axis(r) ==> !dp.spec_turn(cc).spec_prefers(self.codels@[k], r)
    }

    /// The exit corner as a function of the block and the registers: the
    /// one coordinate satisfying the edge condition.
    pub open spec fn spec_edge(self, dp: Direction, cc: Rotation) -> (usize, usize) {
        choose|r: (usize, usize)| self.is_edge(dp, cc, r)
    }

    /// The exit corner of this block for direction `dp` and bias `cc`.
    /// Ties are resolved purely by coordinate comparison, never by the order
    /// the members happen to be stored in.
    pub fn find_edge(&self, dp: Direction, cc: Rotation) -> (r: (usize, usize))
        requires
            self.codels@.len() > 0,
        ensures
            self.is_edge(dp, cc, r),
            r == self.spec_edge(dp, cc),
    {
        let sec: Direction = dp.turn(cc);
        let mut best: (usize, usize) = self.codels[0];
        let ghost mut bi: int = 0;
        let mut k: usize = 1;
        while k < self.codels.len()
            invariant
                1 <= k <= self.codels@.len(),
                0 <= bi < k,
                self.codels@[bi] == best,
                sec == dp.spec_turn(cc),
                forall|j: int|
                    0 <= j < k ==> !dp.spec_prefers(#[trigger] self.codels@[j], best),
                forall|j: int|
                    0 <= j < k && dp.spec_axis(#[trigger] self.codels@[j]) == dp.spec_axis(best)
                        ==> !sec.spec_prefers(self.codels@[j], best),
            decreases self.codels@.len() - k,
        {
            let c: (usize, usize) = self.codels[k];
            if dp.prefers(c, best) || (dp.axis(c) == dp.axis(best) && sec.prefers(c, best)) {
                best = c;
                proof {
                    bi = k as int;
                }
            }
            k = k + 1;
        }
        proof {
            assert(self.is_edge(dp, cc, best));
            assert(self.is_edge(dp, cc, self.spec_edge(dp, cc)));
            lemma_edge_unique(*self, dp, cc, best, self.spec_edge(dp, cc));
        }
        best
    }
}

/// The exit corner is unique: any two coordinates satisfying the edge
/// condition coincide, so edge finding is deterministic and independent of
/// member order.
pub proof fn lemma_edge_unique(
    b: ColorBlock,
    dp: Direction,
    cc: Rotation,
    r1: (usize, usize),
    r2: (usize, usize),
)
    requires
        b.is_edge(dp, cc, r1),
        b.is_edge(dp, cc, r2),
    ensures
        r1 == r2,
{
    let k1 = choose|k: int| 0 <= k < b.codels@.len() && b.codels@[k] == r1;
    let k2 = choose|k: int| 0 <= k < b.codels@.len() && b.codels@[k] == r2;
    assert(0 <= k1 < b.codels@.len() && b.codels@[k1] == r1);
    assert(0 <= k2 < b.codels@.len() && b.codels@[k2] == r2);
    assert(!dp.spec_prefers(b.codels@[k2], r1));
    assert(!dp.spec_prefers(b.codels@[k1], r2));
    assert(dp.spec_axis(r1) == dp.spec_axis(r2));
    assert(!dp.spec_turn(cc).spec_prefers(b.codels@[k2], r1));
    assert(!dp.spec_turn(cc).spec_prefers(b.codels@[k1], r2));
    assert(dp.spec_turn(cc).spec_axis(r1) == dp.spec_turn(cc).spec_axis(r2));
    assert(r1.0 == r2.0 && r1.1 == r2.1);
}

/// A segmented program: the block list and the codel grid, immutable after
/// construction.
#[derive(Debug)]
pub struct Program {
    pub blocks: Vec<ColorBlock>,
    pub grid: Grid<Codel>,
}

impl Program {
    /// Block `i` is consistent with the grid: non-empty, duplicate-free,
    /// within bounds, and every member cell names this block.
    pub open spec fn block_wf(self, i: int) -> bool {
        let b = self.blocks@[i];
        &&& b.codels@.len() > 0
        &&& b.codels@.no_duplicates()
        &&& b.codels@.len() <= self.grid.spec_width() * self.grid.spec_height()
        &&& forall|k: int|
            0 <= k < b.codels@.len() ==> {
                let c = #[trigger] b.codels@[k];
                c.0 < self.grid.spec_width() && c.1 < self.grid.spec_height()
                    && self.grid.spec_at(c.0 as int, c.1 as int) == Codel::ColorBlock(i as usize)
            }
    }

    /// No coordinate belongs to two blocks: together with the grid clause of
    /// `wf`, the blocks partition the colored coordinates exactly once.
    pub proof fn lemma_blocks_disjoint(self, i: usize, j: usize, c: (usize, usize))
        requires
            self.wf(),
            i < self.blocks@.len(),
            j < self.blocks@.len(),
            i != j,
            self.blocks@[i as int].codels@.contains(c),
        ensures
            !self.blocks@[j as int].codels@.contains(c),
    {
        assert(self.block_wf(i as int));
        assert(self.block_wf(j as int));
        let ki = choose|k: int|
            0 <= k < self.blocks@[i as int].codels@.len() && self.blocks@[i as int].codels@[k]
                == c;
        assert(self.blocks@[i as int].codels@[ki] == c);
        if self.blocks@[j as int].codels@.contains(c) {
            let kj = choose|k: int|
                0 <= k < self.blocks@[j as int].codels@.len() && self.blocks@[j as int].codels@[k]
                    == c;
            assert(self.blocks@[j as int].codels@[kj] == c);
            assert(self.grid.spec_at(c.0 as int, c.1 as int) == Codel::ColorBlock(i));
            assert(self.grid.spec_at(c.0 as int, c.1 as int) == Codel::ColorBlock(j));
        }
    }

    /// The grid and the block list describe one partition of the colored
    /// coordinates: every block-reference cell belongs to the block it names,
    /// every block member names its block, and no coordinate belongs to two
    /// blocks.
    pub open spec fn wf(self) -> bool {
        &&& self.grid.wf()
        &&& self.grid.spec_width() * self.grid.spec_height() <= i64::MAX
        &&& forall|i: int| 0 <= i < self.blocks@.len() ==> #[trigger] self.block_wf(i)
        &&& forall|x: int, y: int|
            0 <= x < self.grid.spec_width() && 0 <= y < self.grid.spec_height() ==> match #[trigger] self.grid.spec_at(x, y) {
                Codel::ColorBlock(id) => id < self.blocks@.len()
                    && self.blocks@[id as int].codels@.contains((((x as usize), (y as usize)))),
                _ => true,
            }
    }
}

} // verus!
