//! The execution engine: registers, operand stack, instruction seeking by
//! edge walking, and opcode semantics.

use vstd::prelude::*;

use crate::ast::{spec_compare, Codel, Color, ColorBlock, Program};
use crate::util::{Direction, Rotation};

verus! {

/// An instruction derived from a color transition.
#[derive(Debug, Copy, Clone, PartialEq, Eq, Structural)]
pub enum Command {
    Nop,
    Push,
    InputNum,
    InputChar,
    Unary(UnaryOp),
    Binary(BinaryOp),
}

/// Opcodes that consume one value from the stack.
#[derive(Debug, Copy, Clone, PartialEq, Eq, Structural)]
pub enum UnaryOp {
    Pop,
    Not,
    Pointer,
    Switch,
    Duplicate,
    OutNum,
    OutChar,
}

/// Opcodes that consume two values from the stack.
#[derive(Debug, Copy, Clone, PartialEq, Eq, Structural)]
pub enum BinaryOp {
    Add,
    Subtract,
    Multiply,
    Divide,
    Mod,
    Greater,
    Roll,
}

/// A condition that aborts the run.
#[derive(Debug, Copy, Clone, PartialEq, Eq, Structural)]
pub enum RunError {
    DivideByZero,
    Overflow,
    BadCodePoint,
    OutOfInput,
}

/// What one executed instruction asks of the surrounding I/O loop.
#[derive(Debug, Copy, Clone, PartialEq, Eq, Structural)]
pub enum Effect {
    Silent,
    NeedNumber,
    NeedChar,
    OutputNumber(i64),
    OutputChar(u32),
    Fatal(RunError),
}

/// One item of the run's output stream.
#[derive(Debug, Copy, Clone, PartialEq, Eq, Structural)]
pub enum OutputItem {
    Number(i64),
    CodePoint(u32),
}

/// How a bounded run ended.
#[derive(Debug, Copy, Clone, PartialEq, Eq, Structural)]
pub enum RunStatus {
    Halted,
    Fatal(RunError),
    OutOfSteps,
}

/// The execution registers: cursor coordinate, direction pointer, and
/// corner bias.
#[derive(Debug, Copy, Clone, PartialEq, Eq)]
pub struct Registers {
    pub pc: (usize, usize),
    pub dp: Direction,
    pub cc: Rotation,
}

/// The execution engine: registers plus the operand stack.
pub struct Cpu {
    stack: Vec<i64>,
    regs: Registers,
}

/// A code point denoting a Unicode scalar value.
pub open spec fn valid_code_point(v: int) -> bool {
    (0 <= v < 0xD800) || (0xE000 <= v <= 0x10FFFF)
}

/// `d` rotated `n` quarter turns in rotation sense `r`.
pub open spec fn spec_rotate_n(d: Direction, r: Rotation, n: int) -> Direction
    decreases n,
{
    if n <= 0 {
        d
    } else {
        spec_rotate_n(d, r, n - 1).spec_turn(r)
    }
}

/// Rotating is periodic with period four.
pub proof fn lemma_rotate_mod(d: Direction, r: Rotation, n: int)
    requires
        n >= 0,
    ensures
        spec_rotate_n(d, r, n) == spec_rotate_n(d, r, n % 4),
    decreases n,
{
    if n >= 4 {
        lemma_rotate_mod(d, r, n - 1);
        assert((n - 1) % 4 == if n % 4 == 0 { 3int } else { n % 4 - 1 });
        reveal_with_fuel(spec_rotate_n, 6);
    }
}

/// The magnitude of `x`, as an `int`.
pub open spec fn iabs(x: int) -> int {
    vstd::math::abs(x) as int
}

/// Truncated (round-toward-zero) division, the machine convention.
pub open spec fn trunc_div(y: int, x: int) -> int {
    if (y >= 0) == (x >= 0) {
        iabs(y) / iabs(x)
    } else {
        -(iabs(y) / iabs(x))
    }
}

/// The remainder that matches truncated division.
pub open spec fn trunc_mod(y: int, x: int) -> int {
    y - x * trunc_div(y, x)
}

/// The stack after rolling: the top `y` entries (clamped to the stack size)
/// rotate by `x` places, toward the top for positive `x` and toward the
/// bottom for negative `x`; everything deeper stays put.
pub open spec fn spec_roll(s: Seq<i64>, x: int, y: int) -> Seq<i64> {
    let len = s.len() as int;
    let depth = if y <= 0 {
        0
    } else if y >= len {
        len
    } else {
        y
    };
    if depth == 0 {
        s
    } else {
        let start = len - depth;
        let a = iabs(x) % depth;
        let shift = if x < 0 {
            a
        } else {
            (depth - a) % depth
        };
        Seq::new(
            s.len(),
            |i: int|
                if i < start {
                    s[i]
                } else {
                    s[start + ((i - start + shift) % depth)]
                },
        )
    }
}

/// Rolling with depth 0 leaves the stack unchanged.
pub proof fn lemma_roll_zero_depth(s: Seq<i64>, x: int)
    ensures
        spec_roll(s, x, 0) == s,
{
}

/// Rolling by a whole number of turns (the amount a multiple of the
/// effective depth) leaves the stack unchanged.
pub proof fn lemma_roll_whole_turns(s: Seq<i64>, x: int, y: int)
    requires
        0 < y,
        0 < s.len(),
        iabs(x) % (if y >= s.len() { s.len() as int } else { y }) == 0,
    ensures
        spec_roll(s, x, y) == s,
{
    let len = s.len() as int;
    let depth = if y >= len {
        len
    } else {
        y
    };
    let start = len - depth;
    vstd::arithmetic::div_mod::lemma_mod_self_0(depth);
    assert forall|i: int| 0 <= i < len implies #[trigger] spec_roll(s, x, y)[i] == s[i] by {
        if i >= start {
            vstd::arithmetic::div_mod::lemma_small_mod((i - start) as nat, depth as nat);
        }
    }
    assert(spec_roll(s, x, y) =~= s);
}

/// The stack after a unary opcode, applied to popped value `x` and the
/// remaining stack `s`.
pub open spec fn spec_unary_stack(op: UnaryOp, x: int, s: Seq<i64>) -> Seq<i64> {
    match op {
        UnaryOp::Pop => s,
        UnaryOp::Not => s.push(if x == 0 { 1i64 } else { 0i64 }),
        UnaryOp::Pointer => s,
        UnaryOp::Switch => s,
        UnaryOp::Duplicate => s.push(x as i64).push(x as i64),
        UnaryOp::OutNum => s,
        UnaryOp::OutChar => s,
    }
}

/// The registers after a unary opcode applied to popped value `x`.
pub open spec fn spec_unary_regs(op: UnaryOp, x: int, r: Registers) -> Registers {
    match op {
        UnaryOp::Pointer => Registers {
            dp: spec_rotate_n(
                r.dp,
                if x < 0 {
                    Rotation::Counter
                } else {
                    Rotation::Clock
                },
                iabs(x),
            ),
            ..r
        },
        UnaryOp::Switch => Registers {
            cc: if iabs(x) % 2 == 1 {
                r.cc.spec_flip()
            } else {
                r.cc
            },
            ..r
        },
        _ => r,
    }
}

/// The effect a unary opcode asks of the I/O loop.
pub open spec fn spec_unary_effect(op: UnaryOp, x: int) -> Effect {
    match op {
        UnaryOp::OutNum => Effect::OutputNumber(x as i64),
        UnaryOp::OutChar => if valid_code_point(x) {
            Effect::OutputChar(x as u32)
        } else {
            Effect::Fatal(RunError::BadCodePoint)
        },
        _ => Effect::Silent,
    }
}

/// The stack after a binary opcode applied to popped top `x`, second `y`,
/// and remaining stack `s`, or the error that aborts the run.
pub open spec fn spec_binary(op: BinaryOp, x: int, y: int, s: Seq<i64>) -> Result<
    Seq<i64>,
    RunError,
> {
    match op {
        BinaryOp::Add => if i64::MIN <= x + y <= i64::MAX {
            Ok(s.push((x + y) as i64))
        } else {
            Err(RunError::Overflow)
        },
        BinaryOp::Subtract => if i64::MIN <= y - x <= i64::MAX {
            Ok(s.push((y - x) as i64))
        } else {
            Err(RunError::Overflow)
        },
        BinaryOp::Multiply => if i64::MIN <= x * y <= i64::MAX {
            Ok(s.push((x * y) as i64))
        } else {
            Err(RunError::Overflow)
        },
        BinaryOp::Divide => if x == 0 {
            Err(RunError::DivideByZero)
        } else if y == i64::MIN && x == -1 {
            Err(RunError::Overflow)
        } else {
            Ok(s.push(trunc_div(y, x) as i64))
        },
        BinaryOp::Mod => if x == 0 {
            Err(RunError::DivideByZero)
        } else if y == i64::MIN && x == -1 {
            Err(RunError::Overflow)
        } else {
            Ok(s.push(trunc_mod(y, x) as i64))
        },
        BinaryOp::Greater => Ok(s.push(if y > x { 1i64 } else { 0i64 })),
        BinaryOp::Roll => Ok(spec_roll(s, x, y)),
    }
}

/// What one executed instruction leaves behind: the stack, the registers,
/// and the effect handed to the surrounding I/O loop.
pub open spec fn spec_execute(command: Command, operand: i64, s0: Seq<i64>, r0: Registers) -> (
    Seq<i64>,
    Registers,
    Effect,
) {
    match command {
        Command::Nop => (s0, r0, Effect::Silent),
        Command::Push => (s0.push(operand), r0, Effect::Silent),
        Command::InputNum => (s0, r0, Effect::NeedNumber),
        Command::InputChar => (s0, r0, Effect::NeedChar),
        Command::Unary(op) => if s0.len() == 0 {
            (s0, r0, Effect::Silent)
        } else {
            let x = s0.last() as int;
            (
                spec_unary_stack(op, x, s0.drop_last()),
                spec_unary_regs(op, x, r0),
                spec_unary_effect(op, x),
            )
        },
        Command::Binary(op) => if s0.len() <= 1 {
            (s0, r0, Effect::Silent)
        } else {
            let x = s0.last();
            let y = s0[s0.len() - 2];
            let rest = s0.take(s0.len() - 2);
            match spec_binary(op, x as int, y as int, rest) {
                Ok(s) => (s, r0, Effect::Silent),
                Err(err) => (rest, r0, Effect::Fatal(err)),
            }
        },
    }
}

/// The outcome of one probe of the instruction seek, from an edge-snapped
/// register state: either the next probe state, or the registers after the
/// move together with the found instruction.
pub enum SeekStep {
    Continue(Registers, bool),
    Found(Registers, Command, i64),
}

/// How a whole instruction seek ends: a repeated register state (the
/// program is stuck), or the registers after the move plus the instruction.
/// `Out` stands for fuel exhaustion, which `seek_fuel` precludes.
pub enum SeekOutcome {
    Stuck(Registers),
    Found(Registers, Command, i64),
    Out,
}

/// The cursor snapped to its block's exit corner; off a block the
/// registers are unchanged.
pub open spec fn spec_snap(program: Program, r: Registers) -> Registers {
    match program.grid.spec_at(r.pc.0 as int, r.pc.1 as int) {
        Codel::ColorBlock(id) => Registers {
            pc: program.blocks@[id as int].spec_edge(r.dp, r.cc),
            ..r
        },
        _ => r,
    }
}

/// One probe from the snapped state `r`: slide onto white (resetting the
/// recovery alternation), recover from black or off-grid (the first failure
/// flips the bias, the failure right after rotates the direction one
/// quarter-turn clockwise, alternating), or enter a block, with the command
/// derived from the two colors and the left block's area as operand —
/// `Nop` with operand 0 when the cursor came across white or black.
pub open spec fn seek_step(program: Program, r: Registers, toggled: bool) -> SeekStep {
    let size = (((program.grid.spec_width() as usize)), ((program.grid.spec_height() as usize)));
    let recover = if !toggled {
        SeekStep::Continue(Registers { cc: r.cc.spec_flip(), ..r }, true)
    } else {
        SeekStep::Continue(Registers { dp: r.dp.spec_turn(Rotation::Clock), ..r }, false)
    };
    match r.dp.spec_go(r.pc, size) {
        None => recover,
        Some(t) => match program.grid.spec_at(t.0 as int, t.1 as int) {
            Codel::White => SeekStep::Continue(Registers { pc: t, ..r }, false),
            Codel::Black => recover,
            Codel::ColorBlock(nid) => {
                let hit = match program.grid.spec_at(r.pc.0 as int, r.pc.1 as int) {
                    Codel::ColorBlock(oid) => (
                        spec_compare(
                            program.blocks@[oid as int].color,
                            program.blocks@[nid as int].color,
                        ),
                        program.blocks@[oid as int].codels@.len() as i64,
                    ),
                    _ => (Command::Nop, 0i64),
                };
                SeekStep::Found(Registers { pc: t, ..r }, hit.0, hit.1)
            },
        },
    }
}

/// Enough fuel for any seek: one more than the number of register states
/// on the grid.
pub open spec fn seek_fuel(program: Program) -> nat {
    (8 * program.grid.spec_width() * program.grid.spec_height() + 1) as nat
}

/// The whole instruction seek: snap the cursor, stop on a register state
/// already seen in this seek, otherwise probe once and continue.
pub open spec fn spec_seek(
    program: Program,
    r: Registers,
    toggled: bool,
    visited: Seq<Registers>,
    fuel: nat,
) -> SeekOutcome
    decreases fuel,
{
    let s = spec_snap(program, r);
    if visited.contains(s) {
        SeekOutcome::Stuck(s)
    } else if fuel == 0 {
        SeekOutcome::Out
    } else {
        match seek_step(program, s, toggled) {
            SeekStep::Found(fr, cmd, op) => SeekOutcome::Found(fr, cmd, op),
            SeekStep::Continue(nr, nt) => spec_seek(
                program,
                nr,
                nt,
                visited.push(s),
                (fuel - 1) as nat,
            ),
        }
    }
}

/// The whole bounded run, unrolled: from stack `s` and registers `r`, with
/// the input queue read from `pos` on and `acc` already emitted, the stack,
/// registers, output stream, and status that a run of at most `steps` more
/// instructions leaves behind. Output items append in emission order;
/// number and character reads consume the queue in order, its exhaustion
/// being fatal; a repeated seek state halts the run cleanly.
pub open spec fn spec_run(
    program: Program,
    s: Seq<i64>,
    r: Registers,
    inputs: Seq<i64>,
    pos: nat,
    acc: Seq<OutputItem>,
    steps: nat,
) -> (Seq<i64>, Registers, Seq<OutputItem>, RunStatus)
    decreases steps,
{
    if steps == 0 {
        (s, r, acc, RunStatus::OutOfSteps)
    } else {
        match spec_seek(program, r, false, Seq::<Registers>::empty(), seek_fuel(program)) {
            SeekOutcome::Stuck(rr) => (s, rr, acc, RunStatus::Halted),
            SeekOutcome::Out => (s, r, acc, RunStatus::Halted),
            SeekOutcome::Found(mid, cmd, op) => {
                let t = spec_execute(cmd, op, s, mid);
                match t.2 {
                    Effect::Silent => spec_run(program, t.0, t.1, inputs, pos, acc, (steps - 1) as nat),
                    Effect::NeedNumber => if pos < inputs.len() {
                        spec_run(
                            program,
                            t.0.push(inputs[pos as int]),
                            t.1,
                            inputs,
                            pos + 1,
                            acc,
                            (steps - 1) as nat,
                        )
                    } else {
                        (t.0, t.1, acc, RunStatus::Fatal(RunError::OutOfInput))
                    },
                    Effect::NeedChar => if pos < inputs.len() {
                        spec_run(
                            program,
                            t.0.push(inputs[pos as int]),
                            t.1,
                            inputs,
                            pos + 1,
                            acc,
                            (steps - 1) as nat,
                        )
                    } else {
                        (t.0, t.1, acc, RunStatus::Fatal(RunError::OutOfInput))
                    },
                    Effect::OutputNumber(n) => spec_run(
                        program,
                        t.0,
                        t.1,
                        inputs,
                        pos,
                        acc.push(OutputItem::Number(n)),
                        (steps - 1) as nat,
                    ),
                    Effect::OutputChar(u) => spec_run(
                        program,
                        t.0,
                        t.1,
                        inputs,
                        pos,
                        acc.push(OutputItem::CodePoint(u)),
                        (steps - 1) as nat,
                    ),
                    Effect::Fatal(err) => (t.0, t.1, acc, RunStatus::Fatal(err)),
                }
            },
        }
    }
}

/// The magnitude of a signed value, exactly, including the minimum.
fn mag64(x: i64) -> (r: u64)
    ensures
        r == iabs(x as int),
{
    if x >= 0 {
        x as u64
    } else {
        (-(x + 1)) as u64 + 1
    }
}

impl Cpu {
    /// The operand stack, bottom first.
    pub closed spec fn spec_stack(self) -> Seq<i64> {
        self.stack@
    }

    /// The register file.
    pub closed spec fn spec_regs(self) -> Registers {
        self.regs
    }

    /// The cursor lies on the program's grid.
    pub open spec fn wf(self, program: Program) -> bool {
        self.spec_regs().pc.0 < program.grid.spec_width() && self.spec_regs().pc.1
            < program.grid.spec_height()
    }

    /// The operand stack, for inspection.
    pub fn operands(&self) -> (r: &Vec<i64>)
        ensures
            r@ == self.spec_stack(),
    {
        &self.stack
    }

    /// The register file, for inspection.
    pub fn registers(&self) -> (r: Registers)
        ensures
            r == self.spec_regs(),
    {
        self.regs
    }

    /// Pushes one value read by the surrounding I/O loop in answer to a
    /// `NeedNumber` or `NeedChar` effect.
    pub fn provide_input(&mut self, value: i64)
        ensures
            final(self).spec_stack() == old(self).spec_stack().push(value),
            final(self).spec_regs() == old(self).spec_regs(),
    {
        self.stack.push(value);
    }

    /// The block the cursor currently sits in, if any.
    pub fn current_block<'a>(&self, program: &'a Program) -> (r: Option<&'a ColorBlock>)
        requires
            program.wf(),
            self.wf(*program),
        ensures
            match r {
                Some(b) => exists|id: int|
                    0 <= id < program.blocks@.len() && program.grid.spec_at(
                        self.spec_regs().pc.0 as int,
                        self.spec_regs().pc.1 as int,
                    ) == Codel::ColorBlock(id as usize) && *b == program.blocks@[id],
                None => !(program.grid.spec_at(
                    self.spec_regs().pc.0 as int,
                    self.spec_regs().pc.1 as int,
                ) matches Codel::ColorBlock(_)),
            },
    {
        match program.grid.at(self.regs.pc.0, self.regs.pc.1) {
            Codel::ColorBlock(id) => Some(&program.blocks[id]),
            _ => None,
        }
    }

    /// Seeks the next instruction: snaps the cursor to the current block's
    /// exit corner, probes ahead, slides across white, and recovers from
    /// black or off-grid neighbors by alternately toggling the bias and
    /// rotating the direction. Returns `None` when a register state repeats
    /// within the search (the program is stuck), else the opcode of the
    /// entered transition with the left block's area as operand (or `Nop`
    /// with operand 0 after a white slide). The stack is untouched.
    pub fn advance_pc(&mut self, program: &Program) -> (r: Option<(Command, i64)>)
        requires
            program.wf(),
            old(self).wf(*program),
        ensures
            final(self).wf(*program),
            final(self).spec_stack() == old(self).spec_stack(),
            ({
                let out = spec_seek(
                    *program,
                    old(self).spec_regs(),
                    false,
                    Seq::<Registers>::empty(),
                    seek_fuel(*program),
                );
                match r {
                    None => out == SeekOutcome::Stuck(final(self).spec_regs()),
                    Some(t) => out == SeekOutcome::Found(final(self).spec_regs(), t.0, t.1),
                }
            }),
    {
        let mut visited: Vec<Registers> = Vec::new();
        let mut toggled_cc: bool = false;
        let size: (usize, usize) = program.grid.size();
        let ghost r0 = self.regs;
        let ghost fuel0 = seek_fuel(*program);
        loop
            invariant
                program.wf(),
                size.0 == program.grid.spec_width(),
                size.1 == program.grid.spec_height(),
                self.wf(*program),
                self.stack@ == old(self).spec_stack(),
                r0 == old(self).spec_regs(),
                fuel0 == seek_fuel(*program),
                visited@.len() <= fuel0,
                forall|i: int, j: int|
                    0 <= i < j < visited@.len() ==> visited@[i] != visited@[j],
                forall|i: int|
                    0 <= i < visited@.len() ==> (#[trigger] visited@[i]).pc.0 < size.0
                        && visited@[i].pc.1 < size.1,
                spec_seek(*program, r0, false, Seq::<Registers>::empty(), fuel0) == spec_seek(
                    *program,
                    self.regs,
                    toggled_cc,
                    visited@,
                    (fuel0 - visited@.len()) as nat,
                ),
            decreases 8 * (size.0 as int) * (size.1 as int) - visited@.len(),
        {
            let ghost pre = self.regs;
            let ghost toggled0 = toggled_cc;
            // Re-derive the current block from the grid and snap the cursor
            // to its exit corner.
            match program.grid.at(self.regs.pc.0, self.regs.pc.1) {
                Codel::ColorBlock(id) => {
                    proof {
                        assert(program.block_wf(id as int));
                    }
                    let e: (usize, usize) = program.blocks[id].find_edge(
                        self.regs.dp,
                        self.regs.cc,
                    );
                    proof {
                        let b = program.blocks@[id as int];
                        let k = choose|k: int| 0 <= k < b.codels@.len() && b.codels@[k] == e;
                        assert(b.codels@[k] == e && 0 <= k < b.codels@.len());
                    }
                    self.regs.pc = e;
                }
                _ => {}
            }
            proof {
                assert(self.regs == spec_snap(*program, pre));
            }

            // A repeated register state proves the search is stuck.
            if contains_regs(&visited, self.regs) {
                proof {
                    assert(spec_seek(
                        *program,
                        pre,
                        toggled0,
                        visited@,
                        (fuel0 - visited@.len()) as nat,
                    ) == SeekOutcome::Stuck(self.regs));
                }
                return None;
            }
            let ghost visited_top = visited@;
            let ghost fuel_here = (fuel0 - visited@.len()) as nat;
            proof {
                lemma_visited_bound(visited@, size.0 as int, size.1 as int);
                assert(visited@.len() < fuel0);
                assert(fuel_here >= 1);
            }
            visited.push(self.regs);
            proof {
                lemma_visited_bound(visited@, size.0 as int, size.1 as int);
            }
            let ghost snapped = self.regs;

            // Probe one step ahead; off-grid counts as black.
            let target: Option<(usize, usize)> = self.regs.dp.go(self.regs.pc, size);
            let target_codel: Codel = match target {
                Some(t) => program.grid.at(t.0, t.1),
                None => Codel::Black,
            };
            match target_codel {
                Codel::White => {
                    // Free movement: slide onto the white codel.
                    match target {
                        Some(t) => {
                            self.regs.pc = t;
                        }
                        None => {}
                    }
                    toggled_cc = false;
                    proof {
                        assert(seek_step(*program, snapped, toggled0) == SeekStep::Continue(
                            self.regs,
                            false,
                        ));
                    }
                }
                Codel::Black => {
                    // Alternate the two recovery actions on consecutive
                    // failures.
                    if !toggled_cc {
                        self.regs.cc.toggle();
                        toggled_cc = true;
                    } else {
                        self.regs.dp.rotate(Rotation::Clock);
                        toggled_cc = false;
                    }
                    proof {
                        assert(seek_step(*program, snapped, toggled0) == SeekStep::Continue(
                            self.regs,
                            toggled_cc,
                        ));
                    }
                }
                Codel::ColorBlock(nid) => {
                    let t: (usize, usize) = match target {
                        Some(t) => t,
                        None => (0, 0),
                    };
                    match program.grid.at(self.regs.pc.0, self.regs.pc.1) {
                        Codel::ColorBlock(oid) => {
                            proof {
                                assert(program.block_wf(oid as int));
                                assert(program.block_wf(nid as int));
                            }
                            let command: Command = Color::compare(
                                program.blocks[oid].color,
                                program.blocks[nid].color,
                            );
                            let len: usize = program.blocks[oid].codels.len();
                            let operand: i64 = len as i64;
                            self.regs.pc = t;
                            proof {
                                assert(seek_step(*program, snapped, toggled0)
                                    == SeekStep::Found(self.regs, command, operand));
                                assert(spec_seek(*program, pre, toggled0, visited_top, fuel_here)
                                    == SeekOutcome::Found(self.regs, command, operand));
                            }
                            return Some((command, operand));
                        }
                        _ => {
                            self.regs.pc = t;
                            proof {
                                assert(seek_step(*program, snapped, toggled0)
                                    == SeekStep::Found(self.regs, Command::Nop, 0i64));
                                assert(spec_seek(*program, pre, toggled0, visited_top, fuel_here)
                                    == SeekOutcome::Found(self.regs, Command::Nop, 0i64));
                            }
                            return Some((Command::Nop, 0));
                        }
                    }
                }
            }
            proof {
                assert(visited@ == visited_top.push(snapped));
                assert((fuel_here - 1) as nat == (fuel0 - visited@.len()) as nat);
                assert(spec_seek(*program, pre, toggled0, visited_top, fuel_here) == spec_seek(
                    *program,
                    self.regs,
                    toggled_cc,
                    visited@,
                    (fuel0 - visited@.len()) as nat,
                ));
            }
        }
    }

    /// One full engine step: seeks the next instruction and executes it.
    /// `None` means the program halted (the instruction search found a
    /// repeated register state). Any emitted code point is a Unicode scalar
    /// value; a `NeedNumber`/`NeedChar` effect asks the caller to read input
    /// and hand it back through `provide_input` before the next step.
    pub fn step(&mut self, program: &Program) -> (r: Option<Effect>)
        requires
            program.wf(),
            old(self).wf(*program),
        ensures
            final(self).wf(*program),
            ({
                let out = spec_seek(
                    *program,
                    old(self).spec_regs(),
                    false,
                    Seq::<Registers>::empty(),
                    seek_fuel(*program),
                );
                match r {
                    None => out == SeekOutcome::Stuck(final(self).spec_regs())
                        && final(self).spec_stack() == old(self).spec_stack(),
                    Some(e) => exists|mid: Registers, cmd: Command, op: i64|
                        out == SeekOutcome::Found(mid, cmd, op)
                            && ((final(self).spec_stack(), final(self).spec_regs(), e))
                            == #[trigger] spec_execute(cmd, op, old(self).spec_stack(), mid),
                }
            }),
            match r {
                Some(e) => e matches Effect::OutputChar(u) ==> valid_code_point(u as int),
                None => true,
            },
    {
        match self.advance_pc(program) {
            None => None,
            Some((command, operand)) => {
                let ghost mid = self.regs;
                let e: Effect = self.execute_instruction(command, operand);
                proof {
                    assert((self.stack@, self.regs, e) == spec_execute(
                        command,
                        operand,
                        old(self).spec_stack(),
                        mid,
                    ));
                }
                Some(e)
            }
        }
    }

    /// Runs until the program halts, a fatal condition occurs, the input
    /// queue runs dry (the stream's end, fatal), or `max_steps` instructions
    /// have been executed. `inputs` answers the program's number and
    /// character reads in order, as parsed numbers or code points. The
    /// stack, registers, outputs, and status are exactly those of
    /// `spec_run`.
    pub fn run(&mut self, program: &Program, inputs: &Vec<i64>, max_steps: usize) -> (r: (
        Vec<OutputItem>,
        RunStatus,
    ))
        requires
            program.wf(),
            old(self).wf(*program),
        ensures
            final(self).wf(*program),
            ({
                let m = spec_run(
                    *program,
                    old(self).spec_stack(),
                    old(self).spec_regs(),
                    inputs@,
                    0,
                    Seq::<OutputItem>::empty(),
                    max_steps as nat,
                );
                final(self).spec_stack() == m.0 && final(self).spec_regs() == m.1 && r.0@ == m.2
                    && r.1 == m.3
            }),
            forall|i: int|
                0 <= i < r.0@.len() ==> (#[trigger] r.0@[i] matches OutputItem::CodePoint(u)
                    ==> valid_code_point(u as int)),
    {
        let mut outputs: Vec<OutputItem> = Vec::new();
        let mut in_pos: usize = 0;
        let mut steps: usize = 0;
        let ghost s0 = self.stack@;
        let ghost g0 = self.regs;
        loop
            invariant
                program.wf(),
                self.wf(*program),
                steps <= max_steps,
                in_pos <= inputs@.len(),
                s0 == old(self).spec_stack(),
                g0 == old(self).spec_regs(),
                spec_run(
                    *program,
                    s0,
                    g0,
                    inputs@,
                    0,
                    Seq::<OutputItem>::empty(),
                    max_steps as nat,
                ) == spec_run(
                    *program,
                    self.stack@,
                    self.regs,
                    inputs@,
                    in_pos as nat,
                    outputs@,
                    (max_steps - steps) as nat,
                ),
                forall|i: int|
                    0 <= i < outputs@.len() ==> (#[trigger] outputs@[i] matches
                        OutputItem::CodePoint(u) ==> valid_code_point(u as int)),
            decreases max_steps - steps,
        {
            if steps >= max_steps {
                return (outputs, RunStatus::OutOfSteps);
            }
            let ghost st0 = self.stack@;
            let ghost rg0 = self.regs;
            let ghost left0 = (max_steps - steps) as nat;
            match self.step(program) {
                None => {
                    proof {
                        assert(spec_run(
                            *program,
                            st0,
                            rg0,
                            inputs@,
                            in_pos as nat,
                            outputs@,
                            left0,
                        ) == ((self.stack@, self.regs, outputs@, RunStatus::Halted)));
                    }
                    return (outputs, RunStatus::Halted);
                }
                Some(e) => {
                    let ghost st1 = self.stack@;
                    let ghost rg1 = self.regs;
                    proof {
                        let out = spec_seek(
                            *program,
                            rg0,
                            false,
                            Seq::<Registers>::empty(),
                            seek_fuel(*program),
                        );
                        let (mid, cmd, op): (Registers, Command, i64) = choose|
                            mid: Registers,
                            cmd: Command,
                            op: i64,
                        |
                            out == SeekOutcome::Found(mid, cmd, op) && ((st1, rg1, e))
                                == #[trigger] spec_execute(cmd, op, st0, mid);
                        assert(out == SeekOutcome::Found(mid, cmd, op));
                        assert(spec_execute(cmd, op, st0, mid) == ((st1, rg1, e)));
                    }
                    match e {
                        Effect::Silent => {
                            proof {
                                assert(spec_run(
                                    *program,
                                    st0,
                                    rg0,
                                    inputs@,
                                    in_pos as nat,
                                    outputs@,
                                    left0,
                                ) == spec_run(
                                    *program,
                                    st1,
                                    rg1,
                                    inputs@,
                                    in_pos as nat,
                                    outputs@,
                                    (left0 - 1) as nat,
                                ));
                            }
                        }
                        Effect::NeedNumber | Effect::NeedChar => {
                            if in_pos < inputs.len() {
                                let v: i64 = inputs[in_pos];
                                in_pos = in_pos + 1;
                                self.provide_input(v);
                                proof {
                                    assert(spec_run(
                                        *program,
                                        st0,
                                        rg0,
                                        inputs@,
                                        (in_pos - 1) as nat,
                                        outputs@,
                                        left0,
                                    ) == spec_run(
                                        *program,
                                        st1.push(v),
                                        rg1,
                                        inputs@,
                                        in_pos as nat,
                                        outputs@,
                                        (left0 - 1) as nat,
                                    ));
                                }
                            } else {
                                proof {
                                    assert(spec_run(
                                        *program,
                                        st0,
                                        rg0,
                                        inputs@,
                                        in_pos as nat,
                                        outputs@,
                                        left0,
                                    ) == ((
                                        st1,
                                        rg1,
                                        outputs@,
                                        RunStatus::Fatal(RunError::OutOfInput),
                                    )));
                                }
                                return (outputs, RunStatus::Fatal(RunError::OutOfInput));
                            }
                        }
                        Effect::OutputNumber(n) => {
                            outputs.push(OutputItem::Number(n));
                            proof {
                                assert(outputs@.drop_last().push(OutputItem::Number(n))
                                    =~= outputs@);
                                assert(spec_run(
                                    *program,
                                    st0,
                                    rg0,
                                    inputs@,
                                    in_pos as nat,
                                    outputs@.drop_last(),
                                    left0,
                                ) == spec_run(
                                    *program,
                                    st1,
                                    rg1,
                                    inputs@,
                                    in_pos as nat,
                                    outputs@,
                                    (left0 - 1) as nat,
                                ));
                            }
                        }
                        Effect::OutputChar(u) => {
                            outputs.push(OutputItem::CodePoint(u));
                            proof {
                                assert(outputs@.drop_last().push(OutputItem::CodePoint(u))
                                    =~= outputs@);
                                assert(spec_run(
                                    *program,
                                    st0,
                                    rg0,
                                    inputs@,
                                    in_pos as nat,
                                    outputs@.drop_last(),
                                    left0,
                                ) == spec_run(
                                    *program,
                                    st1,
                                    rg1,
                                    inputs@,
                                    in_pos as nat,
                                    outputs@,
                                    (left0 - 1) as nat,
                                ));
                            }
                        }
                        Effect::Fatal(err) => {
                            proof {
                                assert(spec_run(
                                    *program,
                                    st0,
                                    rg0,
                                    inputs@,
                                    in_pos as nat,
                                    outputs@,
                                    left0,
                                ) == ((st1, rg1, outputs@, RunStatus::Fatal(err))));
                            }
                            return (outputs, RunStatus::Fatal(err));
                        }
                    }
                }
            }
            steps = steps + 1;
        }
    }

    /// Executes one instruction on the stack and registers; any I/O the
    /// opcode calls for is returned as an effect for the surrounding loop.
    pub fn execute_instruction(&mut self, command: Command, operand: i64) -> (e: Effect)
        ensures
            ({
                let t = spec_execute(command, operand, old(self).spec_stack(), old(self).spec_regs());
                final(self).spec_stack() == t.0 && final(self).spec_regs() == t.1 && e == t.2
            }),
    {
        match command {
            Command::Nop => Effect::Silent,
            Command::Push => {
                self.stack.push(operand);
                Effect::Silent
            }
            Command::InputNum => Effect::NeedNumber,
            Command::InputChar => Effect::NeedChar,
            Command::Unary(op) => {
                match self.stack.pop() {
                    None => Effect::Silent,
                    Some(x) => self.execute_unary(op, x),
                }
            }
            Command::Binary(op) => {
                match self.stack.pop() {
                    None => Effect::Silent,
                    Some(x) => {
                        match self.stack.pop() {
                            None => {
                                self.stack.push(x);
                                proof {
                                    assert(self.stack@ =~= old(self).spec_stack());
                                }
                                Effect::Silent
                            }
                            Some(y) => {
                                proof {
                                    assert(self.stack@ =~= old(self).spec_stack().take(
                                        old(self).spec_stack().len() - 2,
                                    ));
                                }
                                self.execute_binary(op, x, y)
                            }
                        }
                    }
                }
            }
        }
    }

    /// Applies a unary opcode to the already-popped value.
    pub fn execute_unary(&mut self, operation: UnaryOp, value: i64) -> (e: Effect)
        ensures
            final(self).spec_stack() == spec_unary_stack(
                operation,
                value as int,
                old(self).spec_stack(),
            ),
            final(self).spec_regs() == spec_unary_regs(
                operation,
                value as int,
                old(self).spec_regs(),
            ),
            e == spec_unary_effect(operation, value as int),
    {
        match operation {
            UnaryOp::Pop => Effect::Silent,
            UnaryOp::Not => {
                self.stack.push(if value == 0 { 1 } else { 0 });
                Effect::Silent
            }
            UnaryOp::Pointer => {
                let rotation: Rotation = if value < 0 {
                    Rotation::Counter
                } else {
                    Rotation::Clock
                };
                let turns: u64 = mag64(value) % 4;
                proof {
                    lemma_rotate_mod(
                        self.regs.dp,
                        rotation,
                        iabs(value as int),
                    );
                }
                let mut i: u64 = 0;
                while i < turns
                    invariant
                        i <= turns,
                        turns < 4,
                        self.regs.dp == spec_rotate_n(old(self).spec_regs().dp, rotation, i as int),
                        self.regs.cc == old(self).spec_regs().cc,
                        self.regs.pc == old(self).spec_regs().pc,
                        self.stack@ == old(self).spec_stack(),
                    decreases turns - i,
                {
                    self.regs.dp.rotate(rotation);
                    i = i + 1;
                }
                Effect::Silent
            }
            UnaryOp::Switch => {
                if mag64(value) % 2 == 1 {
                    self.regs.cc.toggle();
                }
                Effect::Silent
            }
            UnaryOp::Duplicate => {
                self.stack.push(value);
                self.stack.push(value);
                Effect::Silent
            }
            UnaryOp::OutNum => Effect::OutputNumber(value),
            UnaryOp::OutChar => {
                if 0 <= value && (value < 0xD800 || (0xE000 <= value && value <= 0x10FFFF)) {
                    Effect::OutputChar(value as u32)
                } else {
                    Effect::Fatal(RunError::BadCodePoint)
                }
            }
        }
    }

    /// Applies a binary opcode to the already-popped top `x` and second `y`.
    pub fn execute_binary(&mut self, op: BinaryOp, x: i64, y: i64) -> (e: Effect)
        ensures
            final(self).spec_regs() == old(self).spec_regs(),
            match spec_binary(op, x as int, y as int, old(self).spec_stack()) {
                Ok(s) => final(self).spec_stack() == s && e == Effect::Silent,
                Err(err) => final(self).spec_stack() == old(self).spec_stack() && e
                    == Effect::Fatal(err),
            },
    {
        match op {
            BinaryOp::Add => {
                match x.checked_add(y) {
                    Some(v) => {
                        self.stack.push(v);
                        Effect::Silent
                    }
                    None => Effect::Fatal(RunError::Overflow),
                }
            }
            BinaryOp::Subtract => {
                match y.checked_sub(x) {
                    Some(v) => {
                        self.stack.push(v);
                        Effect::Silent
                    }
                    None => Effect::Fatal(RunError::Overflow),
                }
            }
            BinaryOp::Multiply => {
                match x.checked_mul(y) {
                    Some(v) => {
                        self.stack.push(v);
                        Effect::Silent
                    }
                    None => Effect::Fatal(RunError::Overflow),
                }
            }
            BinaryOp::Divide => {
                if x == 0 {
                    Effect::Fatal(RunError::DivideByZero)
                } else if y == i64::MIN && x == -1 {
                    Effect::Fatal(RunError::Overflow)
                } else {
                    let q: i64 = div_trunc(y, x);
                    self.stack.push(q);
                    Effect::Silent
                }
            }
            BinaryOp::Mod => {
                if x == 0 {
                    Effect::Fatal(RunError::DivideByZero)
                } else if y == i64::MIN && x == -1 {
                    Effect::Fatal(RunError::Overflow)
                } else {
                    let r: i64 = mod_trunc(y, x);
                    self.stack.push(r);
                    Effect::Silent
                }
            }
            BinaryOp::Greater => {
                self.stack.push(if y > x { 1 } else { 0 });
                Effect::Silent
            }
            BinaryOp::Roll => {
                self.roll_stack(x, y);
                Effect::Silent
            }
        }
    }

    /// Rolls the top `y` stack entries by `x` places, per `spec_roll`.
    fn roll_stack(&mut self, x: i64, y: i64)
        ensures
            final(self).spec_stack() == spec_roll(old(self).spec_stack(), x as int, y as int),
            final(self).spec_regs() == old(self).spec_regs(),
    {
        if y <= 0 {
            return ;
        }
        let len: usize = self.stack.len();
        let depth: usize = if y as u64 >= len as u64 {
            len
        } else {
            y as usize
        };
        if depth == 0 {
            return ;
        }
        let start: usize = len - depth;
        let a: u64 = mag64(x) % (depth as u64);
        let shift: usize = if x < 0 {
            a as usize
        } else {
            (((depth as u64) - a) % (depth as u64)) as usize
        };
        let mut tmp: Vec<i64> = Vec::new();
        let mut i: usize = 0;
        while i < depth
            invariant
                i <= depth,
                depth <= len,
                start == len - depth,
                len == self.stack@.len(),
                self.stack@ == old(self).spec_stack(),
                tmp@.len() == i,
                forall|k: int| 0 <= k < i ==> #[trigger] tmp@[k] == self.stack@[start + k],
            decreases depth - i,
        {
            tmp.push(self.stack[start + i]);
            i = i + 1;
        }
        let mut i: usize = 0;
        while i < depth
            invariant
                i <= depth,
                0 < depth <= len,
                shift < depth,
                start == len - depth,
                len == self.stack@.len(),
                self.regs == old(self).spec_regs(),
                tmp@.len() == depth,
                forall|k: int| 0 <= k < depth ==> #[trigger] tmp@[k] == old(self).spec_stack()[start
                    + k],
                forall|k: int| 0 <= k < start ==> #[trigger] self.stack@[k] == old(
                    self,
                ).spec_stack()[k],
                forall|k: int|
                    i <= k < depth ==> #[trigger] self.stack@[start + k] == old(
                        self,
                    ).spec_stack()[start + k],
                forall|k: int|
                    0 <= k < i ==> #[trigger] self.stack@[start + k] == tmp@[(k + shift) % (
                    depth as int)],
            decreases depth - i,
        {
            let j: usize = if i >= depth - shift {
                i - (depth - shift)
            } else {
                i + shift
            };
            proof {
                if i >= depth - shift {
                    assert((i + shift) % (depth as int) == (i + shift - depth) % (depth as int))
                        by {
                        vstd::arithmetic::div_mod::lemma_mod_sub_multiples_vanish(
                            (i + shift) as int,
                            depth as int,
                        );
                    }
                    vstd::arithmetic::div_mod::lemma_small_mod(
                        (i + shift - depth) as nat,
                        depth as nat,
                    );
                } else {
                    vstd::arithmetic::div_mod::lemma_small_mod((i + shift) as nat, depth as nat);
                }
            }
            self.stack.set(start + i, tmp[j]);
            i = i + 1;
        }
        proof {
            let s0 = old(self).spec_stack();
            let sr = spec_roll(s0, x as int, y as int);
            assert(sr.len() == len);
            assert forall|ii: int| 0 <= ii < len implies self.stack@[ii] == #[trigger] sr[ii] by {
                if ii >= start {
                    let k = ii - start;
                    vstd::arithmetic::div_mod::lemma_mod_bound((k + shift) as int, depth as int);
                    assert(self.stack@[start + k] == tmp@[(k + shift) % (depth as int)]);
                    assert(tmp@[(k + shift) % (depth as int)] == s0[start + ((k + shift) % (
                    depth as int))]);
                    assert(ii == start + k);
                }
            }
            assert(self.stack@ =~= sr);
        }
    }
}

impl Default for Cpu {
    /// A fresh engine: empty stack, cursor at the origin, facing right,
    /// counter-clockwise bias.
    fn default() -> (r: Cpu)
        ensures
            r.spec_stack().len() == 0,
            r.spec_regs().pc == ((0usize, 0usize)),
            r.spec_regs().dp == Direction::Right,
            r.spec_regs().cc == Rotation::Counter,
    {
        Cpu {
            stack: Vec::new(),
            regs: Registers { pc: (0, 0), dp: Direction::Right, cc: Rotation::Counter },
        }
    }
}

/// Whether the register state `r` already occurs in `vs`.
fn contains_regs(vs: &Vec<Registers>, r: Registers) -> (b: bool)
    ensures
        b == vs@.contains(r),
{
    let mut i: usize = 0;
    while i < vs.len()
        invariant
            i <= vs@.len(),
            forall|j: int| 0 <= j < i ==> vs@[j] != r,
        decreases vs@.len() - i,
    {
        let v: Registers = vs[i];
        if v.pc.0 == r.pc.0 && v.pc.1 == r.pc.1 && v.dp == r.dp && v.cc == r.cc {
            assert(vs@[i as int] == r);
            return true;
        }
        i = i + 1;
    }
    assert(!vs@.contains(r));
    false
}

/// The flat numbering of a direction used by the state-count argument.
pub open spec fn dir_index(d: Direction) -> int {
    match d {
        Direction::Up => 0,
        Direction::Right => 1,
        Direction::Down => 2,
        Direction::Left => 3,
    }
}

/// The flat numbering of a rotation used by the state-count argument.
pub open spec fn cc_index(c: Rotation) -> int {
    match c {
        Rotation::Counter => 0,
        Rotation::Clock => 1,
    }
}

/// A register state's flat code lies below `8 * w * h`.
proof fn lemma_state_encode(x: int, y: int, d: int, c: int, w: int, h: int)
    by (nonlinear_arith)
    requires
        0 <= x < w,
        0 <= y < h,
        0 <= d < 4,
        0 <= c < 2,
    ensures
        0 <= ((y * w + x) * 4 + d) * 2 + c < 8 * w * h,
{
}

/// Distinct register states have distinct flat codes.
proof fn lemma_state_encode_injective(
    x1: int,
    y1: int,
    d1: int,
    c1: int,
    x2: int,
    y2: int,
    d2: int,
    c2: int,
    w: int,
)
    by (nonlinear_arith)
    requires
        0 <= x1 < w,
        0 <= x2 < w,
        0 <= y1,
        0 <= y2,
        0 <= d1 < 4,
        0 <= d2 < 4,
        0 <= c1 < 2,
        0 <= c2 < 2,
        ((y1 * w + x1) * 4 + d1) * 2 + c1 == ((y2 * w + x2) * 4 + d2) * 2 + c2,
    ensures
        x1 == x2 && y1 == y2 && d1 == d2 && c1 == c2,
{
}

/// The flat code of a register state on a `w`-wide grid.
pub open spec fn regs_encode(r: Registers, w: int) -> int {
    ((r.pc.1 * w + r.pc.0) * 4 + dir_index(r.dp)) * 2 + cc_index(r.cc)
}

/// There are only `8 * w * h` register states on a `w` x `h` grid, so a
/// duplicate-free log of in-bounds states can hold no more than that.
proof fn lemma_visited_bound(vs: Seq<Registers>, w: int, h: int)
    requires
        0 < w,
        0 < h,
        forall|i: int, j: int| 0 <= i < j < vs.len() ==> vs[i] != vs[j],
        forall|i: int| 0 <= i < vs.len() ==> (#[trigger] vs[i]).pc.0 < w && vs[i].pc.1 < h,
    ensures
        vs.len() <= 8 * w * h,
{
    let enc = vs.map_values(|r: Registers| regs_encode(r, w));
    assert forall|i: int| 0 <= i < enc.len() implies 0 <= #[trigger] enc[i] < 8 * w * h by {
        lemma_state_encode(
            vs[i].pc.0 as int,
            vs[i].pc.1 as int,
            dir_index(vs[i].dp),
            cc_index(vs[i].cc),
            w,
            h,
        );
    }
    assert(enc.no_duplicates()) by {
        assert forall|i: int, j: int|
            0 <= i < enc.len() && 0 <= j < enc.len() && i != j implies enc[i] != enc[j] by {
            if enc[i] == enc[j] {
                lemma_state_encode_injective(
                    vs[i].pc.0 as int,
                    vs[i].pc.1 as int,
                    dir_index(vs[i].dp),
                    cc_index(vs[i].cc),
                    vs[j].pc.0 as int,
                    vs[j].pc.1 as int,
                    dir_index(vs[j].dp),
                    cc_index(vs[j].cc),
                    w,
                );
                assert(vs[i] == vs[j]);
            }
        }
    }
    crate::util::lemma_distinct_bounded_len(enc, 8 * w * h);
}

/// Truncated division of `y` by `x`, matching the machine convention.
fn div_trunc(y: i64, x: i64) -> (q: i64)
    requires
        x != 0,
        !(y == i64::MIN && x == -1),
    ensures
        q == trunc_div(y as int, x as int),
{
    let ay: u64 = mag64(y);
    let ax: u64 = mag64(x);
    let qm: u64 = ay / ax;
    proof {
        vstd::arithmetic::div_mod::lemma_div_nonincreasing(ay as int, ax as int);
        vstd::arithmetic::div_mod::lemma_div_pos_is_pos(ay as int, ax as int);
    }
    if (x < 0) != (y < 0) {
        if qm == 0 {
            0
        } else {
            -1 - ((qm - 1) as i64)
        }
    } else {
        if y == i64::MIN {
            // Signs agree and x is not -1, so |x| is at least 2.
            proof {
                vstd::arithmetic::div_mod::lemma_div_is_ordered_by_denominator(
                    ay as int,
                    2,
                    ax as int,
                );
            }
            qm as i64
        } else {
            qm as i64
        }
    }
}

/// The remainder matching truncated division.
fn mod_trunc(y: i64, x: i64) -> (r: i64)
    requires
        x != 0,
        !(y == i64::MIN && x == -1),
    ensures
        r == trunc_mod(y as int, x as int),
{
    let ay: u64 = mag64(y);
    let ax: u64 = mag64(x);
    let qm: u64 = ay / ax;
    let rm: u64 = ay % ax;
    proof {
        let xi = x as int;
        let yi = y as int;
        let axi = ax as int;
        let ayi = ay as int;
        let qi = qm as int;
        let ri = rm as int;
        vstd::arithmetic::div_mod::lemma_fundamental_div_mod(ayi, axi);
        vstd::arithmetic::div_mod::lemma_mod_bound(ayi, axi);
        assert(ayi == axi * qi + ri);
        let td = trunc_div(yi, xi);
        assert(td == if (yi >= 0) == (xi >= 0) {
            qi
        } else {
            -qi
        });
        if yi >= 0 {
            assert(yi - xi * td == ri) by (nonlinear_arith)
                requires
                    yi == ayi,
                    ayi == axi * qi + ri,
                    (xi == axi && td == qi) || (xi == -axi && td == -qi),
            ;
        } else {
            assert(yi - xi * td == -ri) by (nonlinear_arith)
                requires
                    yi == -ayi,
                    ayi == axi * qi + ri,
                    (xi == axi && td == -qi) || (xi == -axi && td == qi),
            ;
        }
    }
    if y < 0 {
        -(rm as i64)
    } else {
        rm as i64
    }
}

} // verus!
