//! The register machine the engine executes.
//!
//! A program is an immutable instruction sequence plus a static initial
//! memory image. Machine state is a program counter, a fixed-size ordered
//! sequence of field-element registers, and a sparse memory mapping addresses
//! to field elements, held canonically as an address-sorted list so that
//! equal states serialize to identical snapshots. The instruction set covers
//! what the engine needs: register arithmetic, memory access, control flow
//! and the oracle call.

use crate::field::FieldElement;
use vstd::prelude::*;

verus! {

/// Memory addresses lie below this bound; an address operand is reduced at
/// it.
pub const ADDR_SPACE: u64 = 0x1_0000_0000;

// ---------------------------------------------------------------------------
// Instructions
// ---------------------------------------------------------------------------
/// One machine instruction. Register operands are indices below the
/// program's register count; jump targets are instruction indices, where the
/// index one past the end halts the machine.
#[derive(Clone, Debug, PartialEq, Eq)]
pub enum Instruction {
    /// `dst := value`.
    SetReg { dst: usize, value: FieldElement },
    /// `dst := lhs + rhs` in the field.
    Add { dst: usize, lhs: usize, rhs: usize },
    /// `dst := lhs * rhs` in the field.
    Mul { dst: usize, lhs: usize, rhs: usize },
    /// `dst := memory[addr register's value, reduced at the address bound]`.
    Load { dst: usize, addr: usize },
    /// `memory[addr register's value, reduced] := src`.
    Store { addr: usize, src: usize },
    /// `pc := target`.
    Jump { target: u64 },
    /// `pc := target` when the register holds zero, else fall through.
    JumpIfZero { cond: usize, target: u64 },
    /// Issue the oracle query `text` and store the answer in `dst`.
    Query { dst: usize, text: Vec<u8> },
}

/// An instruction over mathematical values; the view of `Instruction`.
pub enum SpecInstr {
    SetReg { dst: int, value: int },
    Add { dst: int, lhs: int, rhs: int },
    Mul { dst: int, lhs: int, rhs: int },
    Load { dst: int, addr: int },
    Store { addr: int, src: int },
    Jump { target: int },
    JumpIfZero { cond: int, target: int },
    Query { dst: int, text: Seq<u8> },
}

impl View for Instruction {
    type V = SpecInstr;

    open spec fn view(&self) -> SpecInstr {
        match self {
            Instruction::SetReg { dst, value } => SpecInstr::SetReg {
                dst: *dst as int,
                value: value@,
            },
            Instruction::Add { dst, lhs, rhs } => SpecInstr::Add {
                dst: *dst as int,
                lhs: *lhs as int,
                rhs: *rhs as int,
            },
            Instruction::Mul { dst, lhs, rhs } => SpecInstr::Mul {
                dst: *dst as int,
                lhs: *lhs as int,
                rhs: *rhs as int,
            },
            Instruction::Load { dst, addr } => SpecInstr::Load {
                dst: *dst as int,
                addr: *addr as int,
            },
            Instruction::Store { addr, src } => SpecInstr::Store {
                addr: *addr as int,
                src: *src as int,
            },
            Instruction::Jump { target } => SpecInstr::Jump { target: *target as int },
            Instruction::JumpIfZero { cond, target } => SpecInstr::JumpIfZero {
                cond: *cond as int,
                target: *target as int,
            },
            Instruction::Query { dst, text } => SpecInstr::Query { dst: *dst as int, text: text@ },
        }
    }
}

/// Whether one instruction's operands fit a program with `reg_count`
/// registers and `prog_len` instructions.
pub open spec fn instr_wf(i: SpecInstr, reg_count: int, prog_len: int) -> bool {
    match i {
        SpecInstr::SetReg { dst, value: _ } => 0 <= dst < reg_count,
        SpecInstr::Add { dst, lhs, rhs } => 0 <= dst < reg_count && 0 <= lhs < reg_count && 0
            <= rhs < reg_count,
        SpecInstr::Mul { dst, lhs, rhs } => 0 <= dst < reg_count && 0 <= lhs < reg_count && 0
            <= rhs < reg_count,
        SpecInstr::Load { dst, addr } => 0 <= dst < reg_count && 0 <= addr < reg_count,
        SpecInstr::Store { addr, src } => 0 <= addr < reg_count && 0 <= src < reg_count,
        SpecInstr::Jump { target } => 0 <= target <= prog_len,
        SpecInstr::JumpIfZero { cond, target } => 0 <= cond < reg_count && 0 <= target
            <= prog_len,
        SpecInstr::Query { dst, text: _ } => 0 <= dst < reg_count,
    }
}

// ---------------------------------------------------------------------------
// Programs
// ---------------------------------------------------------------------------
/// A compiled program: the instruction sequence, the static initial memory
/// image, and how many registers the machine has.
#[derive(Clone, Debug, PartialEq, Eq)]
pub struct Program {
    pub instructions: Vec<Instruction>,
    pub initial_memory: Vec<(u64, FieldElement)>,
    pub register_count: usize,
}

/// A program over mathematical values; the view of `Program`.
pub struct SpecProgram {
    pub instrs: Seq<SpecInstr>,
    pub init_mem: Seq<(int, int)>,
    pub reg_count: int,
}

impl View for Program {
    type V = SpecProgram;

    open spec fn view(&self) -> SpecProgram {
        SpecProgram {
            instrs: self.instructions@.map_values(|i: Instruction| i@),
            init_mem: self.initial_memory@.map_values(
                |c: (u64, FieldElement)| (c.0 as int, c.1@),
            ),
            reg_count: self.register_count as int,
        }
    }
}

/// A canonically held sparse memory: strictly address-sorted entries, every
/// address below the address bound.
pub open spec fn mem_wf(m: Seq<(int, int)>) -> bool {
    &&& forall|i: int, j: int|
        0 <= i < j < m.len() ==> (#[trigger] m[i]).0 < (#[trigger] m[j]).0
    &&& forall|i: int| 0 <= i < m.len() ==> 0 <= (#[trigger] m[i]).0 < ADDR_SPACE
}

/// A well-formed program: at least one register, bounded sizes, every
/// operand in range, and a canonical initial memory image.
pub open spec fn prog_wf(p: SpecProgram) -> bool {
    &&& 1 <= p.reg_count <= ADDR_SPACE
    &&& p.instrs.len() <= ADDR_SPACE
    &&& forall|i: int|
        0 <= i < p.instrs.len() ==> instr_wf(#[trigger] p.instrs[i], p.reg_count, p.instrs.len() as int)
    &&& mem_wf(p.init_mem)
}

impl Program {
    /// Checks every operand and the initial memory image: exactly the
    /// well-formedness the executors require.
    pub fn validate(&self) -> (r: bool)
        ensures
            r == prog_wf(self@),
    {
        if self.register_count < 1 || self.register_count as u64 > ADDR_SPACE {
            return false;
        }
        if self.instructions.len() as u64 > ADDR_SPACE {
            return false;
        }
        let rc = self.register_count;
        let pl = self.instructions.len();
        let mut i: usize = 0;
        while i < pl
            invariant
                0 <= i <= pl,
                pl == self.instructions@.len(),
                rc == self.register_count,
                forall|j: int|
                    0 <= j < i ==> instr_wf(
                        #[trigger] self@.instrs[j],
                        self@.reg_count,
                        self@.instrs.len() as int,
                    ),
            decreases pl - i,
        {
            proof {
                assert(self@.instrs[i as int] == self.instructions@[i as int]@);
            }
            let ok = match &self.instructions[i] {
                Instruction::SetReg { dst, .. } => *dst < rc,
                Instruction::Add { dst, lhs, rhs } => *dst < rc && *lhs < rc && *rhs < rc,
                Instruction::Mul { dst, lhs, rhs } => *dst < rc && *lhs < rc && *rhs < rc,
                Instruction::Load { dst, addr } => *dst < rc && *addr < rc,
                Instruction::Store { addr, src } => *addr < rc && *src < rc,
                Instruction::Jump { target } => *target <= pl as u64,
                Instruction::JumpIfZero { cond, target } => *cond < rc && *target <= pl as u64,
                Instruction::Query { dst, .. } => *dst < rc,
            };
            if !ok {
                return false;
            }
            i = i + 1;
        }
        let ml = self.initial_memory.len();
        let mut k: usize = 0;
        while k < ml
            invariant
                0 <= k <= ml,
                ml == self.initial_memory@.len(),
                forall|a: int, b: int|
                    0 <= a < b < k ==> (#[trigger] self@.init_mem[a]).0 < (
                    #[trigger] self@.init_mem[b]).0,
                forall|a: int| 0 <= a < k ==> 0 <= (#[trigger] self@.init_mem[a]).0 < ADDR_SPACE,
            decreases ml - k,
        {
            proof {
                assert(self@.init_mem[k as int].0 == self.initial_memory@[k as int].0 as int);
                if k > 0 {
                    assert(self@.init_mem[k as int - 1].0 == self.initial_memory@[k as int
                        - 1].0 as int);
                }
            }
            if self.initial_memory[k].0 >= ADDR_SPACE {
                return false;
            }
            if k > 0 && self.initial_memory[k - 1].0 >= self.initial_memory[k].0 {
                return false;
            }
            proof {
                assert forall|a: int, b: int| 0 <= a < b < k + 1 implies (
                #[trigger] self@.init_mem[a]).0 < (#[trigger] self@.init_mem[b]).0 by {
                    if b == k {
                        if a < k - 1 {
                            assert(self@.init_mem[a].0 < self@.init_mem[k - 1].0);
                        }
                    }
                }
            }
            k = k + 1;
        }
        true
    }
}

// ---------------------------------------------------------------------------
// Memory
// ---------------------------------------------------------------------------
/// The machine's sparse memory: address-sorted entries, absent cells read as
/// zero.
#[derive(Clone, Debug, PartialEq, Eq)]
pub struct Memory {
    cells: Vec<(u64, FieldElement)>,
}

impl View for Memory {
    type V = Seq<(int, int)>;

    closed spec fn view(&self) -> Seq<(int, int)> {
        self.cells@.map_values(|c: (u64, FieldElement)| (c.0 as int, c.1@))
    }
}

/// What address `a` reads in memory `m`: the first matching entry, or zero.
pub open spec fn spec_mem_read(m: Seq<(int, int)>, a: int) -> int
    decreases m.len(),
{
    if m.len() == 0 {
        0
    } else if m[0].0 == a {
        m[0].1
    } else {
        spec_mem_read(m.drop_first(), a)
    }
}

/// Memory `m` with address `a` bound to `v`, keeping the address order.
pub open spec fn spec_mem_write(m: Seq<(int, int)>, a: int, v: int) -> Seq<(int, int)>
    decreases m.len(),
{
    if m.len() == 0 {
        seq![(a, v)]
    } else if a < m[0].0 {
        seq![(a, v)] + m
    } else if a == m[0].0 {
        m.update(0, (a, v))
    } else {
        seq![m[0]] + spec_mem_write(m.drop_first(), a, v)
    }
}

impl Memory {
    /// An empty memory: every address reads zero.
    pub fn new() -> (r: Self)
        ensures
            r@ =~= Seq::<(int, int)>::empty(),
    {
        Memory { cells: Vec::new() }
    }

    /// A memory holding exactly the given image.
    pub fn from_image(image: &Vec<(u64, FieldElement)>) -> (r: Self)
        ensures
            r@ == image@.map_values(|c: (u64, FieldElement)| (c.0 as int, c.1@)),
    {
        let mut cells: Vec<(u64, FieldElement)> = Vec::new();
        let mut i: usize = 0;
        while i < image.len()
            invariant
                0 <= i <= image@.len(),
                cells@.len() == i,
                forall|j: int| 0 <= j < i ==> cells@[j] == image@[j],
            decreases image@.len() - i,
        {
            cells.push(image[i]);
            i = i + 1;
        }
        proof {
            assert(cells@ =~= image@);
        }
        Memory { cells }
    }

    /// A memory owning exactly the given cells.
    pub fn from_cells(cells: Vec<(u64, FieldElement)>) -> (r: Self)
        ensures
            r@ == cells@.map_values(|c: (u64, FieldElement)| (c.0 as int, c.1@)),
    {
        Memory { cells }
    }

    /// How many cells hold a value.
    pub fn cell_count(&self) -> (r: usize)
        ensures
            r == self@.len(),
    {
        self.cells.len()
    }

    /// The cell at position `i` in address order.
    pub fn cell_at(&self, i: usize) -> (r: (u64, FieldElement))
        requires
            i < self@.len(),
        ensures
            (r.0 as int, r.1@) == self@[i as int],
    {
        self.cells[i]
    }

    /// Reads the cell at `addr`, zero when absent.
    pub fn read(&self, addr: u64) -> (r: FieldElement)
        requires
            mem_wf(self@),
        ensures
            r@ == spec_mem_read(self@, addr as int),
    {
        let mut i: usize = 0;
        let n = self.cells.len();
        proof {
            assert(self@.skip(0) =~= self@);
        }
        while i < n
            invariant
                0 <= i <= n,
                n == self.cells@.len(),
                n == self@.len(),
                spec_mem_read(self@, addr as int) == spec_mem_read(
                    self@.skip(i as int),
                    addr as int,
                ),
            decreases n - i,
        {
            if self.cells[i].0 == addr {
                proof {
                    assert(self@.skip(i as int)[0] == self@[i as int]);
                }
                return self.cells[i].1;
            }
            proof {
                assert(self@.skip(i as int)[0] == self@[i as int]);
                assert(self@.skip(i as int).drop_first() =~= self@.skip(i as int + 1));
            }
            i = i + 1;
        }
        proof {
            assert(self@.skip(i as int) =~= Seq::<(int, int)>::empty());
        }
        FieldElement::zero()
    }

    /// Binds `addr` to `val`, keeping the canonical address order.
    pub fn write(&mut self, addr: u64, val: FieldElement)
        requires
            mem_wf(old(self)@),
            addr < ADDR_SPACE,
        ensures
            final(self)@ == spec_mem_write(old(self)@, addr as int, val@),
            mem_wf(final(self)@),
    {
        let ghost m0 = self@;
        proof {
            assert(m0 == self.cells@.map_values(|c: (u64, FieldElement)| (c.0 as int, c.1@)));
        }
        let mut i: usize = 0;
        let n = self.cells.len();
        while i < n && self.cells[i].0 < addr
            invariant
                0 <= i <= n,
                n == self.cells@.len(),
                *self == *old(self),
                m0 == self@,
                m0.len() == n,
                forall|j: int| 0 <= j < i ==> (#[trigger] m0[j]).0 < addr,
            decreases n - i,
        {
            proof {
                assert(m0[i as int] == (self.cells@[i as int].0 as int, self.cells@[i as int].1@));
            }
            i = i + 1;
        }
        if i < n && self.cells[i].0 == addr {
            self.cells.set(i, (addr, val));
            proof {
                assert(self@ =~= m0.update(i as int, (addr as int, val@)));
                lemma_mem_write_update(m0, addr as int, val@, i as int);
                lemma_mem_write_wf(m0, addr as int, val@);
            }
        } else {
            proof {
                if i < n {
                    let ghost c = self.cells@[i as int];
                    assert(m0[i as int] == (c.0 as int, c.1@));
                    assert(m0[i as int].0 > addr);
                }
            }
            self.cells.insert(i, (addr, val));
            proof {
                assert(self@ =~= m0.take(i as int) + seq![(addr as int, val@)] + m0.skip(
                    i as int,
                ));
                lemma_mem_write_insert(m0, addr as int, val@, i as int);
                lemma_mem_write_wf(m0, addr as int, val@);
            }
        }
    }
}

proof fn lemma_mem_write_update(m: Seq<(int, int)>, a: int, v: int, i: int)
    requires
        mem_wf(m),
        0 <= i < m.len(),
        m[i].0 == a,
        forall|j: int| 0 <= j < i ==> (#[trigger] m[j]).0 < a,
    ensures
        spec_mem_write(m, a, v) == m.update(i, (a, v)),
    decreases i,
{
    if i == 0 {
        assert(spec_mem_write(m, a, v) == m.update(0, (a, v)));
    } else {
        assert(m[0].0 < a);
        lemma_mem_write_update(m.drop_first(), a, v, i - 1);
        assert(spec_mem_write(m, a, v) == seq![m[0]] + spec_mem_write(m.drop_first(), a, v));
        assert(seq![m[0]] + m.drop_first().update(i - 1, (a, v)) =~= m.update(i, (a, v)));
    }
}

proof fn lemma_mem_write_insert(m: Seq<(int, int)>, a: int, v: int, i: int)
    requires
        mem_wf(m),
        0 <= i <= m.len(),
        forall|j: int| 0 <= j < i ==> (#[trigger] m[j]).0 < a,
        i < m.len() ==> m[i].0 > a,
    ensures
        spec_mem_write(m, a, v) == m.take(i) + seq![(a, v)] + m.skip(i),
    decreases i,
{
    if i == 0 {
        if m.len() == 0 {
            assert(spec_mem_write(m, a, v) =~= m.take(0) + seq![(a, v)] + m.skip(0));
        } else {
            assert(m[0].0 > a);
            assert(m.take(0) + seq![(a, v)] + m.skip(0) =~= seq![(a, v)] + m);
        }
    } else {
        assert(m[0].0 < a);
        lemma_mem_write_insert(m.drop_first(), a, v, i - 1);
        assert(spec_mem_write(m, a, v) == seq![m[0]] + spec_mem_write(m.drop_first(), a, v));
        assert(seq![m[0]] + (m.drop_first().take(i - 1) + seq![(a, v)] + m.drop_first().skip(
            i - 1,
        )) =~= m.take(i) + seq![(a, v)] + m.skip(i));
    }
}

/// Writing a bounded address keeps the memory canonical.
pub proof fn lemma_mem_write_wf(m: Seq<(int, int)>, a: int, v: int)
    requires
        mem_wf(m),
        0 <= a < ADDR_SPACE,
    ensures
        mem_wf(spec_mem_write(m, a, v)),
        spec_mem_write(m, a, v).len() <= m.len() + 1,
    decreases m.len(),
{
    let w = spec_mem_write(m, a, v);
    if m.len() == 0 {
    } else if a < m[0].0 {
        assert forall|i: int, j: int| 0 <= i < j < w.len() implies (#[trigger] w[i]).0 < (
        #[trigger] w[j]).0 by {
            if i > 0 {
                assert(w[i] == m[i - 1] && w[j] == m[j - 1]);
            } else if j > 0 {
                assert(w[j] == m[j - 1]);
                if j > 1 {
                    assert(m[0].0 < m[j - 1].0);
                }
            }
        }
        assert forall|i: int| 0 <= i < w.len() implies 0 <= (#[trigger] w[i]).0 < ADDR_SPACE by {
            if i > 0 {
                assert(w[i] == m[i - 1]);
            }
        }
    } else if a == m[0].0 {
    } else {
        assert(mem_wf(m.drop_first()));
        lemma_mem_write_wf(m.drop_first(), a, v);
        let w1 = spec_mem_write(m.drop_first(), a, v);
        assert(w == seq![m[0]] + w1);
        assert forall|i: int, j: int| 0 <= i < j < w.len() implies (#[trigger] w[i]).0 < (
        #[trigger] w[j]).0 by {
            if i > 0 {
                assert(w[i] == w1[i - 1] && w[j] == w1[j - 1]);
            } else {
                assert(w[j] == w1[j - 1]);
                lemma_mem_write_floor(m.drop_first(), a, v, m[0].0);
            }
        }
        assert forall|i: int| 0 <= i < w.len() implies 0 <= (#[trigger] w[i]).0 < ADDR_SPACE by {
            if i > 0 {
                assert(w[i] == w1[i - 1]);
            }
        }
    }
}

/// Every address in the written memory is an old address or the new one.
proof fn lemma_mem_write_floor(m: Seq<(int, int)>, a: int, v: int, lo: int)
    requires
        mem_wf(m),
        lo < a,
        forall|j: int| 0 <= j < m.len() ==> lo < (#[trigger] m[j]).0,
    ensures
        forall|j: int|
            0 <= j < spec_mem_write(m, a, v).len() ==> lo < (#[trigger] spec_mem_write(
                m,
                a,
                v,
            )[j]).0,
    decreases m.len(),
{
    let w = spec_mem_write(m, a, v);
    if m.len() == 0 {
    } else if a < m[0].0 {
        assert forall|j: int| 0 <= j < w.len() implies lo < (#[trigger] w[j]).0 by {
            if j > 0 {
                assert(w[j] == m[j - 1]);
            }
        }
    } else if a == m[0].0 {
    } else {
        assert(mem_wf(m.drop_first()));
        lemma_mem_write_floor(m.drop_first(), a, v, lo);
        let w1 = spec_mem_write(m.drop_first(), a, v);
        assert forall|j: int| 0 <= j < w.len() implies lo < (#[trigger] w[j]).0 by {
            if j > 0 {
                assert(w[j] == w1[j - 1]);
            }
        }
    }
}

// ---------------------------------------------------------------------------
// Machine state
// ---------------------------------------------------------------------------
/// The full machine state: program counter, registers, memory. Everything a
/// chunk boundary must capture.
#[derive(Clone, Debug, PartialEq, Eq)]
pub struct ExecutionState {
    pub pc: u64,
    pub registers: Vec<FieldElement>,
    pub memory: Memory,
}

/// Machine state over mathematical values; the view of `ExecutionState`.
pub struct MachineState {
    pub pc: int,
    pub regs: Seq<int>,
    pub mem: Seq<(int, int)>,
}

impl View for ExecutionState {
    type V = MachineState;

    open spec fn view(&self) -> MachineState {
        MachineState {
            pc: self.pc as int,
            regs: self.registers@.map_values(|fe: FieldElement| fe@),
            mem: self.memory@,
        }
    }
}

/// A state that fits the program: the counter at or before the end, one
/// register per program register, a canonical memory.
pub open spec fn state_wf(p: SpecProgram, s: MachineState) -> bool {
    &&& 0 <= s.pc <= p.instrs.len()
    &&& s.regs.len() == p.reg_count
    &&& mem_wf(s.mem)
}

/// The machine's start state: counter zero, all registers zero, the
/// program's initial memory image.
pub open spec fn spec_initial_state(p: SpecProgram) -> MachineState {
    MachineState { pc: 0, regs: Seq::new(p.reg_count as nat, |i: int| 0), mem: p.init_mem }
}

/// Builds the start state for `p`.
pub fn initial_state(p: &Program) -> (s: ExecutionState)
    requires
        prog_wf(p@),
    ensures
        s@ == spec_initial_state(p@),
        state_wf(p@, s@),
{
    let mut registers: Vec<FieldElement> = Vec::new();
    let mut i: usize = 0;
    while i < p.register_count
        invariant
            0 <= i <= p.register_count,
            registers@.len() == i,
            forall|j: int| 0 <= j < i ==> (#[trigger] registers@[j])@ == 0,
        decreases p.register_count - i,
    {
        registers.push(FieldElement::zero());
        i = i + 1;
    }
    let memory = Memory::from_image(&p.initial_memory);
    let s = ExecutionState { pc: 0, registers, memory };
    proof {
        assert(s@.regs =~= Seq::new(p@.reg_count as nat, |j: int| 0));
        assert(s@.mem == p@.init_mem);
    }
    s
}

} // verus!
