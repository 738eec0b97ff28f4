//! Executing the machine: one instruction at a time, and whole runs.
//!
//! Execution is strictly single-threaded and cooperatively sequential: the
//! interpreter loop runs until it halts, exhausts its cycle ceiling, or
//! reaches an oracle call, which is serviced synchronously before the loop
//! resumes. The whole semantics is the mathematical function `spec_run`; the
//! fast executor and the trace executor are proved to compute exactly it, so
//! any two runs on the same program, table and ceiling agree bit for bit.

use crate::errors::QueryError;
use crate::machine::{
    instr_wf, mem_wf, prog_wf, spec_initial_state, spec_mem_read, spec_mem_write, state_wf,
    initial_state, ExecutionState, Instruction, MachineState, Program, SpecInstr, SpecProgram,
    ADDR_SPACE,
};
use crate::query::{copy_bytes, respond, spec_respond, QueryFailure};
use crate::table::DataTable;
use crate::field::{FieldElement, FIELD_MODULUS};
use vstd::prelude::*;

verus! {

// ---------------------------------------------------------------------------
// The semantics of one instruction
// ---------------------------------------------------------------------------
/// What one machine step does: halt, advance with some emitted output, or
/// fail on a defective oracle query.
pub enum StepSpec {
    Halted,
    Ran { next: MachineState, emitted: Seq<u8> },
    Failed(QueryFailure),
}

/// The machine's transition function: the meaning of the instruction at the
/// program counter, including the synchronous answer to an oracle call.
pub open spec fn spec_step(p: SpecProgram, t: Seq<(int, Seq<int>)>, s: MachineState) -> StepSpec {
    if !(0 <= s.pc < p.instrs.len()) {
        StepSpec::Halted
    } else {
        match p.instrs[s.pc] {
            SpecInstr::SetReg { dst, value } => StepSpec::Ran {
                next: MachineState { pc: s.pc + 1, regs: s.regs.update(dst, value), mem: s.mem },
                emitted: Seq::<u8>::empty(),
            },
            SpecInstr::Add { dst, lhs, rhs } => StepSpec::Ran {
                next: MachineState {
                    pc: s.pc + 1,
                    regs: s.regs.update(
                        dst,
                        (s.regs[lhs] + s.regs[rhs]) % (FIELD_MODULUS as int),
                    ),
                    mem: s.mem,
                },
                emitted: Seq::<u8>::empty(),
            },
            SpecInstr::Mul { dst, lhs, rhs } => StepSpec::Ran {
                next: MachineState {
                    pc: s.pc + 1,
                    regs: s.regs.update(
                        dst,
                        (s.regs[lhs] * s.regs[rhs]) % (FIELD_MODULUS as int),
                    ),
                    mem: s.mem,
                },
                emitted: Seq::<u8>::empty(),
            },
            SpecInstr::Load { dst, addr } => StepSpec::Ran {
                next: MachineState {
                    pc: s.pc + 1,
                    regs: s.regs.update(
                        dst,
                        spec_mem_read(s.mem, s.regs[addr] % (ADDR_SPACE as int)),
                    ),
                    mem: s.mem,
                },
                emitted: Seq::<u8>::empty(),
            },
            SpecInstr::Store { addr, src } => StepSpec::Ran {
                next: MachineState {
                    pc: s.pc + 1,
                    regs: s.regs,
                    mem: spec_mem_write(s.mem, s.regs[addr] % (ADDR_SPACE as int), s.regs[src]),
                },
                emitted: Seq::<u8>::empty(),
            },
            SpecInstr::Jump { target } => StepSpec::Ran {
                next: MachineState { pc: target, regs: s.regs, mem: s.mem },
                emitted: Seq::<u8>::empty(),
            },
            SpecInstr::JumpIfZero { cond, target } => StepSpec::Ran {
                next: MachineState {
                    pc: if s.regs[cond] == 0 {
                        target
                    } else {
                        s.pc + 1
                    },
                    regs: s.regs,
                    mem: s.mem,
                },
                emitted: Seq::<u8>::empty(),
            },
            SpecInstr::Query { dst, text } => match spec_respond(text, t) {
                Ok(answer) => match answer.0 {
                    Some(v) => StepSpec::Ran {
                        next: MachineState {
                            pc: s.pc + 1,
                            regs: s.regs.update(dst, v),
                            mem: s.mem,
                        },
                        emitted: answer.1,
                    },
                    None => StepSpec::Failed(QueryFailure::Unknown(text)),
                },
                Err(f) => StepSpec::Failed(f),
            },
        }
    }
}

/// A step from a well-formed state lands in a well-formed state.
pub proof fn lemma_step_wf(p: SpecProgram, t: Seq<(int, Seq<int>)>, s: MachineState)
    requires
        prog_wf(p),
        state_wf(p, s),
    ensures
        spec_step(p, t, s) matches StepSpec::Ran { next, .. } ==> state_wf(p, next),
{
    if 0 <= s.pc < p.instrs.len() {
        assert(instr_wf(p.instrs[s.pc], p.reg_count, p.instrs.len() as int));
        match p.instrs[s.pc] {
            SpecInstr::Store { addr, src } => {
                let a = s.regs[addr] % (ADDR_SPACE as int);
                crate::machine::lemma_mem_write_wf(s.mem, a, s.regs[src]);
            },
            _ => {},
        }
    }
}

// ---------------------------------------------------------------------------
// The semantics of a bounded run
// ---------------------------------------------------------------------------
/// How a bounded run ends: the program halted, the fuel ran out first, or an
/// oracle query failed.
pub enum RunStatus {
    Halted,
    OutOfCycles,
    Failed(QueryFailure),
}

/// Everything a bounded run determines: the final state, the executed cycle
/// count, the bytes emitted in order, the state before each executed cycle,
/// and how the run ended.
pub struct RunResult {
    pub state: MachineState,
    pub cycles: nat,
    pub output: Seq<u8>,
    pub trail: Seq<MachineState>,
    pub status: RunStatus,
}

/// Runs the machine from `s` for at most `fuel` cycles.
pub open spec fn spec_run(
    p: SpecProgram,
    t: Seq<(int, Seq<int>)>,
    s: MachineState,
    fuel: nat,
) -> RunResult
    decreases fuel,
{
    if fuel == 0 {
        RunResult {
            state: s,
            cycles: 0,
            output: Seq::<u8>::empty(),
            trail: Seq::<MachineState>::empty(),
            status: RunStatus::OutOfCycles,
        }
    } else {
        match spec_step(p, t, s) {
            StepSpec::Halted => RunResult {
                state: s,
                cycles: 0,
                output: Seq::<u8>::empty(),
                trail: Seq::<MachineState>::empty(),
                status: RunStatus::Halted,
            },
            StepSpec::Failed(f) => RunResult {
                state: s,
                cycles: 0,
                output: Seq::<u8>::empty(),
                trail: Seq::<MachineState>::empty(),
                status: RunStatus::Failed(f),
            },
            StepSpec::Ran { next, emitted } => {
                let rest = spec_run(p, t, next, (fuel - 1) as nat);
                RunResult {
                    state: rest.state,
                    cycles: rest.cycles + 1,
                    output: emitted + rest.output,
                    trail: seq![s] + rest.trail,
                    status: rest.status,
                }
            },
        }
    }
}

/// Bookkeeping facts of every run: the cycle count is bounded by the fuel
/// and counts the trail; a run that did not exhaust its fuel ended at a
/// halting or failing state.
pub proof fn lemma_run_basic(p: SpecProgram, t: Seq<(int, Seq<int>)>, s: MachineState, fuel: nat)
    ensures
        spec_run(p, t, s, fuel).cycles <= fuel,
        spec_run(p, t, s, fuel).status is OutOfCycles ==> spec_run(p, t, s, fuel).cycles == fuel,
        spec_run(p, t, s, fuel).trail.len() == spec_run(p, t, s, fuel).cycles,
        spec_run(p, t, s, fuel).status is Halted ==> spec_step(p, t, spec_run(p, t, s, fuel).state)
            is Halted,
        spec_run(p, t, s, fuel).status matches RunStatus::Failed(f) ==> spec_step(
            p,
            t,
            spec_run(p, t, s, fuel).state,
        ) == StepSpec::Failed(f),
    decreases fuel,
{
    if fuel > 0 {
        match spec_step(p, t, s) {
            StepSpec::Ran { next, emitted: _ } => {
                lemma_run_basic(p, t, next, (fuel - 1) as nat);
            },
            _ => {},
        }
    }
}

/// A run from a well-formed state stays well-formed, at the end and at every
/// state along the trail.
pub proof fn lemma_run_wf(p: SpecProgram, t: Seq<(int, Seq<int>)>, s: MachineState, fuel: nat)
    requires
        prog_wf(p),
        state_wf(p, s),
    ensures
        state_wf(p, spec_run(p, t, s, fuel).state),
        forall|i: int|
            0 <= i < spec_run(p, t, s, fuel).trail.len() ==> state_wf(
                p,
                #[trigger] spec_run(p, t, s, fuel).trail[i],
            ),
    decreases fuel,
{
    lemma_step_wf(p, t, s);
    if fuel > 0 {
        match spec_step(p, t, s) {
            StepSpec::Ran { next, emitted: _ } => {
                lemma_run_wf(p, t, next, (fuel - 1) as nat);
                let r = spec_run(p, t, s, fuel);
                let rest = spec_run(p, t, next, (fuel - 1) as nat);
                assert forall|i: int| 0 <= i < r.trail.len() implies state_wf(
                    p,
                    #[trigger] r.trail[i],
                ) by {
                    if i > 0 {
                        assert(r.trail[i] == rest.trail[i - 1]);
                    }
                }
            },
            _ => {},
        }
    }
}

/// Law: a run splits at any fuel boundary. Running `a + b` cycles is running
/// `a` cycles and, where the fuel and not the program was the limit, running
/// `b` more from the state reached: states chain, and cycle counts, emitted
/// output and trails concatenate. This is what makes chunked execution sound.
pub proof fn lemma_run_split(
    p: SpecProgram,
    t: Seq<(int, Seq<int>)>,
    s: MachineState,
    a: nat,
    b: nat,
)
    ensures
        ({
            let whole = spec_run(p, t, s, a + b);
            let first = spec_run(p, t, s, a);
            if first.status is OutOfCycles {
                let second = spec_run(p, t, first.state, b);
                whole.state == second.state && whole.cycles == first.cycles + second.cycles
                    && whole.output == first.output + second.output && whole.trail == first.trail
                    + second.trail && whole.status == second.status
            } else {
                whole == first
            }
        }),
    decreases a,
{
    let whole = spec_run(p, t, s, a + b);
    let first = spec_run(p, t, s, a);
    if a == 0 {
        let second = spec_run(p, t, s, b);
        assert(whole == second);
        assert(first.output + second.output =~= second.output);
        assert(first.trail + second.trail =~= second.trail);
    } else {
        match spec_step(p, t, s) {
            StepSpec::Halted => {
                assert(whole == first);
            },
            StepSpec::Failed(f) => {
                assert(whole == first);
            },
            StepSpec::Ran { next, emitted: _ } => {
                lemma_run_split(p, t, next, (a - 1) as nat, b);
                let f1 = spec_run(p, t, next, (a - 1) as nat);
                let w1 = spec_run(p, t, next, ((a - 1) + b) as nat);
                assert((a + b - 1) as nat == ((a - 1) + b) as nat);
                if f1.status is OutOfCycles {
                    let second = spec_run(p, t, f1.state, b);
                    assert(first.state == f1.state);
                    assert(whole.output =~= first.output + second.output);
                    assert(whole.trail =~= first.trail + second.trail);
                } else {
                    assert(whole.output =~= first.output);
                    assert(whole.trail =~= first.trail);
                }
            },
        }
    }
}

// ---------------------------------------------------------------------------
// The executable step
// ---------------------------------------------------------------------------
/// Whether an executed step advanced or found the machine halted.
pub enum StepOutcome {
    Ran,
    Halted,
}

/// Executes the instruction at the program counter, mutating the state in
/// place and appending any emitted bytes to `output`: exactly one
/// `spec_step` transition.
pub fn step(p: &Program, t: &DataTable, s: &mut ExecutionState, output: &mut Vec<u8>) -> (r:
    Result<StepOutcome, QueryError>)
    requires
        prog_wf(p@),
        state_wf(p@, old(s)@),
    ensures
        match r {
            Ok(StepOutcome::Halted) => spec_step(p@, t@, old(s)@) is Halted && *final(s) == *old(s)
                && final(output)@ == old(output)@,
            Ok(StepOutcome::Ran) => spec_step(p@, t@, old(s)@) matches StepSpec::Ran {
                next,
                emitted,
            } && final(s)@ == next && final(output)@ == old(output)@ + emitted && state_wf(
                p@,
                final(s)@,
            ),
            Err(e) => spec_step(p@, t@, old(s)@) == StepSpec::Failed(e@) && *final(s) == *old(s)
                && final(output)@ == old(output)@,
        },
{
    proof {
        lemma_step_wf(p@, t@, old(s)@);
        assert(old(output)@ + Seq::<u8>::empty() =~= old(output)@);
    }
    let pc = s.pc;
    if pc >= p.instructions.len() as u64 {
        return Ok(StepOutcome::Halted);
    }
    let pci = pc as usize;
    proof {
        assert(p@.instrs[pc as int] == p.instructions@[pc as int]@);
        assert(instr_wf(p@.instrs[pc as int], p@.reg_count, p@.instrs.len() as int));
    }
    let ghost regs0 = s@.regs;
    match &p.instructions[pci] {
        Instruction::SetReg { dst, value } => {
            s.registers.set(*dst, *value);
            s.pc = pc + 1;
            proof {
                assert(s@.regs =~= regs0.update(*dst as int, value@));
            }
            Ok(StepOutcome::Ran)
        },
        Instruction::Add { dst, lhs, rhs } => {
            let v = s.registers[*lhs].add(s.registers[*rhs]);
            s.registers.set(*dst, v);
            s.pc = pc + 1;
            proof {
                assert(s@.regs =~= regs0.update(
                    *dst as int,
                    (regs0[*lhs as int] + regs0[*rhs as int]) % (FIELD_MODULUS as int),
                ));
            }
            Ok(StepOutcome::Ran)
        },
        Instruction::Mul { dst, lhs, rhs } => {
            let v = s.registers[*lhs].mul(s.registers[*rhs]);
            s.registers.set(*dst, v);
            s.pc = pc + 1;
            proof {
                assert(s@.regs =~= regs0.update(
                    *dst as int,
                    (regs0[*lhs as int] * regs0[*rhs as int]) % (FIELD_MODULUS as int),
                ));
            }
            Ok(StepOutcome::Ran)
        },
        Instruction::Load { dst, addr } => {
            let a = s.registers[*addr].val() % ADDR_SPACE;
            let v = s.memory.read(a);
            s.registers.set(*dst, v);
            s.pc = pc + 1;
            proof {
                assert(a as int == regs0[*addr as int] % (ADDR_SPACE as int));
                assert(s@.regs =~= regs0.update(
                    *dst as int,
                    spec_mem_read(s@.mem, regs0[*addr as int] % (ADDR_SPACE as int)),
                ));
            }
            Ok(StepOutcome::Ran)
        },
        Instruction::Store { addr, src } => {
            let a = s.registers[*addr].val() % ADDR_SPACE;
            let v = s.registers[*src];
            s.memory.write(a, v);
            s.pc = pc + 1;
            proof {
                assert(a as int == regs0[*addr as int] % (ADDR_SPACE as int));
                assert(s@.regs =~= regs0);
            }
            Ok(StepOutcome::Ran)
        },
        Instruction::Jump { target } => {
            s.pc = *target;
            Ok(StepOutcome::Ran)
        },
        Instruction::JumpIfZero { cond, target } => {
            if s.registers[*cond].val() == 0 {
                s.pc = *target;
            } else {
                s.pc = pc + 1;
            }
            Ok(StepOutcome::Ran)
        },
        Instruction::Query { dst, text } => {
            match respond(text, t, output) {
                Ok(Some(fe)) => {
                    s.registers.set(*dst, fe);
                    s.pc = pc + 1;
                    proof {
                        assert(s@.regs =~= regs0.update(*dst as int, fe@));
                    }
                    Ok(StepOutcome::Ran)
                },
                Ok(None) => Err(QueryError::Unsupported(copy_bytes(text))),
                Err(e) => Err(e),
            }
        },
    }
}

// ---------------------------------------------------------------------------
// The fast executor
// ---------------------------------------------------------------------------
/// What a whole run produced: the final state, the executed cycle count, the
/// collected host output, and whether the program halted (rather than
/// running out of its cycle ceiling).
#[derive(Debug)]
pub struct ExecutionReport {
    pub state: ExecutionState,
    pub cycles: u64,
    pub output: Vec<u8>,
    pub halted: bool,
}

/// Runs the machine from `start` for at most `max_cycles` cycles: exactly
/// `spec_run`. No per-cycle history is retained.
#[verifier::loop_isolation(false)]
pub fn run_machine(p: &Program, t: &DataTable, start: ExecutionState, max_cycles: u64) -> (r:
    Result<ExecutionReport, QueryError>)
    requires
        prog_wf(p@),
        state_wf(p@, start@),
    ensures
        ({
            let sr = spec_run(p@, t@, start@, max_cycles as nat);
            match r {
                Ok(rep) => !(sr.status is Failed) && rep.state@ == sr.state && rep.cycles
                    == sr.cycles && rep.output@ == sr.output && (rep.halted <==> sr.status
                    is Halted) && state_wf(p@, rep.state@),
                Err(e) => sr.status == RunStatus::Failed(e@),
            }
        }),
{
    let ghost full = spec_run(p@, t@, start@, max_cycles as nat);
    let mut s = start;
    let mut output: Vec<u8> = Vec::new();
    let mut cycles: u64 = 0;
    proof {
        assert(Seq::<u8>::empty() + full.output =~= full.output);
    }
    loop
        invariant
            prog_wf(p@),
            state_wf(p@, s@),
            cycles <= max_cycles,
            ({
                let sub = spec_run(p@, t@, s@, (max_cycles - cycles) as nat);
                full.state == sub.state && full.cycles == cycles + sub.cycles && full.output
                    == output@ + sub.output && full.status == sub.status
            }),
        decreases max_cycles - cycles,
    {
        let ghost sub = spec_run(p@, t@, s@, (max_cycles - cycles) as nat);
        if cycles == max_cycles {
            proof {
                assert(sub.cycles == 0 && sub.status is OutOfCycles && sub.state == s@);
                assert(output@ + sub.output =~= output@);
            }
            return Ok(ExecutionReport { state: s, cycles, output, halted: false });
        }
        proof {
            assert((max_cycles - cycles) as nat > 0);
        }
        let ghost out0 = output@;
        let ghost s0 = s@;
        match step(p, t, &mut s, &mut output) {
            Ok(StepOutcome::Halted) => {
                proof {
                    assert(spec_step(p@, t@, s0) is Halted);
                    assert(sub.cycles == 0 && sub.status is Halted && sub.state == s0);
                    assert(output@ + sub.output =~= output@);
                }
                return Ok(ExecutionReport { state: s, cycles, output, halted: true });
            },
            Ok(StepOutcome::Ran) => {
                proof {
                    let stepped = spec_step(p@, t@, s0);
                    let em = stepped->emitted;
                    let sub2 = spec_run(p@, t@, s@, (max_cycles - cycles - 1) as nat);
                    assert(sub.state == sub2.state && sub.cycles == sub2.cycles + 1 && sub.status
                        == sub2.status && sub.output == em + sub2.output);
                    assert(out0 + (em + sub2.output) =~= (out0 + em) + sub2.output);
                }
                cycles = cycles + 1;
            },
            Err(e) => {
                proof {
                    assert(spec_step(p@, t@, s0) == StepSpec::Failed(e@));
                    assert(sub.status == RunStatus::Failed(e@));
                }
                return Err(e);
            },
        }
    }
}

// ---------------------------------------------------------------------------
// The trace executor
// ---------------------------------------------------------------------------
/// One witness row: the per-cycle assignment of the proof circuit's columns,
/// here the program counter followed by every register.
pub open spec fn spec_row(s: MachineState) -> Seq<int> {
    seq![s.pc] + s.regs
}

/// What a traced run produced: one row per executed cycle in order, then
/// everything the fast executor reports.
#[derive(Debug)]
pub struct TraceReport {
    pub rows: Vec<Vec<FieldElement>>,
    pub state: ExecutionState,
    pub cycles: u64,
    pub output: Vec<u8>,
    pub halted: bool,
}

/// The row for the machine's current state.
fn state_row(s: &ExecutionState) -> (row: Vec<FieldElement>)
    requires
        s@.pc < FIELD_MODULUS,
    ensures
        row@.map_values(|fe: FieldElement| fe@) == spec_row(s@),
{
    let mut row: Vec<FieldElement> = Vec::new();
    proof {
        vstd::arithmetic::div_mod::lemma_small_mod(s.pc as nat, FIELD_MODULUS as nat);
    }
    row.push(FieldElement::from_u64(s.pc));
    let mut i: usize = 0;
    let rc = s.registers.len();
    while i < rc
        invariant
            0 <= i <= rc,
            rc == s.registers@.len(),
            row@.len() == 1 + i,
            row@[0]@ == s@.pc,
            forall|j: int| 0 <= j < i ==> (#[trigger] row@[1 + j])@ == s@.regs[j],
        decreases rc - i,
    {
        row.push(s.registers[i]);
        proof {
            assert(s@.regs[i as int] == s.registers@[i as int]@);
        }
        i = i + 1;
    }
    proof {
        let got = row@.map_values(|fe: FieldElement| fe@);
        assert forall|idx: int| 0 <= idx < got.len() implies got[idx] == spec_row(s@)[idx] by {
            assert(got[idx] == row@[idx]@);
            if idx > 0 {
                let j = idx - 1;
                assert((row@[1 + j])@ == s@.regs[j]);
            }
        }
        assert(got =~= spec_row(s@));
    }
    row
}

/// Runs the machine from `start` for at most `max_cycles` cycles, recording
/// the state row of every executed cycle: exactly `spec_run`, trail
/// included.
#[verifier::loop_isolation(false)]
pub fn run_machine_trace(p: &Program, t: &DataTable, start: ExecutionState, max_cycles: u64) -> (r:
    Result<TraceReport, QueryError>)
    requires
        prog_wf(p@),
        state_wf(p@, start@),
    ensures
        ({
            let sr = spec_run(p@, t@, start@, max_cycles as nat);
            match r {
                Ok(rep) => !(sr.status is Failed) && rep.state@ == sr.state && rep.cycles
                    == sr.cycles && rep.output@ == sr.output && (rep.halted <==> sr.status
                    is Halted) && state_wf(p@, rep.state@) && rep.rows@.map_values(
                    |row: Vec<FieldElement>| row@.map_values(|fe: FieldElement| fe@),
                ) == sr.trail.map_values(|ms: MachineState| spec_row(ms)),
                Err(e) => sr.status == RunStatus::Failed(e@),
            }
        }),
{
    let ghost full = spec_run(p@, t@, start@, max_cycles as nat);
    let ghost rowify = |row: Vec<FieldElement>| row@.map_values(|fe: FieldElement| fe@);
    let ghost rowspec = |ms: MachineState| spec_row(ms);
    let mut s = start;
    let mut rows: Vec<Vec<FieldElement>> = Vec::new();
    let mut output: Vec<u8> = Vec::new();
    let mut cycles: u64 = 0;
    let ghost mut trail_done: Seq<MachineState> = Seq::empty();
    proof {
        assert(Seq::<u8>::empty() + full.output =~= full.output);
        assert(Seq::<MachineState>::empty() + full.trail =~= full.trail);
        assert(rows@.map_values(rowify) =~~= trail_done.map_values(rowspec));
    }
    loop
        invariant
            state_wf(p@, s@),
            cycles <= max_cycles,
            trail_done.len() == cycles,
            rows@.map_values(rowify) == trail_done.map_values(rowspec),
            ({
                let sub = spec_run(p@, t@, s@, (max_cycles - cycles) as nat);
                full.state == sub.state && full.cycles == cycles + sub.cycles && full.output
                    == output@ + sub.output && full.trail == trail_done + sub.trail
                    && full.status == sub.status
            }),
        decreases max_cycles - cycles,
    {
        let ghost sub = spec_run(p@, t@, s@, (max_cycles - cycles) as nat);
        if cycles == max_cycles {
            proof {
                assert(output@ + sub.output =~= output@);
                assert(trail_done + sub.trail =~= trail_done);
            }
            return Ok(TraceReport { rows, state: s, cycles, output, halted: false });
        }
        if s.pc >= p.instructions.len() as u64 {
            proof {
                assert(spec_step(p@, t@, s@) is Halted);
                assert(sub.status is Halted && sub.cycles == 0 && sub.state == s@);
                assert(output@ + sub.output =~= output@);
                assert(trail_done + sub.trail =~= trail_done);
            }
            return Ok(TraceReport { rows, state: s, cycles, output, halted: true });
        }
        let row = state_row(&s);
        let ghost rows_pre = rows@.map_values(rowify);
        rows.push(row);
        let ghost out0 = output@;
        let ghost s0 = s@;
        match step(p, t, &mut s, &mut output) {
            Ok(StepOutcome::Halted) => {
                // The counter was checked against the program's end above,
                // so the step cannot find the machine halted.
                proof {
                    assert(false);
                }
                return Err(QueryError::UnknownChannel { channel: 0 });
            },
            Ok(StepOutcome::Ran) => {
                proof {
                    let stepped = spec_step(p@, t@, s0);
                    let em = stepped->emitted;
                    let sub2 = spec_run(p@, t@, s@, (max_cycles - cycles - 1) as nat);
                    assert(sub.state == sub2.state && sub.cycles == sub2.cycles + 1 && sub.status
                        == sub2.status && sub.output == em + sub2.output && sub.trail == seq![s0]
                        + sub2.trail);
                    assert(out0 + (em + sub2.output) =~= (out0 + em) + sub2.output);
                    assert(trail_done + (seq![s0] + sub2.trail) =~= trail_done.push(s0)
                        + sub2.trail);
                    trail_done = trail_done.push(s0);
                    assert(rows@.map_values(rowify) =~~= rows_pre.push(spec_row(s0)));
                    assert(trail_done.map_values(rowspec) =~~= rows_pre.push(spec_row(s0)));
                }
                cycles = cycles + 1;
            },
            Err(e) => {
                proof {
                    assert(spec_step(p@, t@, s0) == StepSpec::Failed(e@));
                    assert(sub.status == RunStatus::Failed(e@));
                }
                return Err(e);
            },
        }
    }
}

/// The fast executor: runs the program from its start state to completion or
/// to the cycle ceiling, producing only the final state, the cycle count and
/// the collected output.
pub fn execute(p: &Program, t: &DataTable, max_cycles: u64) -> (r: Result<
    ExecutionReport,
    QueryError,
>)
    requires
        prog_wf(p@),
    ensures
        ({
            let sr = spec_run(p@, t@, spec_initial_state(p@), max_cycles as nat);
            match r {
                Ok(rep) => !(sr.status is Failed) && rep.state@ == sr.state && rep.cycles
                    == sr.cycles && rep.output@ == sr.output && (rep.halted <==> sr.status
                    is Halted),
                Err(e) => sr.status == RunStatus::Failed(e@),
            }
        }),
{
    let start = initial_state(p);
    run_machine(p, t, start, max_cycles)
}

} // verus!
