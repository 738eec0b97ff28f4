//! The staged pipeline: lazy, memoized computation of per-program and
//! per-chunk artifacts.
//!
//! `advance_to` is the sole mutator: it computes every missing stage up to
//! the requested one and caches the artifacts, so repeated calls with an
//! unchanged program and inputs are idempotent and recompute nothing — each
//! stage's run counter is the call-count probe that makes the memoization
//! observable. The parsed program, its analysis and the fixed columns depend
//! only on the program; only the witness depends on the chunk's bootloader
//! input and the data table, so reseeding a chunk keeps every earlier
//! artifact.

use crate::bootloader::{spec_decode_state, BootloaderInput};
use crate::errors::PipelineError;
use crate::exec::{run_machine_trace, spec_row, spec_run, RunStatus, TraceReport};
use crate::field::{FieldElement, FIELD_MODULUS};
use crate::machine::{
    initial_state, prog_wf, spec_initial_state, state_wf, Instruction, MachineState, Program,
    SpecInstr, SpecProgram,
};
use crate::table::DataTable;
use vstd::prelude::*;

verus! {

/// The stages, in their total order. Witness needs the chunk's seed; Proof
/// belongs to a backend this core does not carry.
#[derive(Clone, Copy, Debug, PartialEq, Eq, Structural)]
pub enum PipelineStage {
    ParsedAssembly,
    AnalyzedAssembly,
    FixedColumns,
    Witness,
    Proof,
}

/// The position of a stage in the pipeline's total order.
pub open spec fn stage_rank(s: PipelineStage) -> int {
    match s {
        PipelineStage::ParsedAssembly => 0,
        PipelineStage::AnalyzedAssembly => 1,
        PipelineStage::FixedColumns => 2,
        PipelineStage::Witness => 3,
        PipelineStage::Proof => 4,
    }
}

/// Whether `a` comes at or before `b` in the stage order.
pub fn stage_le(a: PipelineStage, b: PipelineStage) -> (r: bool)
    ensures
        r == (stage_rank(a) <= stage_rank(b)),
{
    stage_index(a) <= stage_index(b)
}

fn stage_index(s: PipelineStage) -> (r: u8)
    ensures
        r as int == stage_rank(s),
{
    match s {
        PipelineStage::ParsedAssembly => 0,
        PipelineStage::AnalyzedAssembly => 1,
        PipelineStage::FixedColumns => 2,
        PipelineStage::Witness => 3,
        PipelineStage::Proof => 4,
    }
}

// ---------------------------------------------------------------------------
// Stage artifacts
// ---------------------------------------------------------------------------
/// The analyzed-assembly artifact: static counts over the instruction
/// sequence.
#[derive(Clone, Copy, Debug, PartialEq, Eq, Structural)]
pub struct ProgramStats {
    pub instruction_count: u64,
    pub query_count: u64,
}

/// How many instructions of the sequence are oracle calls.
pub open spec fn spec_query_count(instrs: Seq<SpecInstr>) -> int
    decreases instrs.len(),
{
    if instrs.len() == 0 {
        0
    } else {
        spec_query_count(instrs.drop_last()) + if instrs.last() is Query {
            1int
        } else {
            0int
        }
    }
}

/// The fixed-column row of one instruction: its opcode and operands, the
/// program ROM the circuit is constrained against.
pub open spec fn spec_instr_row(i: SpecInstr) -> Seq<int> {
    match i {
        SpecInstr::SetReg { dst, value } => seq![1, dst, value, 0],
        SpecInstr::Add { dst, lhs, rhs } => seq![2, dst, lhs, rhs],
        SpecInstr::Mul { dst, lhs, rhs } => seq![3, dst, lhs, rhs],
        SpecInstr::Load { dst, addr } => seq![4, dst, addr, 0],
        SpecInstr::Store { addr, src } => seq![5, addr, src, 0],
        SpecInstr::Jump { target } => seq![6, target, 0, 0],
        SpecInstr::JumpIfZero { cond, target } => seq![7, cond, target, 0],
        SpecInstr::Query { dst, text: _ } => seq![8, dst, 0, 0],
    }
}

/// The fixed columns: the instruction rows in program order. They depend on
/// the program alone, never on chunk data, so one computation serves every
/// chunk and every test.
pub open spec fn spec_fixed_columns(instrs: Seq<SpecInstr>) -> Seq<int>
    decreases instrs.len(),
{
    if instrs.len() == 0 {
        Seq::<int>::empty()
    } else {
        spec_fixed_columns(instrs.drop_last()) + spec_instr_row(instrs.last())
    }
}

/// Computes the analyzed-assembly artifact.
fn compute_stats(p: &Program) -> (r: ProgramStats)
    requires
        prog_wf(p@),
    ensures
        r.instruction_count == p@.instrs.len(),
        r.query_count == spec_query_count(p@.instrs),
{
    let n = p.instructions.len();
    let mut queries: u64 = 0;
    let mut i: usize = 0;
    proof {
        assert(p@.instrs.subrange(0, 0) =~= Seq::<SpecInstr>::empty());
    }
    while i < n
        invariant
            0 <= i <= n,
            n == p.instructions@.len(),
            n == p@.instrs.len(),
            n <= 0x1_0000_0000,
            queries == spec_query_count(p@.instrs.subrange(0, i as int)),
            queries <= i,
        decreases n - i,
    {
        proof {
            let pre = p@.instrs.subrange(0, i as int);
            let ext = p@.instrs.subrange(0, i as int + 1);
            assert(ext.drop_last() =~= pre);
            assert(ext.last() == p@.instrs[i as int]);
            assert(p@.instrs[i as int] == p.instructions@[i as int]@);
        }
        let is_query = match &p.instructions[i] {
            Instruction::Query { .. } => true,
            _ => false,
        };
        if is_query {
            queries = queries + 1;
        }
        i = i + 1;
    }
    proof {
        assert(p@.instrs.subrange(0, i as int) =~= p@.instrs);
    }
    ProgramStats { instruction_count: n as u64, query_count: queries }
}

/// Computes the fixed columns.
fn compute_fixed_columns(p: &Program) -> (r: Vec<FieldElement>)
    requires
        prog_wf(p@),
    ensures
        r@.map_values(|fe: FieldElement| fe@) == spec_fixed_columns(p@.instrs),
{
    let n = p.instructions.len();
    let mut r: Vec<FieldElement> = Vec::new();
    let mut i: usize = 0;
    proof {
        assert(p@.instrs.subrange(0, 0) =~= Seq::<SpecInstr>::empty());
        assert(r@.map_values(|fe: FieldElement| fe@) =~= spec_fixed_columns(
            p@.instrs.subrange(0, 0),
        ));
    }
    while i < n
        invariant
            0 <= i <= n,
            n == p.instructions@.len(),
            n == p@.instrs.len(),
            prog_wf(p@),
            r@.map_values(|fe: FieldElement| fe@) == spec_fixed_columns(
                p@.instrs.subrange(0, i as int),
            ),
        decreases n - i,
    {
        proof {
            let pre = p@.instrs.subrange(0, i as int);
            let ext = p@.instrs.subrange(0, i as int + 1);
            assert(ext.drop_last() =~= pre);
            assert(ext.last() == p@.instrs[i as int]);
            assert(p@.instrs[i as int] == p.instructions@[i as int]@);
            assert(crate::machine::instr_wf(p@.instrs[i as int], p@.reg_count, p@.instrs.len() as int));
        }
        let (a, b, c, d): (u64, u64, u64, u64) = match &p.instructions[i] {
            Instruction::SetReg { dst, value } => (1, *dst as u64, value.val(), 0),
            Instruction::Add { dst, lhs, rhs } => (2, *dst as u64, *lhs as u64, *rhs as u64),
            Instruction::Mul { dst, lhs, rhs } => (3, *dst as u64, *lhs as u64, *rhs as u64),
            Instruction::Load { dst, addr } => (4, *dst as u64, *addr as u64, 0),
            Instruction::Store { addr, src } => (5, *addr as u64, *src as u64, 0),
            Instruction::Jump { target } => (6, *target, 0, 0),
            Instruction::JumpIfZero { cond, target } => (7, *cond as u64, *target, 0),
            Instruction::Query { dst, .. } => (8, *dst as u64, 0, 0),
        };
        proof {
            vstd::arithmetic::div_mod::lemma_small_mod(a as nat, FIELD_MODULUS as nat);
            vstd::arithmetic::div_mod::lemma_small_mod(b as nat, FIELD_MODULUS as nat);
            vstd::arithmetic::div_mod::lemma_small_mod(c as nat, FIELD_MODULUS as nat);
            vstd::arithmetic::div_mod::lemma_small_mod(d as nat, FIELD_MODULUS as nat);
        }
        r.push(FieldElement::from_u64(a));
        r.push(FieldElement::from_u64(b));
        r.push(FieldElement::from_u64(c));
        r.push(FieldElement::from_u64(d));
        proof {
            let pre = p@.instrs.subrange(0, i as int);
            let ext = p@.instrs.subrange(0, i as int + 1);
            assert(spec_instr_row(p@.instrs[i as int]) =~= seq![
                a as int,
                b as int,
                c as int,
                d as int,
            ]);
            assert(r@.map_values(|fe: FieldElement| fe@) =~= spec_fixed_columns(pre)
                + spec_instr_row(p@.instrs[i as int]));
        }
        i = i + 1;
    }
    proof {
        assert(p@.instrs.subrange(0, i as int) =~= p@.instrs);
    }
    r
}

// ---------------------------------------------------------------------------
// The pipeline
// ---------------------------------------------------------------------------
/// The state a chunk's execution starts from: the decoded bootloader input,
/// or the program's start state when no seed is set.
pub open spec fn spec_seed_state(p: SpecProgram, seed: Option<BootloaderInput>) -> Option<
    MachineState,
> {
    match seed {
        None => Some(spec_initial_state(p)),
        Some(b) => spec_decode_state(p, b@),
    }
}

/// Whether the witness stage can succeed: the seed decodes, and the chunk's
/// run fails no oracle query.
pub open spec fn witness_available(
    p: SpecProgram,
    t: Seq<(int, Seq<int>)>,
    seed: Option<BootloaderInput>,
    budget: nat,
) -> bool {
    match spec_seed_state(p, seed) {
        Some(s0) => !(spec_run(p, t, s0, budget).status is Failed),
        None => false,
    }
}

/// Whether `w` is the witness of the chunk starting at `s0`: the rows are
/// the per-cycle states of the bounded run, and the exit data matches it.
pub open spec fn witness_content(
    p: SpecProgram,
    t: Seq<(int, Seq<int>)>,
    s0: MachineState,
    budget: nat,
    w: TraceReport,
) -> bool {
    let r = spec_run(p, t, s0, budget);
    &&& w.rows@.map_values(|row: Vec<FieldElement>| row@.map_values(|fe: FieldElement| fe@))
        == r.trail.map_values(|ms: MachineState| spec_row(ms))
    &&& w.state@ == r.state
    &&& w.cycles == r.cycles
    &&& w.output@ == r.output
    &&& (w.halted <==> r.status is Halted)
}

/// The staged pipeline for one program: the cached artifacts, the chunk
/// seed, and one run counter per stage as the call-count probe.
pub struct Pipeline {
    pub program: Program,
    pub table: DataTable,
    pub budget: u64,
    pub seed: Option<BootloaderInput>,
    pub parsed: bool,
    pub stats: Option<ProgramStats>,
    pub fixed: Option<Vec<FieldElement>>,
    pub witness: Option<TraceReport>,
    pub parse_runs: u64,
    pub analyze_runs: u64,
    pub fixed_runs: u64,
    pub witness_runs: u64,
}

/// The pipeline's artifacts are consistent with its program, table, seed
/// and budget: what the cache holds is what the collaborators compute.
pub open spec fn pipeline_wf(pl: Pipeline) -> bool {
    &&& pl.parsed ==> prog_wf(pl.program@)
    &&& pl.stats matches Some(st) ==> prog_wf(pl.program@) && st.instruction_count
        == pl.program@.instrs.len() && st.query_count == spec_query_count(pl.program@.instrs)
    &&& pl.fixed matches Some(f) ==> prog_wf(pl.program@) && f@.map_values(
        |fe: FieldElement| fe@,
    ) == spec_fixed_columns(pl.program@.instrs)
    &&& pl.witness matches Some(w) ==> prog_wf(pl.program@) && witness_available(
        pl.program@,
        pl.table@,
        pl.seed,
        pl.budget as nat,
    ) && (spec_seed_state(pl.program@, pl.seed) matches Some(s0) && witness_content(
        pl.program@,
        pl.table@,
        s0,
        pl.budget as nat,
        w,
    ))
}

fn bump(c: u64) -> (r: u64)
    ensures
        r == if c < u64::MAX {
            c + 1
        } else {
            c as int
        },
{
    if c < u64::MAX {
        c + 1
    } else {
        c
    }
}

pub(crate) fn one_message(text: &str) -> (r: PipelineError)
    ensures
        r.messages@.len() == 1,
{
    let mut messages: Vec<String> = Vec::new();
    messages.push(String::from_str(text));
    PipelineError { messages }
}

impl Pipeline {
    /// A fresh pipeline: nothing computed yet, no chunk seed, all probes at
    /// zero.
    pub fn new(program: Program, table: DataTable, budget: u64) -> (r: Self)
        ensures
            r.program == program,
            r.table == table,
            r.budget == budget,
            r.seed is None,
            !r.parsed,
            r.stats is None,
            r.fixed is None,
            r.witness is None,
            r.parse_runs == 0 && r.analyze_runs == 0 && r.fixed_runs == 0 && r.witness_runs == 0,
            pipeline_wf(r),
    {
        Pipeline {
            program,
            table,
            budget,
            seed: None,
            parsed: false,
            stats: None,
            fixed: None,
            witness: None,
            parse_runs: 0,
            analyze_runs: 0,
            fixed_runs: 0,
            witness_runs: 0,
        }
    }

    /// Seeds the next chunk: only the witness depends on the seed, so every
    /// earlier artifact — the parse, the analysis, the fixed columns — is
    /// kept, and the stale witness is dropped.
    pub fn seed_chunk(&mut self, seed: BootloaderInput)
        requires
            pipeline_wf(*old(self)),
        ensures
            pipeline_wf(*final(self)),
            final(self).seed == Some(seed),
            final(self).witness is None,
            final(self).program == old(self).program,
            final(self).table == old(self).table,
            final(self).budget == old(self).budget,
            final(self).parsed == old(self).parsed,
            final(self).stats == old(self).stats,
            final(self).fixed == old(self).fixed,
            final(self).parse_runs == old(self).parse_runs,
            final(self).analyze_runs == old(self).analyze_runs,
            final(self).fixed_runs == old(self).fixed_runs,
            final(self).witness_runs == old(self).witness_runs,
    {
        self.seed = Some(seed);
        self.witness = None;
    }

    /// Computes every stage up to `stage` that is not cached yet, in order,
    /// reusing — never recomputing — every artifact already present.
    /// Succeeds exactly when the program validates, each needed collaborator
    /// succeeds, and no proof backend is asked for.
    pub fn advance_to(&mut self, stage: PipelineStage) -> (r: Result<(), PipelineError>)
        requires
            pipeline_wf(*old(self)),
        ensures
            pipeline_wf(*final(self)),
            final(self).program == old(self).program,
            final(self).table == old(self).table,
            final(self).budget == old(self).budget,
            final(self).seed == old(self).seed,
            // memoization: a cached artifact is returned as it is, and its
            // collaborator is not called again
            old(self).parsed ==> final(self).parsed && final(self).parse_runs
                == old(self).parse_runs,
            old(self).stats is Some ==> final(self).stats == old(self).stats
                && final(self).analyze_runs == old(self).analyze_runs,
            old(self).fixed is Some ==> final(self).fixed == old(self).fixed
                && final(self).fixed_runs == old(self).fixed_runs,
            old(self).witness is Some ==> final(self).witness == old(self).witness
                && final(self).witness_runs == old(self).witness_runs,
            // success is owed exactly here
            r is Ok <==> stage_rank(stage) <= 3 && prog_wf(old(self).program@) && (stage_rank(
                stage,
            ) >= 3 ==> witness_available(
                old(self).program@,
                old(self).table@,
                old(self).seed,
                old(self).budget as nat,
            )),
            r matches Err(e) ==> e.messages@.len() >= 1,
            // what each computed stage holds
            r is Ok ==> final(self).parsed && prog_wf(old(self).program@),
            r is Ok && stage_rank(stage) >= 1 ==> (final(self).stats matches Some(st)
                && st.instruction_count == old(self).program@.instrs.len() && st.query_count
                == spec_query_count(old(self).program@.instrs)),
            r is Ok && stage_rank(stage) >= 2 ==> (final(self).fixed matches Some(f)
                && f@.map_values(|fe: FieldElement| fe@) == spec_fixed_columns(
                old(self).program@.instrs,
            )),
            r is Ok && stage_rank(stage) >= 3 ==> (final(self).witness matches Some(w) && (
            spec_seed_state(old(self).program@, old(self).seed) matches Some(s0)
                && witness_content(
                old(self).program@,
                old(self).table@,
                s0,
                old(self).budget as nat,
                w,
            ))),
            // stages past the requested one are not touched: the pipeline is
            // lazy
            stage_rank(stage) < 1 ==> final(self).stats == old(self).stats
                && final(self).analyze_runs == old(self).analyze_runs,
            stage_rank(stage) < 2 ==> final(self).fixed == old(self).fixed
                && final(self).fixed_runs == old(self).fixed_runs,
            stage_rank(stage) < 3 ==> final(self).witness == old(self).witness
                && final(self).witness_runs == old(self).witness_runs,
            // the probes move exactly when a missing artifact is computed
            !old(self).parsed && final(self).parsed && old(self).parse_runs < u64::MAX
                ==> final(self).parse_runs == old(self).parse_runs + 1,
            old(self).stats is None && final(self).stats is Some && old(self).analyze_runs
                < u64::MAX ==> final(self).analyze_runs == old(self).analyze_runs + 1,
            old(self).fixed is None && final(self).fixed is Some && old(self).fixed_runs
                < u64::MAX ==> final(self).fixed_runs == old(self).fixed_runs + 1,
            old(self).witness is None && final(self).witness is Some && old(self).witness_runs
                < u64::MAX ==> final(self).witness_runs == old(self).witness_runs + 1,
    {
        let goal = stage_index(stage);
        if !self.parsed {
            if !self.program.validate() {
                return Err(one_message("the program failed validation"));
            }
            self.parsed = true;
            self.parse_runs = bump(self.parse_runs);
        }
        if goal >= 1 && self.stats.is_none() {
            let st = compute_stats(&self.program);
            self.stats = Some(st);
            self.analyze_runs = bump(self.analyze_runs);
        }
        if goal >= 2 && self.fixed.is_none() {
            let f = compute_fixed_columns(&self.program);
            self.fixed = Some(f);
            self.fixed_runs = bump(self.fixed_runs);
        }
        if goal >= 3 && self.witness.is_none() {
            let start = match &self.seed {
                None => initial_state(&self.program),
                Some(b) => {
                    match crate::bootloader::decode_state(&self.program, b) {
                        Some(st) => st,
                        None => {
                            return Err(
                                one_message("the bootloader input does not decode to a state"),
                            );
                        },
                    }
                },
            };
            match run_machine_trace(&self.program, &self.table, start, self.budget) {
                Ok(tr) => {
                    self.witness = Some(tr);
                    self.witness_runs = bump(self.witness_runs);
                },
                Err(e) => {
                    return Err(one_message("an oracle query failed during witness computation"));
                },
            }
        }
        if goal >= 4 {
            return Err(one_message("no proof backend is attached to this pipeline"));
        }
        Ok(())
    }
}

} // verus!
