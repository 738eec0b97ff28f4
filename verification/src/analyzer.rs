//! The dry-run continuation analyzer.
//!
//! The analyzer executes the program exactly as the fast executor does, but
//! serializes the machine state into a bootloader input at the start of every
//! chunk: after each budget's worth of cycles the per-chunk counter resets
//! and execution continues from the same state, so the analysis pass runs the
//! true program continuously. The snapshot sequence it produces is a pure
//! function of the program, the data table, the budget and the ceiling —
//! no clock, no unstable iteration order — so two runs agree bit for bit.
//! Only the later witness passes re-enter execution through a bootloader,
//! one chunk at a time; the continuation-equivalence law proves that those
//! replays chain back into the one unchunked execution.

use crate::bootloader::{lemma_snapshot_round_trip, spec_decode_state, spec_encode_state};
use crate::errors::QueryError;
use crate::exec::{
    lemma_run_basic, lemma_run_split, lemma_run_wf, run_machine, spec_run, spec_step, RunStatus,
    StepSpec,
};
use crate::machine::{
    initial_state, prog_wf, spec_initial_state, state_wf, ExecutionState, MachineState, Program,
    SpecProgram,
};
use crate::bootloader::{encode_state, BootloaderInput};
use crate::query::QueryFailure;
use crate::table::DataTable;
use vstd::prelude::*;

verus! {

/// How an analysis ended: the program halted; the cycle ceiling (or a zero
/// budget) stopped it with work remaining; or an oracle query failed.
pub enum AnalysisStatus {
    Completed,
    Stopped,
    Failed(QueryFailure),
}

/// Everything one dry run determines: the chunk start states in execution
/// order, their serialized snapshots, where the run ended, the total cycle
/// count, the collected output, and how it ended.
pub struct SpecAnalysis {
    pub starts: Seq<MachineState>,
    pub snapshots: Seq<Seq<int>>,
    pub state: MachineState,
    pub cycles: nat,
    pub output: Seq<u8>,
    pub status: AnalysisStatus,
}

/// The dry run from `s`: one snapshot at the start of each chunk, up to
/// `budget` cycles per chunk, at most `fuel` cycles in all.
pub open spec fn spec_analyze(
    p: SpecProgram,
    t: Seq<(int, Seq<int>)>,
    s: MachineState,
    budget: nat,
    fuel: nat,
) -> SpecAnalysis
    decreases fuel,
{
    if spec_step(p, t, s) is Halted {
        SpecAnalysis {
            starts: Seq::<MachineState>::empty(),
            snapshots: Seq::<Seq<int>>::empty(),
            state: s,
            cycles: 0,
            output: Seq::<u8>::empty(),
            status: AnalysisStatus::Completed,
        }
    } else if budget == 0 || fuel == 0 {
        SpecAnalysis {
            starts: seq![s],
            snapshots: seq![spec_encode_state(s)],
            state: s,
            cycles: 0,
            output: Seq::<u8>::empty(),
            status: AnalysisStatus::Stopped,
        }
    } else {
        let cf = if budget <= fuel {
            budget
        } else {
            fuel
        };
        let r = spec_run(p, t, s, cf);
        match r.status {
            RunStatus::Failed(f) => SpecAnalysis {
                starts: seq![s],
                snapshots: seq![spec_encode_state(s)],
                state: r.state,
                cycles: r.cycles,
                output: r.output,
                status: AnalysisStatus::Failed(f),
            },
            RunStatus::Halted => SpecAnalysis {
                starts: seq![s],
                snapshots: seq![spec_encode_state(s)],
                state: r.state,
                cycles: r.cycles,
                output: r.output,
                status: AnalysisStatus::Completed,
            },
            RunStatus::OutOfCycles => {
                let rest = spec_analyze(p, t, r.state, budget, (fuel - cf) as nat);
                SpecAnalysis {
                    starts: seq![s] + rest.starts,
                    snapshots: seq![spec_encode_state(s)] + rest.snapshots,
                    state: rest.state,
                    cycles: r.cycles + rest.cycles,
                    output: r.output + rest.output,
                    status: rest.status,
                }
            },
        }
    }
}

/// The output of replaying each chunk from its start state for the budget,
/// concatenated in chunk order.
pub open spec fn spec_chunk_outputs(
    p: SpecProgram,
    t: Seq<(int, Seq<int>)>,
    starts: Seq<MachineState>,
    budget: nat,
) -> Seq<u8>
    decreases starts.len(),
{
    if starts.len() == 0 {
        Seq::<u8>::empty()
    } else {
        spec_run(p, t, starts[0], budget).output + spec_chunk_outputs(
            p,
            t,
            starts.drop_first(),
            budget,
        )
    }
}

/// The start state is well-formed for every well-formed program.
pub proof fn lemma_initial_state_wf(p: SpecProgram)
    requires
        prog_wf(p),
    ensures
        state_wf(p, spec_initial_state(p)),
{
}

/// Law: the analyzer is deterministic. Its whole result — boundary count,
/// every bootloader input, final state, cycle count and output — is a
/// mathematical function of the program, the table, the budget and the
/// ceiling alone; the executable analyzer's contract pins its result to that
/// function, so two runs on the same inputs agree bit for bit.
pub proof fn lemma_analysis_deterministic(
    p: SpecProgram,
    t: Seq<(int, Seq<int>)>,
    budget: nat,
    fuel: nat,
    a1: SpecAnalysis,
    a2: SpecAnalysis,
)
    requires
        a1 == spec_analyze(p, t, spec_initial_state(p), budget, fuel),
        a2 == spec_analyze(p, t, spec_initial_state(p), budget, fuel),
    ensures
        a1 == a2,
        a1.snapshots == a2.snapshots,
        a1.starts.len() == a2.starts.len(),
{
}

/// Law: a zero chunk budget on a program that has not already halted still
/// surfaces exactly one boundary, before the first instruction, carrying the
/// unmodified initial state.
pub proof fn lemma_zero_budget_boundary(p: SpecProgram, t: Seq<(int, Seq<int>)>, fuel: nat)
    requires
        prog_wf(p),
        !(spec_step(p, t, spec_initial_state(p)) is Halted),
    ensures
        ({
            let an = spec_analyze(p, t, spec_initial_state(p), 0, fuel);
            an.starts == seq![spec_initial_state(p)] && an.snapshots == seq![
                spec_encode_state(spec_initial_state(p)),
            ] && an.state == spec_initial_state(p) && an.cycles == 0 && an.status
                == AnalysisStatus::Stopped
        }),
{
}

/// The heart of continuation equivalence, by induction over the chunks of a
/// completed analysis from an arbitrary state.
proof fn lemma_analysis_chunks(
    p: SpecProgram,
    t: Seq<(int, Seq<int>)>,
    s: MachineState,
    budget: nat,
    fuel: nat,
)
    requires
        prog_wf(p),
        state_wf(p, s),
        spec_analyze(p, t, s, budget, fuel).status is Completed,
    ensures
        ({
            let an = spec_analyze(p, t, s, budget, fuel);
            let run = spec_run(p, t, s, fuel);
            &&& an.snapshots.len() == an.starts.len()
            &&& an.cycles <= fuel
            &&& (an.starts.len() > 0 ==> an.starts[0] == s)
            &&& forall|i: int|
                0 <= i < an.starts.len() ==> state_wf(p, #[trigger] an.starts[i])
            &&& forall|i: int|
                0 <= i < an.starts.len() ==> #[trigger] an.snapshots[i] == spec_encode_state(
                    an.starts[i],
                )
            &&& forall|i: int|
                0 <= i < an.starts.len() - 1 ==> (#[trigger] spec_run(
                    p,
                    t,
                    an.starts[i],
                    budget,
                )).status is OutOfCycles && spec_run(p, t, an.starts[i], budget).state
                    == an.starts[i + 1]
            &&& (an.starts.len() > 0 ==> !(spec_run(
                p,
                t,
                an.starts[an.starts.len() - 1],
                budget,
            ).status is Failed) && spec_run(p, t, an.starts[an.starts.len() - 1], budget).state
                == an.state)
            &&& spec_step(p, t, an.state) is Halted
            &&& spec_chunk_outputs(p, t, an.starts, budget) == an.output
            &&& run.state == an.state
            &&& run.output == an.output
            &&& run.cycles == an.cycles
            &&& (run.status is Halted || an.cycles == fuel)
        }),
    decreases fuel,
{
    let an = spec_analyze(p, t, s, budget, fuel);
    let run = spec_run(p, t, s, fuel);
    if spec_step(p, t, s) is Halted {
        assert(spec_chunk_outputs(p, t, an.starts, budget) =~= an.output);
        assert(run.output =~= an.output);
    } else {
        assert(!(budget == 0 || fuel == 0));
        let cf = if budget <= fuel {
            budget
        } else {
            fuel
        };
        let r = spec_run(p, t, s, cf);
        lemma_run_basic(p, t, s, cf);
        lemma_run_wf(p, t, s, cf);
        match r.status {
            RunStatus::Failed(f) => {
                assert(false);
            },
            RunStatus::Halted => {
                // One final chunk: the program halts within its budget.
                assert(an.starts =~= seq![s]);
                let last = spec_run(p, t, s, budget);
                if budget <= fuel {
                    assert(last == r);
                } else {
                    lemma_run_split(p, t, s, cf, (budget - cf) as nat);
                }
                lemma_run_split(p, t, s, cf, (fuel - cf) as nat);
                assert(spec_chunk_outputs(p, t, seq![s].drop_first(), budget) =~= Seq::<
                    u8,
                >::empty());
                assert(spec_chunk_outputs(p, t, an.starts, budget) =~= an.output);
            },
            RunStatus::OutOfCycles => {
                assert(r.cycles == cf);
                let rest = spec_analyze(p, t, r.state, budget, (fuel - cf) as nat);
                lemma_analysis_chunks(p, t, r.state, budget, (fuel - cf) as nat);
                let rrun = spec_run(p, t, r.state, (fuel - cf) as nat);
                // The whole run splits at the chunk boundary.
                lemma_run_split(p, t, s, cf, (fuel - cf) as nat);
                assert(run.state == rrun.state && run.output == r.output + rrun.output
                    && run.cycles == cf + rrun.cycles && run.status == rrun.status);
                assert(an.starts == seq![s] + rest.starts);
                assert(an.starts.len() == 1 + rest.starts.len());
                assert(an.starts[0] == s);
                assert forall|i: int| 0 <= i < an.starts.len() implies state_wf(
                    p,
                    #[trigger] an.starts[i],
                ) by {
                    if i > 0 {
                        assert(an.starts[i] == rest.starts[i - 1]);
                    }
                }
                assert forall|i: int| 0 <= i < an.starts.len() implies #[trigger] an.snapshots[i]
                    == spec_encode_state(an.starts[i]) by {
                    if i > 0 {
                        assert(an.snapshots[i] == rest.snapshots[i - 1]);
                        assert(an.starts[i] == rest.starts[i - 1]);
                    } else {
                        assert(an.snapshots[0] == spec_encode_state(s));
                    }
                }
                // A chunk followed by another chunk ran a full budget.
                if rest.starts.len() > 0 {
                    if cf != budget {
                        assert(cf == fuel && fuel - cf == 0);
                        assert(rest.starts.len() == 0);
                    }
                    assert(cf == budget);
                    assert(rest.starts[0] == r.state);
                }
                assert forall|i: int| 0 <= i < an.starts.len() - 1 implies (#[trigger] spec_run(
                    p,
                    t,
                    an.starts[i],
                    budget,
                )).status is OutOfCycles && spec_run(p, t, an.starts[i], budget).state
                    == an.starts[i + 1] by {
                    if i == 0 {
                        assert(an.starts[0] == s);
                        assert(spec_run(p, t, s, budget) == r);
                        assert(an.starts[1] == rest.starts[0]);
                    } else {
                        assert(an.starts[i] == rest.starts[i - 1]);
                        assert(an.starts[i + 1] == rest.starts[i]);
                        assert((spec_run(p, t, rest.starts[i - 1], budget)).status
                            is OutOfCycles && spec_run(p, t, rest.starts[i - 1], budget).state
                            == rest.starts[i]);
                    }
                }
                // The last chunk ends at the analyzer's final state.
                let n = an.starts.len();
                if rest.starts.len() > 0 {
                    assert(an.starts[n - 1] == rest.starts[rest.starts.len() - 1]);
                } else {
                    // This chunk is the last: the program halts right at (or
                    // before) the boundary.
                    assert(an.starts[n - 1] == s);
                    assert(rest.state == r.state && rest.cycles == 0);
                    assert(spec_step(p, t, r.state) is Halted);
                    if budget <= fuel {
                        assert(spec_run(p, t, s, budget) == r);
                    } else {
                        lemma_run_split(p, t, s, cf, (budget - cf) as nat);
                        let second = spec_run(p, t, r.state, (budget - cf) as nat);
                        assert(second.state == r.state);
                        assert(spec_run(p, t, s, budget).state == r.state);
                        assert(!(spec_run(p, t, s, budget).status is Failed));
                    }
                }
                // Chunk outputs concatenate.
                assert(spec_chunk_outputs(p, t, an.starts, budget) == spec_run(
                    p,
                    t,
                    s,
                    budget,
                ).output + spec_chunk_outputs(p, t, rest.starts, budget)) by {
                    assert(an.starts.drop_first() =~= rest.starts);
                }
                if cf == budget {
                    assert(spec_run(p, t, s, budget).output == r.output);
                } else {
                    assert(rest.starts.len() == 0);
                    assert(spec_step(p, t, r.state) is Halted);
                    lemma_run_split(p, t, s, cf, (budget - cf) as nat);
                    assert(spec_run(p, t, r.state, (budget - cf) as nat).output =~= Seq::<
                        u8,
                    >::empty());
                    assert(spec_run(p, t, s, budget).output =~= r.output);
                }
                assert(spec_chunk_outputs(p, t, an.starts, budget) =~= r.output + rest.output);
                assert(run.output =~= r.output + rest.output);
            },
        }
    }
}

/// Law: continuation equivalence. For a completed analysis, every snapshot
/// decodes back to its chunk's start state; replaying chunk 0 from the
/// initial state for the budget ends at chunk 1's decoded snapshot state,
/// chunk 1's replay ends at chunk 2's, and so on; the last chunk's replay
/// ends at the analyzer's final state, where the machine is halted; the
/// chunk outputs concatenate, in chunk order, to the analyzer's output; and
/// the one unchunked run agrees with all of it — same final state, same
/// output, same cycle count — for any budget, whether or not it divides the
/// total cycle count evenly.
pub proof fn lemma_continuation_equivalence(
    p: SpecProgram,
    t: Seq<(int, Seq<int>)>,
    budget: nat,
    fuel: nat,
)
    requires
        prog_wf(p),
        spec_analyze(p, t, spec_initial_state(p), budget, fuel).status is Completed,
    ensures
        ({
            let an = spec_analyze(p, t, spec_initial_state(p), budget, fuel);
            let run = spec_run(p, t, spec_initial_state(p), fuel);
            let n = an.starts.len();
            &&& an.snapshots.len() == n
            &&& (n > 0 ==> an.starts[0] == spec_initial_state(p))
            &&& forall|i: int|
                0 <= i < n ==> spec_decode_state(p, #[trigger] an.snapshots[i]) == Some(
                    an.starts[i],
                )
            &&& forall|i: int|
                0 <= i < n - 1 ==> (#[trigger] spec_run(p, t, an.starts[i], budget)).status
                    is OutOfCycles && spec_run(p, t, an.starts[i], budget).state == an.starts[i
                    + 1]
            &&& (n > 0 ==> !(spec_run(p, t, an.starts[n - 1], budget).status is Failed)
                && spec_run(p, t, an.starts[n - 1], budget).state == an.state)
            &&& spec_step(p, t, an.state) is Halted
            &&& spec_chunk_outputs(p, t, an.starts, budget) == an.output
            &&& run.state == an.state
            &&& run.output == an.output
            &&& run.cycles == an.cycles
            &&& (run.status is Halted || an.cycles == fuel)
        }),
{
    lemma_initial_state_wf(p);
    lemma_analysis_chunks(p, t, spec_initial_state(p), budget, fuel);
    let an = spec_analyze(p, t, spec_initial_state(p), budget, fuel);
    assert forall|i: int| 0 <= i < an.starts.len() implies spec_decode_state(
        p,
        #[trigger] an.snapshots[i],
    ) == Some(an.starts[i]) by {
        assert(state_wf(p, an.starts[i]));
        assert(an.snapshots[i] == spec_encode_state(an.starts[i]));
        lemma_snapshot_round_trip(p, an.starts[i]);
    }
}

// ---------------------------------------------------------------------------
// The executable analyzer
// ---------------------------------------------------------------------------
/// What a dry run produced: one bootloader input per chunk boundary in
/// execution order, the final state, the total cycle count, the collected
/// output, and whether the program ran to completion (rather than being
/// stopped by the ceiling or a zero budget).
#[derive(Debug)]
pub struct AnalysisReport {
    pub snapshots: Vec<BootloaderInput>,
    pub state: ExecutionState,
    pub cycles: u64,
    pub output: Vec<u8>,
    pub completed: bool,
}

/// Runs the program once from its start state, serializing a bootloader
/// input at each chunk boundary: exactly `spec_analyze`. The ceiling is the
/// only termination guard against a runaway program.
#[verifier::loop_isolation(false)]
pub fn analyze(p: &Program, t: &DataTable, budget: u64, max_total_cycles: u64) -> (r: Result<
    AnalysisReport,
    QueryError,
>)
    requires
        prog_wf(p@),
    ensures
        ({
            let an = spec_analyze(
                p@,
                t@,
                spec_initial_state(p@),
                budget as nat,
                max_total_cycles as nat,
            );
            match r {
                Ok(rep) => !(an.status is Failed) && rep.snapshots@.map_values(
                    |b: BootloaderInput| b@,
                ) == an.snapshots && rep.state@ == an.state && rep.cycles == an.cycles
                    && rep.output@ == an.output && (rep.completed <==> an.status is Completed),
                Err(e) => an.status == AnalysisStatus::Failed(e@),
            }
        }),
{
    let ghost full = spec_analyze(
        p@,
        t@,
        spec_initial_state(p@),
        budget as nat,
        max_total_cycles as nat,
    );
    proof {
        lemma_initial_state_wf(p@);
    }
    let mut s = initial_state(p);
    let mut snapshots: Vec<BootloaderInput> = Vec::new();
    let mut output: Vec<u8> = Vec::new();
    let mut cycles: u64 = 0;
    proof {
        assert(Seq::<u8>::empty() + full.output =~= full.output);
        assert(Seq::<Seq<int>>::empty() + full.snapshots =~~= full.snapshots);
    }
    loop
        invariant
            state_wf(p@, s@),
            cycles <= max_total_cycles,
            ({
                let sub = spec_analyze(
                    p@,
                    t@,
                    s@,
                    budget as nat,
                    (max_total_cycles - cycles) as nat,
                );
                full.state == sub.state && full.cycles == cycles + sub.cycles && full.output
                    == output@ + sub.output && full.snapshots == snapshots@.map_values(
                    |b: BootloaderInput| b@,
                ) + sub.snapshots && full.status == sub.status
            }),
        decreases max_total_cycles - cycles,
    {
        let ghost sub = spec_analyze(p@, t@, s@, budget as nat, (max_total_cycles - cycles) as nat);
        let ghost bviews = |b: BootloaderInput| b@;
        if s.pc >= p.instructions.len() as u64 {
            proof {
                assert(spec_step(p@, t@, s@) is Halted);
                assert(output@ + sub.output =~= output@);
                assert(snapshots@.map_values(bviews) + sub.snapshots =~~= snapshots@.map_values(
                    bviews,
                ));
            }
            return Ok(
                AnalysisReport { snapshots, state: s, cycles, output, completed: true },
            );
        }
        proof {
            assert(!(spec_step(p@, t@, s@) is Halted));
        }
        if budget == 0 || cycles == max_total_cycles {
            let snap = encode_state(p, &s);
            snapshots.push(snap);
            proof {
                assert(output@ + sub.output =~= output@);
                assert(snapshots@.map_values(bviews) =~~= full.snapshots);
            }
            return Ok(
                AnalysisReport { snapshots, state: s, cycles, output, completed: false },
            );
        }
        let remaining = max_total_cycles - cycles;
        let chunk_fuel = if budget <= remaining {
            budget
        } else {
            remaining
        };
        let ghost s0 = s@;
        let ghost snaps_pre = snapshots@.map_values(bviews);
        let ghost out_pre = output@;
        let snap = encode_state(p, &s);
        snapshots.push(snap);
        proof {
            assert(snapshots@.map_values(bviews) =~~= snaps_pre.push(spec_encode_state(s0)));
        }
        match run_machine(p, t, s, chunk_fuel) {
            Err(e) => {
                return Err(e);
            },
            Ok(rep) => {
                proof {
                    lemma_run_basic(p@, t@, s0, chunk_fuel as nat);
                }
                s = rep.state;
                let mut chunk_out = rep.output;
                output.append(&mut chunk_out);
                let new_cycles = cycles + rep.cycles;
                let ghost r = spec_run(p@, t@, s0, chunk_fuel as nat);
                if rep.halted {
                    proof {
                        assert(r.status is Halted);
                        assert(sub.state == r.state && sub.cycles == r.cycles && sub.output
                            == r.output && sub.status == AnalysisStatus::Completed
                            && sub.snapshots == seq![spec_encode_state(s0)]);
                        assert(full.output =~= output@);
                        assert(full.snapshots =~~= snaps_pre + seq![spec_encode_state(s0)]);
                        assert(snapshots@.map_values(bviews) =~~= snaps_pre + seq![
                            spec_encode_state(s0),
                        ]);
                    }
                    return Ok(
                        AnalysisReport {
                            snapshots,
                            state: s,
                            cycles: new_cycles,
                            output,
                            completed: true,
                        },
                    );
                }
                proof {
                    assert(r.status is OutOfCycles);
                    assert(r.cycles == chunk_fuel);
                    let sub2 = spec_analyze(
                        p@,
                        t@,
                        s@,
                        budget as nat,
                        (max_total_cycles - new_cycles) as nat,
                    );
                    assert(sub.state == sub2.state && sub.cycles == r.cycles + sub2.cycles
                        && sub.output == r.output + sub2.output && sub.snapshots == seq![
                        spec_encode_state(s0),
                    ] + sub2.snapshots && sub.status == sub2.status);
                    assert(out_pre + sub.output =~= output@ + sub2.output);
                    assert(snaps_pre + sub.snapshots =~~= snapshots@.map_values(bviews)
                        + sub2.snapshots);
                }
                cycles = new_cycles;
            },
        }
    }
}

} // verus!
