//! The chunked witness driver.
//!
//! The driver runs the analyzer to completion first — chunk boundaries are a
//! hard data dependency of every later step — then, for each bootloader
//! input in execution order, seeds the shared pipeline with it and advances
//! it to the witness stage. The fixed columns are computed once and reused
//! by every chunk. Processing is fail-fast: the first error aborts the
//! remaining chunks and is surfaced to the caller, with no partial-chunk
//! retry; the continuation-equivalence law guarantees that after a completed
//! analysis every chunk's replay in fact succeeds.

use crate::analyzer::{analyze, lemma_continuation_equivalence, spec_analyze};
use crate::bootloader::BootloaderInput;
use crate::errors::PipelineError;
use crate::exec::{spec_run, TraceReport};
use crate::field::FieldElement;
use crate::machine::{prog_wf, spec_initial_state, Program, SpecProgram};
use crate::pipeline::{
    one_message, pipeline_wf, spec_seed_state, witness_available, witness_content, Pipeline,
    PipelineStage,
};
use crate::table::DataTable;
use vstd::prelude::*;

verus! {

/// A fresh copy of a bootloader input.
fn copy_input(b: &BootloaderInput) -> (r: BootloaderInput)
    ensures
        r@ == b@,
{
    let mut elements: Vec<FieldElement> = Vec::new();
    let mut i: usize = 0;
    while i < b.elements.len()
        invariant
            0 <= i <= b.elements@.len(),
            elements@.len() == i,
            forall|j: int| 0 <= j < i ==> elements@[j] == b.elements@[j],
        decreases b.elements@.len() - i,
    {
        elements.push(b.elements[i]);
        i = i + 1;
    }
    proof {
        assert(elements@ =~= b.elements@);
        let r = BootloaderInput { elements };
        assert(r@ =~= b@);
    }
    BootloaderInput { elements }
}

/// Runs the whole chunked flow: dry-run analysis, then one witness per
/// chunk through the shared memoized pipeline, in chunk order, failing fast
/// on the first error. On success there is exactly one witness per chunk
/// boundary, and each is the trace of its chunk's bounded replay.
#[verifier::loop_isolation(false)]
pub fn run_chunks(program: Program, table: DataTable, budget: u64, max_total_cycles: u64) -> (r:
    Result<Vec<TraceReport>, PipelineError>)
    ensures
        ({
            let an = spec_analyze(
                program@,
                table@,
                spec_initial_state(program@),
                budget as nat,
                max_total_cycles as nat,
            );
            match r {
                Ok(ws) => prog_wf(program@) && an.status is Completed && ws@.len()
                    == an.starts.len() && forall|i: int|
                    0 <= i < ws@.len() ==> witness_content(
                        program@,
                        table@,
                        an.starts[i],
                        budget as nat,
                        #[trigger] ws@[i],
                    ),
                Err(e) => e.messages@.len() >= 1 && !(prog_wf(program@) && an.status
                    is Completed),
            }
        }),
{
    let ghost prog0 = program@;
    let ghost t0 = table@;
    let ghost an = spec_analyze(
        prog0,
        t0,
        spec_initial_state(prog0),
        budget as nat,
        max_total_cycles as nat,
    );
    if !program.validate() {
        return Err(one_message("the program failed validation"));
    }
    let analysis = match analyze(&program, &table, budget, max_total_cycles) {
        Ok(a) => a,
        Err(e) => {
            return Err(one_message("an oracle query failed during the dry run"));
        },
    };
    if !analysis.completed {
        return Err(one_message("the cycle ceiling stopped the dry run before completion"));
    }
    proof {
        lemma_continuation_equivalence(prog0, t0, budget as nat, max_total_cycles as nat);
    }
    let mut pipeline = Pipeline::new(program, table, budget);
    match pipeline.advance_to(PipelineStage::FixedColumns) {
        Ok(()) => (),
        Err(e) => {
            proof {
                assert(false);
            }
            return Err(e);
        },
    }
    let n = analysis.snapshots.len();
    proof {
        assert(analysis.snapshots@.map_values(|b: BootloaderInput| b@) == an.snapshots);
        assert(n == an.starts.len());
    }
    let mut witnesses: Vec<TraceReport> = Vec::new();
    let mut i: usize = 0;
    while i < n
        invariant
            0 <= i <= n,
            witnesses@.len() == i,
            pipeline_wf(pipeline),
            pipeline.program@ == prog0,
            pipeline.table@ == t0,
            pipeline.budget == budget,
            forall|j: int|
                0 <= j < i ==> witness_content(
                    prog0,
                    t0,
                    an.starts[j],
                    budget as nat,
                    #[trigger] witnesses@[j],
                ),
        decreases n - i,
    {
        let snap = copy_input(&analysis.snapshots[i]);
        proof {
            assert(analysis.snapshots@.map_values(|b: BootloaderInput| b@)[i as int]
                == analysis.snapshots@[i as int]@);
            assert(snap@ == an.snapshots[i as int]);
        }
        pipeline.seed_chunk(snap);
        proof {
            assert(spec_seed_state(prog0, pipeline.seed) == Some(an.starts[i as int]));
            if i as int == an.starts.len() - 1 {
                assert(!(spec_run(prog0, t0, an.starts[i as int], budget as nat).status
                    is Failed));
            } else {
                assert(spec_run(prog0, t0, an.starts[i as int], budget as nat).status
                    is OutOfCycles);
            }
            assert(witness_available(prog0, t0, pipeline.seed, budget as nat));
        }
        match pipeline.advance_to(PipelineStage::Witness) {
            Ok(()) => (),
            Err(e) => {
                proof {
                    assert(false);
                }
                return Err(e);
            },
        }
        let mut taken: Option<TraceReport> = None;
        std::mem::swap(&mut taken, &mut pipeline.witness);
        match taken {
            Some(w) => {
                witnesses.push(w);
            },
            None => {
                proof {
                    assert(false);
                }
                return Err(one_message("the pipeline produced no witness"));
            },
        }
        i = i + 1;
    }
    Ok(witnesses)
}

/// The surfaced error `e` records a refusal by the witness-consuming
/// callback: some chunk of the analysis has a witness that the callback
/// answered with an error, and `e` carries that refusal's messages with one
/// note appended.
pub open spec fn spec_callback_refused<F: Fn(&TraceReport) -> Result<(), PipelineError>>(
    callback: F,
    p: SpecProgram,
    t: Seq<(int, Seq<int>)>,
    budget: nat,
    fuel: nat,
    e: PipelineError,
) -> bool {
    let an = spec_analyze(p, t, spec_initial_state(p), budget, fuel);
    exists|j: int, w: TraceReport, e0: PipelineError|
        #![trigger witness_content(p, t, an.starts[j], budget, w), call_ensures(callback, (&w,), Result::<(), PipelineError>::Err(e0))]
        0 <= j < an.starts.len() && witness_content(p, t, an.starts[j], budget, w) && call_ensures(
            callback,
            (&w,),
            Result::<(), PipelineError>::Err(e0),
        ) && e.messages@.len() == e0.messages@.len() + 1 && e.messages@.take(
            e0.messages@.len() as int,
        ) == e0.messages@ && e.messages@.last()@ == "a chunk's witness consumer refused it"@
}

/// Runs the chunked flow and hands each chunk's witness, in chunk order, to
/// the supplied consuming callback, returning the witnesses it accepted.
/// Fail-fast: the first error aborts the remaining chunks, with no
/// partial-chunk retry. An error of the analysis or of a pipeline stage is
/// surfaced as it is; a refusal by the callback is surfaced with one note
/// appended to its messages, and those are the only errors: with a valid
/// program, a completed dry run and a callback that cannot refuse, success
/// is owed. On success the callback was invoked exactly once per chunk, each
/// time with that chunk's witness, and each invocation accepted it.
#[verifier::loop_isolation(false)]
pub fn run_chunks_with<F: Fn(&TraceReport) -> Result<(), PipelineError>>(
    program: Program,
    table: DataTable,
    budget: u64,
    max_total_cycles: u64,
    callback: F,
) -> (r: Result<Vec<TraceReport>, PipelineError>)
    requires
        forall|w: &TraceReport| #[trigger] call_requires(callback, (w,)),
    ensures
        ({
            let an = spec_analyze(
                program@,
                table@,
                spec_initial_state(program@),
                budget as nat,
                max_total_cycles as nat,
            );
            match r {
                Ok(ws) => prog_wf(program@) && an.status is Completed && ws@.len()
                    == an.starts.len() && (forall|i: int|
                    0 <= i < ws@.len() ==> witness_content(
                        program@,
                        table@,
                        an.starts[i],
                        budget as nat,
                        #[trigger] ws@[i],
                    )) && (forall|i: int|
                    #![trigger ws@[i]]
                    0 <= i < ws@.len() ==> call_ensures(
                        callback,
                        (&ws@[i],),
                        Result::<(), PipelineError>::Ok(()),
                    )),
                // An error is a failure of the analysis or of a stage — then
                // no chunk has a provable witness — or a refusal by the
                // consumer, surfaced with its messages and one note.
                Err(e) => e.messages@.len() >= 1 && (!(prog_wf(program@) && an.status
                    is Completed) || spec_callback_refused(
                    callback,
                    program@,
                    table@,
                    budget as nat,
                    max_total_cycles as nat,
                    e,
                )),
            }
        }),
        // Success is owed where no consumer decides: a completed analysis
        // with no chunk boundary consults no callback.
        ({
            let an = spec_analyze(
                program@,
                table@,
                spec_initial_state(program@),
                budget as nat,
                max_total_cycles as nat,
            );
            prog_wf(program@) && an.status is Completed && an.starts.len() == 0 ==> r is Ok
        }),
        // Success is owed where the consumer cannot refuse.
        ({
            let an = spec_analyze(
                program@,
                table@,
                spec_initial_state(program@),
                budget as nat,
                max_total_cycles as nat,
            );
            (prog_wf(program@) && an.status is Completed && (forall|
                w2: &TraceReport,
                r2: Result<(), PipelineError>,
            |
                #[trigger] call_ensures(callback, (w2,), r2) ==> r2 is Ok)) ==> r is Ok
        }),
{
    let witnesses = match run_chunks(program, table, budget, max_total_cycles) {
        Ok(ws) => ws,
        Err(e) => {
            return Err(e);
        },
    };
    let n = witnesses.len();
    let mut i: usize = 0;
    while i < n
        invariant
            0 <= i <= n,
            forall|j: int|
                0 <= j < i ==> #[trigger] call_ensures(
                    callback,
                    (&witnesses@[j],),
                    Result::<(), PipelineError>::Ok(()),
                ),
        decreases n - i,
    {
        let w = &witnesses[i];
        proof {
            assert(*w == witnesses@[i as int]);
        }
        let cr = callback(w);
        proof {
            assert(call_ensures(callback, (w,), cr));
        }
        match cr {
            Ok(u) => {
                proof {
                    assert(u == ());
                    assert(cr == Result::<(), PipelineError>::Ok(()));
                    assert(call_ensures(
                        callback,
                        (&witnesses@[i as int],),
                        Result::<(), PipelineError>::Ok(()),
                    ));
                }
            },
            Err(ce) => {
                // Fail fast: surface the consumer's refusal with one note
                // appended, and process no further chunk.
                let ghost e0 = ce;
                let mut refused = ce;
                refused.messages.push(String::from_str("a chunk's witness consumer refused it"));
                proof {
                    assert(cr == Result::<(), PipelineError>::Err(e0));
                    assert(call_ensures(
                        callback,
                        (&witnesses@[i as int],),
                        Result::<(), PipelineError>::Err(e0),
                    ));
                    assert(witness_content(
                        program@,
                        table@,
                        spec_analyze(
                            program@,
                            table@,
                            spec_initial_state(program@),
                            budget as nat,
                            max_total_cycles as nat,
                        ).starts[i as int],
                        budget as nat,
                        witnesses@[i as int],
                    ));
                    assert(refused.messages@.len() == e0.messages@.len() + 1);
                    assert(refused.messages@.take(e0.messages@.len() as int) =~= e0.messages@);
                    assert(refused.messages@.last()@ == "a chunk's witness consumer refused it"@);
                    assert(spec_callback_refused(
                        callback,
                        program@,
                        table@,
                        budget as nat,
                        max_total_cycles as nat,
                        refused,
                    ));
                }
                return Err(refused);
            },
        }
        i = i + 1;
    }
    Ok(witnesses)
}

} // verus!
