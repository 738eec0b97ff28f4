use std::cell::Cell;

use continuation_engine::{
    encode_state, initial_state, run_chunks, run_chunks_with, stage_le, DataTable, FieldElement,
    Instruction, Pipeline, PipelineError, PipelineStage, Program,
};

fn fe(n: u64) -> FieldElement {
    FieldElement::from_u64(n)
}

fn sample_program() -> Program {
    Program {
        instructions: vec![
            Instruction::SetReg { dst: 1, value: fe(5) },
            Instruction::SetReg { dst: 2, value: fe(7) },
            Instruction::Add { dst: 0, lhs: 1, rhs: 2 },
            Instruction::Store { addr: 1, src: 0 },
            Instruction::Query { dst: 3, text: b"\"hint\", 0x10".to_vec() },
            Instruction::Mul { dst: 0, lhs: 0, rhs: 3 },
            Instruction::Store { addr: 2, src: 0 },
            Instruction::Query { dst: 3, text: b"\"print_char\", 33".to_vec() },
            Instruction::Load { dst: 0, addr: 1 },
        ],
        initial_memory: vec![],
        register_count: 4,
    }
}

#[test]
fn fixed_columns_are_computed_exactly_once() {
    let mut pl = Pipeline::new(sample_program(), DataTable::new(), 16);
    assert_eq!(pl.fixed_runs, 0);
    pl.advance_to(PipelineStage::FixedColumns).unwrap();
    assert_eq!(pl.fixed_runs, 1);
    let first = pl.fixed.clone().unwrap();
    // A second advance performs the underlying computation zero more times
    // and returns an equal artifact.
    pl.advance_to(PipelineStage::FixedColumns).unwrap();
    assert_eq!(pl.fixed_runs, 1);
    assert_eq!(pl.parse_runs, 1);
    assert_eq!(pl.analyze_runs, 1);
    assert_eq!(pl.fixed.clone().unwrap(), first);
}

#[test]
fn analyzed_assembly_counts_the_program() {
    let mut pl = Pipeline::new(sample_program(), DataTable::new(), 16);
    pl.advance_to(PipelineStage::AnalyzedAssembly).unwrap();
    let stats = pl.stats.unwrap();
    assert_eq!(stats.instruction_count, 9);
    assert_eq!(stats.query_count, 2);
    // The fixed columns were not needed and were not computed.
    assert!(pl.fixed.is_none());
    assert_eq!(pl.fixed_runs, 0);
}

#[test]
fn witness_runs_the_chunk_from_its_seed() {
    let mut pl = Pipeline::new(sample_program(), DataTable::new(), 16);
    pl.advance_to(PipelineStage::Witness).unwrap();
    let w = pl.witness.as_ref().unwrap();
    assert!(w.halted);
    assert_eq!(w.cycles, 9);
    assert_eq!(w.rows.len(), 9);
    // The first row is the initial state: counter zero, registers zero.
    assert_eq!(w.rows[0][0], fe(0));
    assert_eq!(w.rows[0][1], fe(0));
    // The last row is the state before the final load: counter eight.
    assert_eq!(w.rows[8][0], fe(8));
    assert_eq!(w.output, vec![33]);
}

#[test]
fn reseeding_keeps_program_artifacts_and_drops_the_witness() {
    let p = sample_program();
    let seed = encode_state(&p, &initial_state(&p));
    let mut pl = Pipeline::new(p, DataTable::new(), 16);
    pl.advance_to(PipelineStage::Witness).unwrap();
    assert_eq!(pl.witness_runs, 1);
    pl.seed_chunk(seed);
    assert!(pl.witness.is_none());
    assert_eq!(pl.fixed_runs, 1);
    assert!(pl.fixed.is_some());
    pl.advance_to(PipelineStage::Witness).unwrap();
    assert_eq!(pl.witness_runs, 2);
    assert_eq!(pl.fixed_runs, 1);
    assert!(pl.witness.as_ref().unwrap().halted);
}

#[test]
fn stages_are_totally_ordered() {
    let order = [
        PipelineStage::ParsedAssembly,
        PipelineStage::AnalyzedAssembly,
        PipelineStage::FixedColumns,
        PipelineStage::Witness,
        PipelineStage::Proof,
    ];
    for (i, a) in order.iter().enumerate() {
        for (j, b) in order.iter().enumerate() {
            assert_eq!(stage_le(*a, *b), i <= j);
        }
    }
}

#[test]
fn proof_stage_reports_the_missing_backend() {
    let mut pl = Pipeline::new(sample_program(), DataTable::new(), 16);
    let e = pl.advance_to(PipelineStage::Proof).unwrap_err();
    assert_eq!(e.messages.len(), 1);
}

#[test]
fn invalid_program_fails_validation() {
    let p = Program {
        instructions: vec![Instruction::Add { dst: 9, lhs: 0, rhs: 0 }],
        initial_memory: vec![],
        register_count: 2,
    };
    let mut pl = Pipeline::new(p, DataTable::new(), 16);
    let e = pl.advance_to(PipelineStage::ParsedAssembly).unwrap_err();
    assert!(!e.messages.is_empty());
    assert_eq!(pl.parse_runs, 0);
}

#[test]
fn unsorted_initial_memory_fails_validation() {
    let p = Program {
        instructions: vec![],
        initial_memory: vec![(7, fe(1)), (7, fe(2))],
        register_count: 1,
    };
    let mut pl = Pipeline::new(p, DataTable::new(), 16);
    assert!(pl.advance_to(PipelineStage::ParsedAssembly).is_err());
}

#[test]
fn driver_produces_one_witness_per_chunk() {
    let ws = run_chunks(sample_program(), DataTable::new(), 4, 1000).unwrap();
    // Nine cycles against a budget of four: chunks of 4, 4 and 1.
    assert_eq!(ws.len(), 3);
    assert_eq!(ws[0].cycles, 4);
    assert_eq!(ws[1].cycles, 4);
    assert_eq!(ws[2].cycles, 1);
    assert!(!ws[0].halted && !ws[1].halted && ws[2].halted);
    // The chunk outputs concatenate to the unchunked run's output.
    let mut output = Vec::new();
    for w in &ws {
        output.extend_from_slice(&w.output);
    }
    assert_eq!(output, vec![33]);
    // Witness rows cover every cycle exactly once.
    let rows: usize = ws.iter().map(|w| w.rows.len()).sum();
    assert_eq!(rows, 9);
    // Rows carry the counter and all four registers.
    assert_eq!(ws[0].rows[0].len(), 5);
}

#[test]
fn callback_driver_visits_each_chunk_once() {
    let count = Cell::new(0u32);
    let ws = run_chunks_with(sample_program(), DataTable::new(), 4, 1000, |_w| {
        count.set(count.get() + 1);
        Ok(())
    })
    .unwrap();
    assert_eq!(count.get(), 3);
    assert_eq!(ws.len(), 3);
}

#[test]
fn callback_driver_fails_fast_on_a_refusal() {
    let count = Cell::new(0u32);
    let e = run_chunks_with(sample_program(), DataTable::new(), 4, 1000, |_w| {
        count.set(count.get() + 1);
        if count.get() == 2 {
            Err(PipelineError { messages: vec!["refused".to_string()] })
        } else {
            Ok(())
        }
    })
    .unwrap_err();
    // The third chunk is never visited: fail-fast, no partial-chunk retry.
    assert_eq!(count.get(), 2);
    // The surfaced error is the refusal itself, with one note appended.
    assert_eq!(e.messages.len(), 2);
    assert_eq!(e.messages[0], "refused");
    assert_eq!(e.messages[1], "a chunk's witness consumer refused it");
}

#[test]
fn driver_fails_fast_on_a_defective_program() {
    let mut p = sample_program();
    p.instructions[4] = Instruction::Query { dst: 3, text: b"\"data\", 0, 99".to_vec() };
    let e = run_chunks(p, DataTable::new(), 4, 1000).unwrap_err();
    assert!(!e.messages.is_empty());
}

#[test]
fn driver_rejects_an_unfinished_dry_run() {
    let e = run_chunks(sample_program(), DataTable::new(), 4, 5).unwrap_err();
    assert!(!e.messages.is_empty());
}

#[test]
fn json_extension_filter() {
    assert!(continuation_engine::has_json_extension(&b"case.json".to_vec()));
    assert!(!continuation_engine::has_json_extension(&b"case.jsonx".to_vec()));
    assert!(!continuation_engine::has_json_extension(&b"json".to_vec()));
    assert!(continuation_engine::has_json_extension(&b".json".to_vec()));
}
