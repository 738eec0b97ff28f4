use continuation_engine::{
    analyze, decode_state, encode_state, execute, initial_state, run_machine, DataTable,
    FieldElement, Instruction, Program, QueryError,
};

fn fe(n: u64) -> FieldElement {
    FieldElement::from_u64(n)
}

/// A nine-cycle program exercising arithmetic, memory, control flow and
/// both oracle tags.
fn sample_program() -> Program {
    Program {
        instructions: vec![
            Instruction::SetReg { dst: 1, value: fe(5) },
            Instruction::SetReg { dst: 2, value: fe(7) },
            Instruction::Add { dst: 0, lhs: 1, rhs: 2 },
            Instruction::Store { addr: 1, src: 0 },
            Instruction::Query { dst: 3, text: b"\"hint\", 0x10".to_vec() },
            Instruction::Mul { dst: 0, lhs: 0, rhs: 3 },
            Instruction::Store { addr: 2, src: 0 },
            Instruction::Query { dst: 3, text: b"\"print_char\", 33".to_vec() },
            Instruction::Load { dst: 0, addr: 1 },
        ],
        initial_memory: vec![],
        register_count: 4,
    }
}

fn sample_table() -> DataTable {
    DataTable::new()
}

#[test]
fn fast_executor_runs_to_completion() {
    let p = sample_program();
    let t = sample_table();
    let rep = execute(&p, &t, 1000).unwrap();
    assert!(rep.halted);
    assert_eq!(rep.cycles, 9);
    assert_eq!(rep.output, vec![33]);
    // r0 reloads mem[5] = 12, r3 holds the print_char sentinel 0.
    assert_eq!(rep.state.registers[0], fe(12));
    assert_eq!(rep.state.registers[3], fe(0));
}

#[test]
fn fast_executor_respects_the_ceiling() {
    let p = sample_program();
    let t = sample_table();
    let rep = execute(&p, &t, 3).unwrap();
    assert!(!rep.halted);
    assert_eq!(rep.cycles, 3);
}

#[test]
fn snapshot_round_trips() {
    let p = sample_program();
    let init = initial_state(&p);
    let snap = encode_state(&p, &init);
    let back = decode_state(&p, &snap).unwrap();
    assert_eq!(back, init);
    // A mid-run state round-trips too, memory included.
    let t = sample_table();
    let rep = execute(&p, &t, 6).unwrap();
    let snap = encode_state(&p, &rep.state);
    let back = decode_state(&p, &snap).unwrap();
    assert_eq!(back, rep.state);
}

#[test]
fn analyzer_is_deterministic() {
    let p = sample_program();
    let t = sample_table();
    let a = analyze(&p, &t, 4, 1000).unwrap();
    let b = analyze(&p, &t, 4, 1000).unwrap();
    assert_eq!(a.snapshots, b.snapshots);
    assert_eq!(a.state, b.state);
    assert_eq!(a.cycles, b.cycles);
    assert_eq!(a.output, b.output);
    assert_eq!(a.completed, b.completed);
}

#[test]
fn zero_budget_surfaces_one_initial_boundary() {
    let p = sample_program();
    let t = sample_table();
    let rep = analyze(&p, &t, 0, 1000).unwrap();
    assert!(!rep.completed);
    assert_eq!(rep.cycles, 0);
    assert_eq!(rep.snapshots.len(), 1);
    let init = initial_state(&p);
    assert_eq!(rep.snapshots[0], encode_state(&p, &init));
    assert_eq!(decode_state(&p, &rep.snapshots[0]).unwrap(), init);
}

fn check_continuation_equivalence(budget: u64) {
    let p = sample_program();
    let t = sample_table();
    let full = execute(&p, &t, 1000).unwrap();
    let an = analyze(&p, &t, budget, 1000).unwrap();
    assert!(an.completed);
    assert_eq!(an.state, full.state);
    assert_eq!(an.output, full.output);
    assert_eq!(an.cycles, full.cycles);
    // Replay every chunk from its decoded snapshot and chain the states.
    let mut output = Vec::new();
    let mut cycles = 0u64;
    let mut last_state = None;
    for (i, snap) in an.snapshots.iter().enumerate() {
        let seed = decode_state(&p, snap).expect("snapshot must decode");
        if let Some(prev) = last_state {
            // Each boundary is exactly where the previous chunk stopped.
            assert_eq!(prev, seed);
        }
        let rep = run_machine(&p, &t, seed, budget).unwrap();
        if i + 1 < an.snapshots.len() {
            assert!(!rep.halted);
            assert_eq!(rep.cycles, budget);
        }
        output.extend_from_slice(&rep.output);
        cycles += rep.cycles;
        last_state = Some(rep.state);
    }
    // The concatenated chunk effects reproduce the unchunked run.
    assert_eq!(last_state.unwrap(), full.state);
    assert_eq!(output, full.output);
    assert_eq!(cycles, full.cycles);
}

#[test]
fn chunked_replay_matches_unchunked_run_unevenly() {
    // Nine cycles against a budget of four: chunks of 4, 4 and 1.
    check_continuation_equivalence(4);
}

#[test]
fn chunked_replay_matches_unchunked_run_evenly() {
    // Nine cycles against a budget of three: chunks of 3, 3 and 3.
    check_continuation_equivalence(3);
}

#[test]
fn chunked_replay_matches_single_chunk() {
    check_continuation_equivalence(100);
}

#[test]
fn chunked_replay_matches_one_cycle_chunks() {
    check_continuation_equivalence(1);
}

#[test]
fn initial_memory_image_seeds_execution_and_snapshots() {
    let p = Program {
        instructions: vec![
            Instruction::SetReg { dst: 1, value: fe(5) },
            Instruction::Load { dst: 0, addr: 1 },
        ],
        initial_memory: vec![(5, fe(99)), (6, fe(100))],
        register_count: 2,
    };
    assert!(p.validate());
    let t = DataTable::new();
    let rep = execute(&p, &t, 100).unwrap();
    assert!(rep.halted);
    assert_eq!(rep.state.registers[0], fe(99));
    // The image travels through a chunk boundary unchanged.
    let an = analyze(&p, &t, 1, 100).unwrap();
    assert!(an.completed);
    let seed = decode_state(&p, &an.snapshots[1]).unwrap();
    let rep2 = run_machine(&p, &t, seed, 100).unwrap();
    assert_eq!(rep2.state, rep.state);
}

#[test]
fn analyzer_fails_fast_on_a_defective_query() {
    let mut p = sample_program();
    p.instructions[4] = Instruction::Query { dst: 3, text: b"\"data\", 0, 99".to_vec() };
    let t = sample_table();
    let e = analyze(&p, &t, 4, 1000).unwrap_err();
    assert_eq!(e, QueryError::UnknownChannel { channel: 99 });
}

#[test]
fn analyzer_stops_at_the_ceiling() {
    let p = sample_program();
    let t = sample_table();
    let rep = analyze(&p, &t, 4, 5).unwrap();
    assert!(!rep.completed);
    assert_eq!(rep.cycles, 5);
}

#[test]
fn stored_values_survive_the_chunk_boundary() {
    // Split right after the store: the memory cell must travel through the
    // bootloader input.
    let p = sample_program();
    let t = sample_table();
    let an = analyze(&p, &t, 4, 1000).unwrap();
    // Chunk 1 starts at cycle 4, after `Store [r1] = r0` wrote mem[5] = 12.
    let seed = decode_state(&p, &an.snapshots[1]).unwrap();
    let rep = run_machine(&p, &t, seed, 1000).unwrap();
    assert!(rep.halted);
    assert_eq!(rep.state.registers[0], fe(12));
}
