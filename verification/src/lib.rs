//! A continuation-based chunked execution engine for a register machine over a
//! prime field.
//!
//! The engine runs a compiled program to produce the data a zero-knowledge
//! proof backend consumes. Because one proof circuit covers only a bounded
//! number of cycles, a long execution is split into chunks: a dry-run analyzer
//! discovers the chunk boundaries and serializes the machine state at each one
//! into a bootloader input, and a driver replays every chunk independently
//! through a staged, memoized pipeline up to its witness. An oracle query
//! protocol lets the executing program request host-supplied data at run time.

use vstd::prelude::*;

pub mod analyzer;
pub mod bootloader;
pub mod driver;
pub mod errors;
pub mod exec;
pub mod field;
pub mod machine;
pub mod pipeline;
pub mod query;
pub mod table;

pub use analyzer::analyze;
pub use analyzer::spec_analyze;
pub use analyzer::AnalysisReport;
pub use bootloader::decode_state;
pub use bootloader::encode_state;
pub use bootloader::BootloaderInput;
pub use driver::run_chunks;
pub use driver::run_chunks_with;
pub use errors::ParseError;
pub use errors::PipelineError;
pub use errors::QueryError;
pub use exec::execute;
pub use exec::run_machine;
pub use exec::run_machine_trace;
pub use exec::step;
pub use exec::ExecutionReport;
pub use exec::StepOutcome;
pub use exec::TraceReport;
pub use field::decimal_of_u64;
pub use field::hex_literal_of_u64;
pub use field::parse_dec_u64;
pub use field::FieldElement;
pub use field::FIELD_MODULUS;
pub use machine::initial_state;
pub use machine::ExecutionState;
pub use machine::Instruction;
pub use machine::Memory;
pub use machine::Program;
pub use machine::ADDR_SPACE;
pub use pipeline::stage_le;
pub use pipeline::Pipeline;
pub use pipeline::PipelineStage;
pub use pipeline::ProgramStats;
pub use query::respond;
pub use table::fixture_channel;
pub use table::DataTable;

verus! {

/// The suffix that marks a test-case file.
pub open spec fn json_suffix() -> Seq<u8> {
    seq![0x2Eu8, 0x6Au8, 0x73u8, 0x6Fu8, 0x6Eu8]
}

/// Whether a file name ends in `.json`: the filter the test-discovery scan
/// applies to every file it walks.
pub open spec fn spec_has_json_extension(name: Seq<u8>) -> bool {
    name.len() >= 5 && name.subrange(name.len() - 5, name.len() as int) == json_suffix()
}

/// Decides whether a file name names a test case.
pub fn has_json_extension(name: &Vec<u8>) -> (r: bool)
    ensures
        r == spec_has_json_extension(name@),
{
    let n = name.len();
    if n < 5 {
        return false;
    }
    let ok = name[n - 5] == 0x2E && name[n - 4] == 0x6A && name[n - 3] == 0x73 && name[n - 2]
        == 0x6F && name[n - 1] == 0x6E;
    proof {
        if ok {
            assert(name@.subrange(n - 5, n as int) =~= json_suffix());
        } else {
            assert(name@.subrange(n - 5, n as int) != json_suffix()) by {
                let sub = name@.subrange(n - 5, n as int);
                if sub == json_suffix() {
                    assert(sub[0] == 0x2Eu8 && sub[1] == 0x6Au8 && sub[2] == 0x73u8 && sub[3]
                        == 0x6Fu8 && sub[4] == 0x6Eu8);
                }
            }
        }
    }
    ok
}

} // verus!
