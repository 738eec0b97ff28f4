//! Serializing machine state at chunk boundaries.
//!
//! A bootloader input is an ordered sequence of field elements that fully
//! encodes an execution state in the format the target program's bootloader
//! preamble expects: the program counter, the register count and the
//! registers, then the memory cell count and the cells in address order.
//! Decoding a bootloader input recovers exactly the encoded state, so
//! replaying the remaining instructions from it reproduces the unchunked
//! execution.

use crate::field::{FieldElement, FIELD_MODULUS};
use crate::machine::{
    mem_wf, prog_wf, state_wf, ExecutionState, MachineState, Memory, Program, SpecProgram,
    ADDR_SPACE,
};
use vstd::arithmetic::div_mod::lemma_small_mod;
use vstd::prelude::*;

verus! {

/// One serialized state snapshot: what seeds the next chunk's execution.
#[derive(Clone, Debug, PartialEq, Eq)]
pub struct BootloaderInput {
    pub elements: Vec<FieldElement>,
}

impl View for BootloaderInput {
    type V = Seq<int>;

    open spec fn view(&self) -> Seq<int> {
        self.elements@.map_values(|fe: FieldElement| fe@)
    }
}

/// Memory cells flattened to an address, value, address, value sequence.
pub open spec fn spec_encode_pairs(m: Seq<(int, int)>) -> Seq<int>
    decreases m.len(),
{
    if m.len() == 0 {
        Seq::<int>::empty()
    } else {
        seq![m[0].0, m[0].1] + spec_encode_pairs(m.drop_first())
    }
}

/// The serialized form of a machine state.
pub open spec fn spec_encode_state(s: MachineState) -> Seq<int> {
    seq![s.pc, s.regs.len() as int] + s.regs + seq![s.mem.len() as int] + spec_encode_pairs(s.mem)
}

/// The flattened sequence read back as memory cells.
pub open spec fn spec_decode_pairs(e: Seq<int>) -> Seq<(int, int)>
    decreases e.len(),
{
    if e.len() < 2 {
        Seq::<(int, int)>::empty()
    } else {
        seq![(e[0], e[1])] + spec_decode_pairs(e.skip(2))
    }
}

/// The state a bootloader input encodes for programs shaped like `p`, if it
/// is well-formed for them: the counter within the program, exactly the
/// program's register count, a canonical memory, and nothing left over.
pub open spec fn spec_decode_state(p: SpecProgram, e: Seq<int>) -> Option<MachineState> {
    if e.len() < 3 {
        None
    } else {
        let pc = e[0];
        let rc = e[1];
        if rc != p.reg_count || e.len() < 3 + rc {
            None
        } else {
            let regs = e.subrange(2, 2 + rc);
            let ml = e[2 + rc];
            if ml < 0 || e.len() != 3 + rc + 2 * ml {
                None
            } else {
                let mem = spec_decode_pairs(e.skip(3 + rc));
                if 0 <= pc <= p.instrs.len() && mem_wf(mem) {
                    Some(MachineState { pc, regs, mem })
                } else {
                    None
                }
            }
        }
    }
}

proof fn lemma_encode_pairs_len(m: Seq<(int, int)>)
    ensures
        spec_encode_pairs(m).len() == 2 * m.len(),
    decreases m.len(),
{
    if m.len() > 0 {
        lemma_encode_pairs_len(m.drop_first());
    }
}

proof fn lemma_decode_encode_pairs(m: Seq<(int, int)>)
    ensures
        spec_decode_pairs(spec_encode_pairs(m)) == m,
    decreases m.len(),
{
    if m.len() > 0 {
        lemma_decode_encode_pairs(m.drop_first());
        let e = spec_encode_pairs(m);
        lemma_encode_pairs_len(m.drop_first());
        assert(e.skip(2) =~= spec_encode_pairs(m.drop_first()));
        assert(e[0] == m[0].0 && e[1] == m[0].1);
        assert(spec_decode_pairs(e) =~= m);
    }
}

proof fn lemma_encode_pairs_index(m: Seq<(int, int)>)
    ensures
        spec_encode_pairs(m).len() == 2 * m.len(),
        forall|j: int|
            0 <= j < m.len() ==> #[trigger] spec_encode_pairs(m)[2 * j] == m[j].0
                && spec_encode_pairs(m)[2 * j + 1] == m[j].1,
    decreases m.len(),
{
    lemma_encode_pairs_len(m);
    if m.len() > 0 {
        lemma_encode_pairs_index(m.drop_first());
        let e = spec_encode_pairs(m);
        let e1 = spec_encode_pairs(m.drop_first());
        assert forall|j: int| 0 <= j < m.len() implies #[trigger] e[2 * j] == m[j].0 && e[2 * j
            + 1] == m[j].1 by {
            if j > 0 {
                assert(e[2 * j] == e1[2 * (j - 1)]);
                assert(e[2 * j + 1] == e1[2 * (j - 1) + 1]);
                assert(m.drop_first()[j - 1] == m[j]);
            }
        }
    }
}

/// In a canonical memory the address at each position is at least the
/// position, so at most the whole address space can be populated.
proof fn lemma_mem_index_floor(m: Seq<(int, int)>, i: int)
    requires
        mem_wf(m),
        0 <= i < m.len(),
    ensures
        m[i].0 >= i,
    decreases i,
{
    if i > 0 {
        lemma_mem_index_floor(m, i - 1);
        assert(m[i - 1].0 < m[i].0);
    }
}

/// A canonical memory holds at most one cell per address in the space.
pub proof fn lemma_mem_len_bound(m: Seq<(int, int)>)
    requires
        mem_wf(m),
    ensures
        m.len() <= ADDR_SPACE,
{
    if m.len() > ADDR_SPACE {
        lemma_mem_index_floor(m, ADDR_SPACE as int);
        assert(m[ADDR_SPACE as int].0 < ADDR_SPACE);
    }
}

/// Law: snapshots round-trip. Decoding the serialized form of any state that
/// fits the program recovers exactly that state.
pub proof fn lemma_snapshot_round_trip(p: SpecProgram, s: MachineState)
    requires
        state_wf(p, s),
    ensures
        spec_decode_state(p, spec_encode_state(s)) == Some(s),
{
    let e = spec_encode_state(s);
    let rc = s.regs.len() as int;
    let ml = s.mem.len() as int;
    lemma_encode_pairs_len(s.mem);
    assert(e.len() == 3 + rc + 2 * ml);
    assert(e[0] == s.pc);
    assert(e[1] == rc);
    assert(e.subrange(2, 2 + rc) =~= s.regs);
    assert(e[2 + rc] == ml);
    assert(e.skip(3 + rc) =~= spec_encode_pairs(s.mem));
    lemma_decode_encode_pairs(s.mem);
    assert(spec_decode_state(p, e) == Some(MachineState { pc: s.pc, regs: s.regs, mem: s.mem }));
}

/// Serializes the state into a bootloader input.
#[verifier::loop_isolation(false)]
pub fn encode_state(p: &Program, s: &ExecutionState) -> (r: BootloaderInput)
    requires
        prog_wf(p@),
        state_wf(p@, s@),
    ensures
        r@ == spec_encode_state(s@),
{
    let ghost target = spec_encode_state(s@);
    let rc = s.registers.len();
    let mut elements: Vec<FieldElement> = Vec::new();
    proof {
        lemma_small_mod(s.pc as nat, FIELD_MODULUS as nat);
        lemma_small_mod(s.registers@.len() as nat, FIELD_MODULUS as nat);
    }
    elements.push(FieldElement::from_u64(s.pc));
    elements.push(FieldElement::from_u64(rc as u64));
    let mut i: usize = 0;
    while i < rc
        invariant
            0 <= i <= rc,
            rc == s.registers@.len(),
            elements@.len() == 2 + i,
            elements@[0]@ == s@.pc,
            elements@[1]@ == s@.regs.len(),
            forall|j: int| 0 <= j < i ==> (#[trigger] elements@[2 + j])@ == s@.regs[j],
        decreases rc - i,
    {
        elements.push(s.registers[i]);
        proof {
            assert(s@.regs[i as int] == s.registers@[i as int]@);
        }
        i = i + 1;
    }
    proof {
        lemma_mem_len_bound(s@.mem);
        lemma_small_mod(s@.mem.len(), FIELD_MODULUS as nat);
    }
    let ml = s.memory.cell_count();
    elements.push(FieldElement::from_u64(ml as u64));
    let mut k: usize = 0;
    while k < ml
        invariant
            0 <= k <= ml,
            ml == s@.mem.len(),
            rc == s@.regs.len(),
            mem_wf(s@.mem),
            ml <= ADDR_SPACE,
            elements@.len() == 3 + rc + 2 * k,
            elements@[0]@ == s@.pc,
            elements@[1]@ == s@.regs.len(),
            forall|j: int| 0 <= j < rc ==> (#[trigger] elements@[2 + j])@ == s@.regs[j],
            elements@[2 + rc as int]@ == s@.mem.len(),
            forall|j: int|
                0 <= j < k ==> (#[trigger] elements@[3 + rc + 2 * j])@ == s@.mem[j].0,
            forall|j: int|
                0 <= j < k ==> (#[trigger] elements@[3 + rc + 2 * j + 1])@ == s@.mem[j].1,
        decreases ml - k,
    {
        let cell = s.memory.cell_at(k);
        proof {
            assert((cell.0 as int, cell.1@) == s@.mem[k as int]);
            assert(0 <= s@.mem[k as int].0 < ADDR_SPACE);
            lemma_small_mod(cell.0 as nat, FIELD_MODULUS as nat);
        }
        elements.push(FieldElement::from_u64(cell.0));
        elements.push(cell.1);
        k = k + 1;
    }
    proof {
        lemma_encode_pairs_index(s@.mem);
        let f = |fe: FieldElement| fe@;
        let got = elements@.map_values(f);
        assert forall|idx: int| 0 <= idx < got.len() implies got[idx] == target[idx] by {
            assert(got[idx] == elements@[idx]@);
            if idx == 0 {
                assert(target[idx] == s@.pc);
            } else if idx == 1 {
                assert(target[idx] == s@.regs.len() as int);
            } else if 2 <= idx < 2 + rc {
                let j = idx - 2;
                assert((elements@[2 + j])@ == s@.regs[j]);
                assert(target[idx] == s@.regs[j]);
            } else if idx == 2 + rc {
                assert(target[idx] == s@.mem.len() as int);
            } else {
                let off = idx - 3 - rc;
                vstd::arithmetic::div_mod::lemma_fundamental_div_mod(off, 2);
                let j = off / 2;
                assert(0 <= off % 2 < 2) by {
                    vstd::arithmetic::div_mod::lemma_mod_division_less_than_divisor(off, 2);
                };
                if off % 2 == 0 {
                    assert(idx == 3 + rc + 2 * j);
                    assert((elements@[3 + rc as int + 2 * j])@ == s@.mem[j].0);
                    assert(target[idx] == spec_encode_pairs(s@.mem)[2 * j]);
                } else {
                    assert(idx == 3 + rc + 2 * j + 1);
                    assert((elements@[3 + rc as int + 2 * j + 1])@ == s@.mem[j].1);
                    assert(spec_encode_pairs(s@.mem)[2 * j] == s@.mem[j].0);
                    assert(target[idx] == spec_encode_pairs(s@.mem)[2 * j + 1]);
                }
            }
        }
        assert(got =~= target);
    }
    BootloaderInput { elements }
}

proof fn lemma_decode_pairs_index(e: Seq<int>)
    requires
        e.len() % 2 == 0,
    ensures
        spec_decode_pairs(e).len() == e.len() / 2,
        forall|k: int|
            0 <= k < e.len() / 2 ==> #[trigger] spec_decode_pairs(e)[k] == (e[2 * k], e[2 * k
                + 1]),
    decreases e.len(),
{
    if e.len() >= 2 {
        assert(e.skip(2).len() % 2 == 0) by {
            assert(e.skip(2).len() == e.len() - 2);
        }
        lemma_decode_pairs_index(e.skip(2));
        let d = spec_decode_pairs(e);
        let d1 = spec_decode_pairs(e.skip(2));
        assert forall|k: int| 0 <= k < e.len() / 2 implies #[trigger] d[k] == (e[2 * k], e[2 * k
            + 1]) by {
            if k > 0 {
                assert(d[k] == d1[k - 1]);
                assert(d1[k - 1] == (e.skip(2)[2 * (k - 1)], e.skip(2)[2 * (k - 1) + 1]));
                assert(e.skip(2)[2 * (k - 1)] == e[2 * k]);
                assert(e.skip(2)[2 * (k - 1) + 1] == e[2 * k + 1]);
            }
        }
    }
}

/// Reads a bootloader input back into the state it encodes, validating the
/// format; `None` exactly when the input does not encode a state for `p`.
#[verifier::loop_isolation(false)]
pub fn decode_state(p: &Program, input: &BootloaderInput) -> (r: Option<ExecutionState>)
    requires
        prog_wf(p@),
    ensures
        match r {
            Some(st) => spec_decode_state(p@, input@) == Some(st@) && state_wf(p@, st@),
            None => spec_decode_state(p@, input@) is None,
        },
{
    let e = &input.elements;
    let n = e.len();
    if n < 3 {
        return None;
    }
    let pc = e[0].val();
    let rc_val = e[1].val();
    proof {
        assert(input@[0] == e@[0]@);
        assert(input@[1] == e@[1]@);
    }
    if rc_val != p.register_count as u64 {
        return None;
    }
    let rc = p.register_count;
    if (n as u64) < 3 + rc as u64 {
        return None;
    }
    proof {
        assert(input@[2 + rc as int] == e@[2 + rc as int]@);
    }
    let ml_val = e[2 + rc].val();
    if ml_val > n as u64 {
        proof {
            assert(input@.len() < 3 + rc + 2 * ml_val);
        }
        return None;
    }
    let ml = ml_val as usize;
    if n as u128 != 3 + rc as u128 + 2 * ml as u128 {
        return None;
    }
    if pc > p.instructions.len() as u64 {
        return None;
    }
    let mut registers: Vec<FieldElement> = Vec::new();
    let mut i: usize = 0;
    while i < rc
        invariant
            0 <= i <= rc,
            n == e@.len(),
            2 + rc < n,
            registers@.len() == i,
            forall|j: int| 0 <= j < i ==> registers@[j] == e@[2 + j],
        decreases rc - i,
    {
        registers.push(e[2 + i]);
        i = i + 1;
    }
    proof {
        assert(registers@.map_values(|fe: FieldElement| fe@) =~= input@.subrange(
            2,
            2 + rc as int,
        ));
    }
    let ghost tail = input@.skip(3 + rc as int);
    let ghost dm = spec_decode_pairs(tail);
    proof {
        assert(tail.len() == 2 * ml);
        assert(tail.len() % 2 == 0);
        lemma_decode_pairs_index(tail);
    }
    let mut cells: Vec<(u64, FieldElement)> = Vec::new();
    let mut k: usize = 0;
    let base = 3 + rc;
    while k < ml
        invariant
            0 <= k <= ml,
            n == e@.len(),
            base == 3 + rc,
            base + 2 * ml == n,
            input@ == e@.map_values(|fe: FieldElement| fe@),
            tail == input@.skip(3 + rc as int),
            dm == spec_decode_pairs(tail),
            dm.len() == ml,
            forall|j: int|
                0 <= j < ml ==> #[trigger] dm[j] == (input@[base + 2 * j], input@[base + 2 * j
                    + 1]),
            cells@.len() == k,
            forall|j: int|
                0 <= j < k ==> ((#[trigger] cells@[j]).0 as int, cells@[j].1@) == dm[j],
            forall|j: int| 0 <= j < k ==> 0 <= (#[trigger] cells@[j]).0 < ADDR_SPACE,
            forall|a: int, b: int|
                0 <= a < b < k ==> (#[trigger] cells@[a]).0 < (#[trigger] cells@[b]).0,
        decreases ml - k,
    {
        let addr_fe = e[base + 2 * k];
        let val_fe = e[base + 2 * k + 1];
        proof {
            assert(input@[base + 2 * k as int] == e@[base + 2 * k as int]@);
            assert(input@[base + 2 * k as int + 1] == e@[base + 2 * k as int + 1]@);
        }
        let addr = addr_fe.val();
        if addr >= ADDR_SPACE {
            proof {
                assert(dm[k as int].0 == addr as int);
                assert(!mem_wf(dm));
            }
            return None;
        }
        if k > 0 && cells[k - 1].0 >= addr {
            proof {
                assert(dm[k as int].0 == addr as int);
                assert(dm[k as int - 1].0 == cells@[k as int - 1].0 as int);
                assert(!mem_wf(dm));
            }
            return None;
        }
        cells.push((addr, val_fe));
        proof {
            assert forall|a: int, b: int| 0 <= a < b < k + 1 implies (#[trigger] cells@[a]).0 < (
            #[trigger] cells@[b]).0 by {
                if b == k {
                    if a < k - 1 {
                        assert(cells@[a].0 < cells@[k as int - 1].0);
                    }
                }
            }
        }
        k = k + 1;
    }
    let memory = Memory::from_cells(cells);
    let st = ExecutionState { pc, registers, memory };
    proof {
        assert(st@.mem =~= dm);
        assert(mem_wf(st@.mem));
        assert(st@.regs == input@.subrange(2, 2 + rc as int));
        assert(spec_decode_state(p@, input@) == Some(st@));
    }
    Some(st)
}

} // verus!
