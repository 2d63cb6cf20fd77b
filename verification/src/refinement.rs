//! The pipeline refines the sequential reference machine: whenever a pipeline run completes,
//! and no store in it rewrites an instruction that was fetched before the store reached
//! memory and is still executed, the reference machine runs the same program to `halt` with
//! the same registers, memory and retired count.
//!
//! The proof relates each pipeline state to the machine state of the instructions that have
//! passed the memory stage (`committed_state`), and shows that a cycle either leaves that
//! state unchanged or advances it by exactly one reference step.

use vstd::prelude::*;
use crate::isa::{decode_spec, source_registers_spec, Instruction};
use crate::machine::{
    initial_state, memory_read, next_pc_spec, register_read, run_spec, step_spec, MachineState,
    RunSummary,
};
use crate::pipeline::{
    cycle_spec, drained, forwarded_spec, initial_pipeline, lemma_cycle_well_formed,
    memory_stage_spec, pipeline_spec, pipeline_well_formed, run_from, saturating_add_spec,
    write_back_spec, ExecuteOutput, MemoryOutput, PipelineState, StageInstruction,
};

verus! {

/// The register file after a memory-stage result is written back.
pub open spec fn apply_write_back(registers: Seq<u32>, out: MemoryOutput) -> Seq<u32> {
    (match out.destination {
        Some(d) => registers.update(d as int, out.value),
        None => registers,
    }).update(0, 0)
}

/// The address before `pc`, modulo 2^32.
pub open spec fn previous_pc(pc: u32) -> u32 {
    ((pc as int + 0xffff_fffc) % 0x1_0000_0000) as u32
}

/// The address the reference machine moves to after `stage`, reading operands from
/// `registers`: a taken branch's or a jump's target, else the next word.
pub open spec fn successor_pc(stage: StageInstruction, registers: Seq<u32>) -> u32 {
    match crate::pipeline::execute_spec(stage, registers, None, None).1 {
        Some(target) => target,
        None => next_pc_spec(stage.pc),
    }
}

/// The address of the oldest instruction that has not reached the memory stage: ID/EX,
/// else IF/ID, else the fetch address (the word after `halt` once it has executed).
pub open spec fn front_pc(p: PipelineState) -> u32 {
    match p.id_ex {
        Some(a) => a.pc,
        None => match p.if_id {
            Some(b) => b.pc,
            None => if p.halt_seen {
                previous_pc(p.pc)
            } else {
                p.pc
            },
        },
    }
}

/// The reference machine state of the instructions that have passed the memory stage: the
/// registers after this cycle's write-back, the memory, and the address of the next
/// instruction to reach the memory stage.
pub open spec fn committed_state(p: PipelineState) -> MachineState {
    MachineState {
        registers: write_back_spec(p),
        memory: p.memory,
        pc: match p.ex_mem {
            Some(x) => x.stage.pc,
            None => front_pc(p),
        },
        halted: p.halt_seen && p.ex_mem is None,
        retired: if p.mem_wb is Some {
            saturating_add_spec(p.retired, 1)
        } else {
            p.retired
        },
    }
}

/// Whether `instruction` reads register `r` as a source operand.
pub open spec fn reads(instruction: Instruction, r: u8) -> bool {
    let sources = source_registers_spec(instruction);
    sources[0] == Some(r) || sources[1] == Some(r)
}

/// The instruction in `stage` is the decoding of the word at its word-aligned address.
pub open spec fn fetched_from(stage: StageInstruction, memory: Map<u32, u32>) -> bool {
    &&& stage.pc % 4 == 0
    &&& decode_spec(memory_read(memory, stage.pc)) == Ok::<Instruction, crate::isa::DecodeError>(
        stage.instruction,
    )
}

/// The reference machine executing `stage` from `s` (whose registers have register zero at
/// zero) agrees with the pipeline's execute and memory stages reading the same registers.
pub proof fn lemma_execute_agrees(s: MachineState, stage: StageInstruction)
    requires
        s.registers.len() == 32,
        s.registers[0] == 0,
        s.pc == stage.pc,
        stage.instruction.well_formed(),
    ensures
        ({
            let x = crate::pipeline::execute_spec(stage, s.registers, None, None).0;
            memory_stage_spec(x, s.memory) matches Ok((out, memory))
                ==> crate::machine::execute_spec(s, stage.instruction) == Ok::<
                MachineState,
                crate::machine::ExecutionError,
            >(
                MachineState {
                    registers: apply_write_back(s.registers, out),
                    memory,
                    pc: successor_pc(stage, s.registers),
                    halted: s.halted || stage.instruction is Halt,
                    retired: saturating_add_spec(s.retired, 1),
                },
            )
        }),
{
    let x = crate::pipeline::execute_spec(stage, s.registers, None, None).0;
    assert forall|r: u8| r < 32 implies forwarded_spec(r, s.registers, None, None) == register_read(
        s.registers,
        r,
    ) by {}
    if let Ok((out, memory)) = memory_stage_spec(x, s.memory) {
        match crate::machine::execute_spec(s, stage.instruction) {
            Ok(m) => {
                assert(m.registers =~= apply_write_back(s.registers, out));
            },
            Err(_) => {},
        }
    }
}

/// The registers once the instruction in EX/MEM, with memory-stage output `out`, has been
/// written back.
pub open spec fn registers_after(p: PipelineState, out: MemoryOutput) -> Seq<u32> {
    if p.ex_mem is Some {
        apply_write_back(write_back_spec(p), out)
    } else {
        write_back_spec(p)
    }
}

/// The operand the execute stage forwards for register `r` is the register's value once the
/// EX/MEM instruction has been written back, unless that instruction is a load of `r`.
pub proof fn lemma_forwarding(p: PipelineState, out: MemoryOutput, memory: Map<u32, u32>, r: u8)
    requires
        pipeline_well_formed(p),
        r < 32,
        p.ex_mem matches Some(x) ==> memory_stage_spec(x, p.memory) == Ok::<
            (MemoryOutput, Map<u32, u32>),
            crate::machine::ExecutionError,
        >((out, memory)),
        p.ex_mem matches Some(x) ==> !(x.stage.instruction is Lw && x.destination == Some(r)),
    ensures
        forwarded_spec(r, write_back_spec(p), p.ex_mem, p.mem_wb) == register_read(
            registers_after(p, out),
            r,
        ),
{
}

/// Whether the two operand sources give `stage` the same value for each register it reads.
pub open spec fn same_operands(
    stage: StageInstruction,
    registers: Seq<u32>,
    ex_mem: Option<ExecuteOutput>,
    mem_wb: Option<MemoryOutput>,
    committed: Seq<u32>,
) -> bool {
    let sources = source_registers_spec(stage.instruction);
    &&& (sources[0] matches Some(r) ==> forwarded_spec(r, registers, ex_mem, mem_wb)
        == forwarded_spec(r, committed, None, None))
    &&& (sources[1] matches Some(r) ==> forwarded_spec(r, registers, ex_mem, mem_wb)
        == forwarded_spec(r, committed, None, None))
}

/// The execute stage depends on its operands only through the registers it reads.
pub proof fn lemma_execute_operands(
    stage: StageInstruction,
    registers: Seq<u32>,
    ex_mem: Option<ExecuteOutput>,
    mem_wb: Option<MemoryOutput>,
    committed: Seq<u32>,
)
    requires
        same_operands(stage, registers, ex_mem, mem_wb, committed),
    ensures
        crate::pipeline::execute_spec(stage, registers, ex_mem, mem_wb)
            == crate::pipeline::execute_spec(stage, committed, None, None),
{
}

/// Stepping back one word undoes stepping forward one word.
pub proof fn lemma_previous_next(pc: u32)
    ensures
        previous_pc(next_pc_spec(pc)) == pc,
{
}

/// What relates a pipeline state to its committed reference state between two cycles:
/// the latches hold consecutive, correctly decoded instructions; after `halt` has executed
/// nothing younger is in flight; the EX/MEM result is the one the committed registers give;
/// the instructions behind it are at the address the reference machine goes to next; and a
/// load in EX/MEM has no consumer in ID/EX.
pub open spec fn refines(p: PipelineState) -> bool {
    &&& pipeline_well_formed(p)
    &&& p.registers[0] == 0
    &&& (p.id_ex is Some ==> p.if_id is Some)
    &&& (p.id_ex matches Some(a) ==> p.if_id->0.pc == next_pc_spec(a.pc))
    &&& (p.if_id matches Some(b) ==> p.pc == next_pc_spec(b.pc))
    &&& (p.halt_seen ==> p.if_id is None && p.id_ex is None)
    &&& (p.ex_mem matches Some(x) ==> (p.halt_seen <==> x.stage.instruction is Halt))
    &&& (p.if_id matches Some(b) ==> fetched_from(b, p.memory))
    &&& (p.id_ex matches Some(a) ==> fetched_from(a, p.memory))
    &&& (p.ex_mem matches Some(x) ==> fetched_from(x.stage, p.memory))
    &&& (p.ex_mem matches Some(x) ==> x == crate::pipeline::execute_spec(
        x.stage,
        write_back_spec(p),
        None,
        None,
    ).0)
    &&& (p.ex_mem matches Some(x) ==> front_pc(p) == successor_pc(x.stage, write_back_spec(p)))
    &&& (p.ex_mem matches Some(x) ==> (x.stage.instruction is Lw ==> (p.id_ex matches Some(a) ==> (
    x.destination matches Some(d) ==> !reads(a.instruction, d)))))
}

/// Whether this cycle discards IF/ID: `halt` or a taken branch or jump is in ID/EX.
pub open spec fn discards_fetched(p: PipelineState) -> bool {
    p.id_ex matches Some(a) && (a.instruction is Halt || crate::pipeline::execute_spec(
        a,
        write_back_spec(p),
        p.ex_mem,
        p.mem_wb,
    ).1 is Some)
}

/// The store in the memory stage of `p`, if any, leaves the decoding of every instruction
/// already fetched behind it and still to be executed unchanged: the one in ID/EX, and the
/// one in IF/ID unless this cycle discards it.
pub open spec fn store_keeps_fetched(p: PipelineState) -> bool {
    p.ex_mem matches Some(x) ==> (x.stage.instruction is Sw ==> {
        &&& (p.id_ex matches Some(a) ==> (x.alu_value == a.pc ==> decode_spec(x.store_value)
            == Ok::<Instruction, crate::isa::DecodeError>(a.instruction)))
        &&& (!discards_fetched(p) ==> (p.if_id matches Some(b) ==> (x.alu_value == b.pc
            ==> decode_spec(x.store_value) == Ok::<Instruction, crate::isa::DecodeError>(
            b.instruction,
        ))))
    })
}

/// One cycle keeps the refinement relation. It leaves the committed state unchanged when
/// EX/MEM is empty, and otherwise advances it by exactly the reference machine's step over
/// the EX/MEM instruction.
#[verifier::rlimit(60)]
pub proof fn lemma_cycle_commits(p: PipelineState, number: u64, max_trace: usize)
    requires
        refines(p),
        store_keeps_fetched(p),
    ensures
        cycle_spec(p, number, max_trace) matches Ok(q) ==> {
            &&& refines(q)
            &&& (p.ex_mem is None ==> committed_state(q) == committed_state(p))
            &&& (p.ex_mem matches Some(x) ==> !committed_state(p).halted && step_spec(
                committed_state(p),
            ) == Ok::<(MachineState, Instruction), crate::machine::ExecutionError>(
                (committed_state(q), x.stage.instruction),
            ))
        },
{
    if let Ok(q) = cycle_spec(p, number, max_trace) {
        lemma_cycle_well_formed(p, number, max_trace);
        let out: MemoryOutput = match q.mem_wb {
            Some(o) => o,
            None => arbitrary(),
        };
        assert(write_back_spec(q) =~= registers_after(p, out));
        if let Some(y) = p.id_ex {
            let sources = source_registers_spec(y.instruction);
            if let Some(r) = sources[0] {
                lemma_forwarding(p, out, q.memory, r);
            }
            if let Some(r) = sources[1] {
                lemma_forwarding(p, out, q.memory, r);
            }
            lemma_execute_operands(y, write_back_spec(p), p.ex_mem, p.mem_wb, write_back_spec(q));
        }
        if let Some(b) = p.if_id {
            lemma_previous_next(b.pc);
        }
        if let Some(x) = p.ex_mem {
            lemma_execute_agrees(committed_state(p), x.stage);
        }
    }
}

/// No store of the run of cycles `number..=max_cycles` from `p` changes the decoding of an
/// instruction already fetched behind it that is then executed.
pub open spec fn run_keeps_fetched(
    p: PipelineState,
    number: u64,
    max_cycles: u64,
    max_trace: usize,
) -> bool
    decreases max_cycles + 1 - number,
{
    if number > max_cycles || number == 0 {
        true
    } else {
        &&& store_keeps_fetched(p)
        &&& match cycle_spec(p, number, max_trace) {
            Ok(next) => if drained(next) || number == u64::MAX {
                true
            } else {
                run_keeps_fetched(next, (number + 1) as u64, max_cycles, max_trace)
            },
            Err(_) => true,
        }
    }
}

/// The number of occupied latches.
pub open spec fn in_flight(p: PipelineState) -> int {
    (if p.if_id is Some { 1int } else { 0 }) + (if p.id_ex is Some { 1int } else { 0 }) + (
    if p.ex_mem is Some { 1int } else { 0 }) + (if p.mem_wb is Some { 1int } else { 0 })
}

/// The rest of a successful run keeps the refinement relation, never decreases the committed
/// retired count, ends below `number` plus the cycles it takes, and leaves the reference run
/// from the committed state unchanged.
pub proof fn lemma_run_commits(
    p: PipelineState,
    number: u64,
    max_cycles: u64,
    max_trace: usize,
    max_steps: u64,
)
    requires
        refines(p),
        run_keeps_fetched(p, number, max_cycles, max_trace),
        p.retired + in_flight(p) < number,
    ensures
        run_from(p, number, max_cycles, max_trace) matches Ok(r) ==> {
            &&& refines(r)
            &&& drained(r)
            &&& r.retired < u64::MAX
            &&& committed_state(p).retired <= r.retired
            &&& (r.retired <= max_steps ==> run_spec(committed_state(p), max_steps) == run_spec(
                committed_state(r),
                max_steps,
            ))
        },
    decreases max_cycles + 1 - number,
{
    if number <= max_cycles && number != 0 {
        lemma_cycle_commits(p, number, max_trace);
        if let Ok(q) = cycle_spec(p, number, max_trace) {
            if !drained(q) && number < u64::MAX {
                lemma_run_commits(q, (number + 1) as u64, max_cycles, max_trace, max_steps);
            }
        }
    }
}

/// A program's pipeline starts in the refinement relation with the reference machine's
/// initial state.
pub proof fn lemma_initial_refines(words: Seq<u32>)
    ensures
        refines(initial_pipeline(words)),
        committed_state(initial_pipeline(words)) == initial_state(words),
{
    assert(write_back_spec(initial_pipeline(words)) =~= initial_state(words).registers);
}

/// The pipeline computes what the reference machine computes. When the pipelined run of a
/// program completes, and no store in it changes an instruction that was already fetched
/// behind it and is then executed, the reference machine given at least as many steps as the pipeline retired
/// reaches `halt` with the same registers, the same memory and the same retired count; its
/// final pc is the word after `halt`, one word before the pipeline's final fetch address.
pub proof fn lemma_pipeline_matches_reference(
    words: Seq<u32>,
    max_cycles: u64,
    max_trace: usize,
    max_steps: u64,
    r: PipelineState,
)
    requires
        pipeline_spec(words, max_cycles, max_trace) == Ok::<
            PipelineState,
            crate::pipeline::PipelineError,
        >(r),
        run_keeps_fetched(initial_pipeline(words), 1, max_cycles, max_trace),
        r.retired <= max_steps,
    ensures
        run_spec(initial_state(words), max_steps) == (
            MachineState {
                registers: r.registers,
                memory: r.memory,
                pc: previous_pc(r.pc),
                halted: true,
                retired: r.retired,
            },
            Ok::<RunSummary, crate::machine::ExecutionError>(
                RunSummary { retired: r.retired, final_pc: previous_pc(r.pc) },
            ),
        ),
{
    lemma_initial_refines(words);
    lemma_run_commits(initial_pipeline(words), 1, max_cycles, max_trace, max_steps);
    assert(write_back_spec(r) =~= r.registers);
}

} // verus!
