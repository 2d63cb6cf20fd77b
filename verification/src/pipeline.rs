//! An independent five-stage in-order pipeline (IF/ID/EX/MEM/WB) with forwarding, a load-use
//! interlock, control flushes and a bounded cycle trace.

use vstd::prelude::*;
use std::collections::BTreeMap;
use crate::assembler::Program;
use crate::isa::{
    decode_error_text, decode_spec, destination_register_spec, disassemble_spec, lemma_decode_well_formed,
    source_registers_spec, DecodeError, Instruction,
};
use crate::machine::{
    add_signed, add_signed_spec, alignment_spec, branch_target, branch_target_spec,
    ensure_aligned, jump_target_spec, load_words, memory_get, memory_read, next_pc_spec, program_memory,
    set_less_than_spec, execution_error_text, ExecutionError,
};
use crate::text::{chars_to_string, decimal, hex_digits, push_decimal, push_hex, push_str};

verus! {

broadcast use vstd::std_specs::btree::group_btree_axioms;

/// One observable cycle: the instruction in each of the five stages and any hazard action.
#[derive(Clone, Debug, PartialEq, Eq)]
pub struct PipelineCycle {
    pub cycle: u64,
    pub fetch: Option<String>,
    pub decode: Option<String>,
    pub execute: Option<String>,
    pub memory: Option<String>,
    pub write_back: Option<String>,
    pub event: Option<String>,
}

/// The text of one trace row.
pub struct CycleView {
    pub cycle: u64,
    pub fetch: Option<Seq<char>>,
    pub decode: Option<Seq<char>>,
    pub execute: Option<Seq<char>>,
    pub memory: Option<Seq<char>>,
    pub write_back: Option<Seq<char>>,
    pub event: Option<Seq<char>>,
}

/// The characters of an optional string.
pub open spec fn option_text(text: Option<String>) -> Option<Seq<char>> {
    match text {
        Some(s) => Some(s@),
        None => None,
    }
}

impl View for PipelineCycle {
    type V = CycleView;

    open spec fn view(&self) -> CycleView {
        CycleView {
            cycle: self.cycle,
            fetch: option_text(self.fetch),
            decode: option_text(self.decode),
            execute: option_text(self.execute),
            memory: option_text(self.memory),
            write_back: option_text(self.write_back),
            event: option_text(self.event),
        }
    }
}

/// Final architectural state and timing evidence from a pipeline run.
#[derive(Clone, Debug, PartialEq, Eq)]
pub struct PipelineResult {
    pub registers: [u32; 32],
    pub memory: BTreeMap<u32, u32>,
    pub final_pc: u32,
    pub retired: u64,
    pub stalls: u64,
    pub flushes: u64,
    pub cycles: Vec<PipelineCycle>,
}

/// Failures distinguish decode and execution faults from the cycle limit.
#[derive(Clone, Copy, Debug, PartialEq, Eq)]
pub enum PipelineError {
    Decode(DecodeError),
    Execution(ExecutionError),
    CycleLimitExceeded { limit: u64 },
}

/// An instruction in flight together with the address it was fetched from.
#[derive(Clone, Copy, Debug, PartialEq, Eq, Structural)]
pub struct StageInstruction {
    pub pc: u32,
    pub instruction: Instruction,
}

/// The EX/MEM latch: ALU result or memory address, store data and destination register.
#[derive(Clone, Copy, Debug, PartialEq, Eq, Structural)]
pub struct ExecuteOutput {
    pub stage: StageInstruction,
    pub alu_value: u32,
    pub store_value: u32,
    pub destination: Option<u8>,
}

/// The MEM/WB latch: the value to write back and its destination register.
#[derive(Clone, Copy, Debug, PartialEq, Eq, Structural)]
pub struct MemoryOutput {
    pub stage: StageInstruction,
    pub value: u32,
    pub destination: Option<u8>,
}

/// Configurable runner for the classic IF/ID/EX/MEM/WB model.
#[derive(Clone, Copy, Debug, PartialEq, Eq, Structural)]
pub struct PipelineSimulator {
    pub max_cycles: u64,
    pub max_trace_cycles: usize,
}

/// The complete state of a pipeline between two cycles.
pub struct PipelineState {
    pub registers: Seq<u32>,
    pub memory: Map<u32, u32>,
    pub pc: u32,
    pub if_id: Option<StageInstruction>,
    pub id_ex: Option<StageInstruction>,
    pub ex_mem: Option<ExecuteOutput>,
    pub mem_wb: Option<MemoryOutput>,
    pub halt_seen: bool,
    pub retired: u64,
    pub stalls: u64,
    pub flushes: u64,
    pub cycles: Seq<CycleView>,
}

/// The state a program starts from.
pub open spec fn initial_pipeline(words: Seq<u32>) -> PipelineState {
    PipelineState {
        registers: Seq::new(32, |i: int| 0u32),
        memory: program_memory(words),
        pc: 0,
        if_id: None,
        id_ex: None,
        ex_mem: None,
        mem_wb: None,
        halt_seen: false,
        retired: 0,
        stalls: 0,
        flushes: 0,
        cycles: seq![],
    }
}

/// `x + y`, saturating at `u64::MAX`.
pub open spec fn saturating_add_spec(x: u64, y: u64) -> u64 {
    if x + y > u64::MAX {
        u64::MAX
    } else {
        (x + y) as u64
    }
}

/// The operand value the execute stage reads for `register`: zero for register zero, else the
/// EX/MEM result (not for a load, whose value does not exist yet), else the MEM/WB value, else
/// the register file.
pub open spec fn forwarded_spec(
    register: u8,
    registers: Seq<u32>,
    ex_mem: Option<ExecuteOutput>,
    mem_wb: Option<MemoryOutput>,
) -> u32 {
    if register == 0 {
        0
    } else if ex_mem matches Some(o) && !(o.stage.instruction is Lw) && o.destination == Some(
        register,
    ) {
        ex_mem->0.alu_value
    } else if mem_wb matches Some(o) && o.destination == Some(register) {
        mem_wb->0.value
    } else if register < 32 {
        registers[register as int]
    } else {
        0
    }
}

/// The execute stage: the EX/MEM latch it produces and the redirect target of a taken branch
/// or jump.
pub open spec fn execute_spec(
    stage: StageInstruction,
    registers: Seq<u32>,
    ex_mem: Option<ExecuteOutput>,
    mem_wb: Option<MemoryOutput>,
) -> (ExecuteOutput, Option<u32>) {
    let seq_pc = next_pc_spec(stage.pc);
    let (alu_value, store_value, control): (u32, u32, Option<u32>) = match stage.instruction {
        Instruction::Nop | Instruction::Halt => (0, 0, None),
        Instruction::Addu { rs, rt, .. } => (
            ((forwarded_spec(rs, registers, ex_mem, mem_wb) as int + forwarded_spec(
                rt,
                registers,
                ex_mem,
                mem_wb,
            ) as int) % 0x1_0000_0000) as u32,
            0,
            None,
        ),
        Instruction::Subu { rs, rt, .. } => (
            ((forwarded_spec(rs, registers, ex_mem, mem_wb) as int - forwarded_spec(
                rt,
                registers,
                ex_mem,
                mem_wb,
            ) as int + 0x1_0000_0000) % 0x1_0000_0000) as u32,
            0,
            None,
        ),
        Instruction::And { rs, rt, .. } => (
            forwarded_spec(rs, registers, ex_mem, mem_wb) & forwarded_spec(
                rt,
                registers,
                ex_mem,
                mem_wb,
            ),
            0,
            None,
        ),
        Instruction::Or { rs, rt, .. } => (
            forwarded_spec(rs, registers, ex_mem, mem_wb) | forwarded_spec(
                rt,
                registers,
                ex_mem,
                mem_wb,
            ),
            0,
            None,
        ),
        Instruction::Slt { rs, rt, .. } => (
            set_less_than_spec(
                forwarded_spec(rs, registers, ex_mem, mem_wb),
                forwarded_spec(rt, registers, ex_mem, mem_wb),
            ),
            0,
            None,
        ),
        Instruction::Sll { rt, shamt, .. } => (
            forwarded_spec(rt, registers, ex_mem, mem_wb) << (shamt as u32),
            0,
            None,
        ),
        Instruction::Addiu { rs, immediate, .. } => (
            add_signed_spec(forwarded_spec(rs, registers, ex_mem, mem_wb), immediate),
            0,
            None,
        ),
        Instruction::Lw { base, offset, .. } => (
            add_signed_spec(forwarded_spec(base, registers, ex_mem, mem_wb), offset),
            0,
            None,
        ),
        Instruction::Sw { rt, base, offset } => (
            add_signed_spec(forwarded_spec(base, registers, ex_mem, mem_wb), offset),
            forwarded_spec(rt, registers, ex_mem, mem_wb),
            None,
        ),
        Instruction::Beq { rs, rt, offset } => (
            0,
            0,
            if forwarded_spec(rs, registers, ex_mem, mem_wb) == forwarded_spec(
                rt,
                registers,
                ex_mem,
                mem_wb,
            ) {
                Some(branch_target_spec(seq_pc, offset))
            } else {
                None
            },
        ),
        Instruction::Bne { rs, rt, offset } => (
            0,
            0,
            if forwarded_spec(rs, registers, ex_mem, mem_wb) != forwarded_spec(
                rt,
                registers,
                ex_mem,
                mem_wb,
            ) {
                Some(branch_target_spec(seq_pc, offset))
            } else {
                None
            },
        ),
        Instruction::J { target } => (0, 0, Some(jump_target_spec(seq_pc, target))),
    };
    (
        ExecuteOutput {
            stage,
            alu_value,
            store_value,
            destination: destination_register_spec(stage.instruction),
        },
        control,
    )
}

/// The memory stage: the MEM/WB latch and the memory after a store, or the alignment error.
pub open spec fn memory_stage_spec(output: ExecuteOutput, memory: Map<u32, u32>) -> Result<
    (MemoryOutput, Map<u32, u32>),
    ExecutionError,
> {
    match output.stage.instruction {
        Instruction::Lw { .. } => match alignment_spec(output.alu_value, "load") {
            Err(e) => Err(e),
            Ok(_) => Ok(
                (
                    MemoryOutput {
                        stage: output.stage,
                        value: memory_read(memory, output.alu_value),
                        destination: output.destination,
                    },
                    memory,
                ),
            ),
        },
        Instruction::Sw { .. } => match alignment_spec(output.alu_value, "store") {
            Err(e) => Err(e),
            Ok(_) => Ok(
                (
                    MemoryOutput { stage: output.stage, value: 0, destination: output.destination },
                    memory.insert(output.alu_value, output.store_value),
                ),
            ),
        },
        _ => Ok(
            (
                MemoryOutput {
                    stage: output.stage,
                    value: output.alu_value,
                    destination: output.destination,
                },
                memory,
            ),
        ),
    }
}

/// A load in ID/EX whose destination the instruction in IF/ID reads.
pub open spec fn load_use_spec(id_ex: Option<StageInstruction>, if_id: Option<StageInstruction>) -> bool {
    match id_ex {
        Some(load) => load.instruction is Lw && match destination_register_spec(load.instruction) {
            Some(destination) => match if_id {
                Some(next) => {
                    let sources = source_registers_spec(next.instruction);
                    sources[0] == Some(destination) || sources[1] == Some(destination)
                },
                None => false,
            },
            None => false,
        },
        None => false,
    }
}

/// The trace label of an in-flight instruction: `0x` + 8 hex digits of its address, `: `, and
/// its disassembly.
pub open spec fn stage_label_spec(stage: StageInstruction) -> Seq<char> {
    "0x"@ + hex_digits(stage.pc as nat, 8) + ": "@ + disassemble_spec(stage.instruction)
}

/// The label of an optional latch entry.
pub open spec fn optional_label(stage: Option<StageInstruction>) -> Option<Seq<char>> {
    match stage {
        Some(s) => Some(stage_label_spec(s)),
        None => None,
    }
}

/// The event text when `halt` reaches the execute stage.
pub open spec fn halt_event() -> Seq<char> {
    "halt: younger instructions flushed"@
}

/// The event text when a taken branch or jump discards `discarded` younger slots.
pub open spec fn control_event(discarded: u64) -> Seq<char> {
    "control hazard: flushed "@ + decimal(discarded as nat) + " slot(s)"@
}

/// The event text of a load-use interlock.
pub open spec fn stall_event() -> Seq<char> {
    "load-use interlock: inserted one bubble"@
}

/// The decisions of the fetch side of one cycle.
pub struct FrontEnd {
    pub if_id: Option<StageInstruction>,
    pub id_ex: Option<StageInstruction>,
    pub fetched: Option<StageInstruction>,
    pub pc: u32,
    pub halt_seen: bool,
    pub stalls: u64,
    pub flushes: u64,
    pub event: Option<Seq<char>>,
}

/// Fetch-side decisions, in priority order: `halt` in execute flushes and stops fetching; a
/// taken control transfer flushes and redirects; a load-use hazard holds IF/ID and inserts a
/// bubble; after `halt` nothing is fetched; otherwise the next word is fetched and decoded.
pub open spec fn front_end_spec(
    s: PipelineState,
    control: Option<u32>,
    memory: Map<u32, u32>,
) -> Result<FrontEnd, PipelineError> {
    let discarded: u64 = if s.if_id is Some {
        2
    } else {
        1
    };
    if s.id_ex matches Some(st) && st.instruction is Halt {
        Ok(
            FrontEnd {
                if_id: None,
                id_ex: None,
                fetched: None,
                pc: s.pc,
                halt_seen: true,
                stalls: s.stalls,
                flushes: saturating_add_spec(s.flushes, discarded),
                event: Some(halt_event()),
            },
        )
    } else if control is Some {
        Ok(
            FrontEnd {
                if_id: None,
                id_ex: None,
                fetched: None,
                pc: control->0,
                halt_seen: s.halt_seen,
                stalls: s.stalls,
                flushes: saturating_add_spec(s.flushes, discarded),
                event: Some(control_event(discarded)),
            },
        )
    } else if load_use_spec(s.id_ex, s.if_id) {
        Ok(
            FrontEnd {
                if_id: s.if_id,
                id_ex: None,
                fetched: None,
                pc: s.pc,
                halt_seen: s.halt_seen,
                stalls: saturating_add_spec(s.stalls, 1),
                flushes: s.flushes,
                event: Some(stall_event()),
            },
        )
    } else if s.halt_seen {
        Ok(
            FrontEnd {
                if_id: None,
                id_ex: None,
                fetched: None,
                pc: s.pc,
                halt_seen: true,
                stalls: s.stalls,
                flushes: s.flushes,
                event: None,
            },
        )
    } else {
        match alignment_spec(s.pc, "instruction fetch") {
            Err(e) => Err(PipelineError::Execution(e)),
            Ok(_) => match decode_spec(memory_read(memory, s.pc)) {
                Err(e) => Err(PipelineError::Decode(e)),
                Ok(instruction) => {
                    let fetched = StageInstruction { pc: s.pc, instruction };
                    Ok(
                        FrontEnd {
                            if_id: Some(fetched),
                            id_ex: s.if_id,
                            fetched: Some(fetched),
                            pc: next_pc_spec(s.pc),
                            halt_seen: false,
                            stalls: s.stalls,
                            flushes: s.flushes,
                            event: None,
                        },
                    )
                },
            },
        }
    }
}

/// The register file after write-back (register zero cleared afterwards).
pub open spec fn write_back_spec(s: PipelineState) -> Seq<u32> {
    let written = match s.mem_wb {
        Some(wb) => match wb.destination {
            Some(d) => s.registers.update(d as int, wb.value),
            None => s.registers,
        },
        None => s.registers,
    };
    written.update(0, 0)
}

/// The trace row recorded for a cycle.
pub open spec fn cycle_row(s: PipelineState, number: u64, front: FrontEnd) -> CycleView {
    CycleView {
        cycle: number,
        fetch: optional_label(front.fetched),
        decode: optional_label(s.if_id),
        execute: optional_label(s.id_ex),
        memory: match s.ex_mem {
            Some(o) => Some(stage_label_spec(o.stage)),
            None => None,
        },
        write_back: match s.mem_wb {
            Some(o) => Some(stage_label_spec(o.stage)),
            None => None,
        },
        event: front.event,
    }
}

/// One clock cycle: write-back, memory, execute and fetch, then the latches advance.
pub open spec fn cycle_spec(s: PipelineState, number: u64, max_trace: usize) -> Result<
    PipelineState,
    PipelineError,
> {
    let registers = write_back_spec(s);
    let retired = if s.mem_wb is Some {
        saturating_add_spec(s.retired, 1)
    } else {
        s.retired
    };
    let memory_phase: Result<(Option<MemoryOutput>, Map<u32, u32>), ExecutionError> = match s.ex_mem {
        Some(output) => match memory_stage_spec(output, s.memory) {
            Err(e) => Err(e),
            Ok((out, memory)) => Ok((Some(out), memory)),
        },
        None => Ok((None, s.memory)),
    };
    match memory_phase {
        Err(e) => Err(PipelineError::Execution(e)),
        Ok((next_mem_wb, memory)) => {
            let execution = match s.id_ex {
                Some(stage) => Some(execute_spec(stage, registers, s.ex_mem, s.mem_wb)),
                None => None,
            };
            let next_ex_mem = match execution {
                Some(e) => Some(e.0),
                None => None,
            };
            let control = match execution {
                Some(e) => e.1,
                None => None,
            };
            match front_end_spec(s, control, memory) {
                Err(e) => Err(e),
                Ok(front) => Ok(
                    PipelineState {
                        registers,
                        memory,
                        pc: front.pc,
                        if_id: front.if_id,
                        id_ex: front.id_ex,
                        ex_mem: next_ex_mem,
                        mem_wb: next_mem_wb,
                        halt_seen: front.halt_seen,
                        retired,
                        stalls: front.stalls,
                        flushes: front.flushes,
                        cycles: if s.cycles.len() < max_trace {
                            s.cycles.push(cycle_row(s, number, front))
                        } else {
                            s.cycles
                        },
                    },
                ),
            }
        },
    }
}

/// `halt` has been executed and every latch is empty.
pub open spec fn drained(s: PipelineState) -> bool {
    &&& s.halt_seen
    &&& s.if_id is None
    &&& s.id_ex is None
    &&& s.ex_mem is None
    &&& s.mem_wb is None
}

/// Runs cycles `number..=max_cycles` from `s` until the pipeline drains after `halt`.
pub open spec fn run_from(s: PipelineState, number: u64, max_cycles: u64, max_trace: usize) -> Result<
    PipelineState,
    PipelineError,
>
    decreases max_cycles + 1 - number,
{
    if number > max_cycles || number == 0 {
        Err(PipelineError::CycleLimitExceeded { limit: max_cycles })
    } else {
        match cycle_spec(s, number, max_trace) {
            Err(e) => Err(e),
            Ok(next) => if drained(next) {
                Ok(next)
            } else if number == u64::MAX {
                Err(PipelineError::CycleLimitExceeded { limit: max_cycles })
            } else {
                run_from(next, (number + 1) as u64, max_cycles, max_trace)
            },
        }
    }
}

/// The outcome of running a program of `words` with the given bounds.
pub open spec fn pipeline_spec(words: Seq<u32>, max_cycles: u64, max_trace: usize) -> Result<
    PipelineState,
    PipelineError,
> {
    run_from(initial_pipeline(words), 1, max_cycles, max_trace)
}

/// What a `PipelineResult` records of a drained pipeline.
pub struct ResultView {
    pub registers: Seq<u32>,
    pub memory: Map<u32, u32>,
    pub final_pc: u32,
    pub retired: u64,
    pub stalls: u64,
    pub flushes: u64,
    pub cycles: Seq<CycleView>,
}

/// The result record of a drained pipeline state.
pub open spec fn result_of(s: PipelineState) -> ResultView {
    ResultView {
        registers: s.registers,
        memory: s.memory,
        final_pc: s.pc,
        retired: s.retired,
        stalls: s.stalls,
        flushes: s.flushes,
        cycles: s.cycles,
    }
}

impl View for PipelineResult {
    type V = ResultView;

    open spec fn view(&self) -> ResultView {
        ResultView {
            registers: self.registers@,
            memory: self.memory@,
            final_pc: self.final_pc,
            retired: self.retired,
            stalls: self.stalls,
            flushes: self.flushes,
            cycles: Seq::new(self.cycles@.len(), |i: int| self.cycles@[i]@),
        }
    }
}

/// Latch contents are decoded instructions, and the EX/MEM and MEM/WB destinations are the
/// instructions' own destination registers.
pub open spec fn pipeline_well_formed(s: PipelineState) -> bool {
    &&& s.registers.len() == 32
    &&& (s.if_id matches Some(st) ==> st.instruction.well_formed())
    &&& (s.id_ex matches Some(st) ==> st.instruction.well_formed())
    &&& (s.ex_mem matches Some(o) ==> o.stage.instruction.well_formed() && o.destination
        == destination_register_spec(o.stage.instruction))
    &&& (s.mem_wb matches Some(o) ==> o.stage.instruction.well_formed() && o.destination
        == destination_register_spec(o.stage.instruction))
}

fn forwarded_value(
    register: u8,
    registers: &[u32; 32],
    ex_mem: Option<ExecuteOutput>,
    mem_wb: Option<MemoryOutput>,
) -> (value: u32)
    ensures
        value == forwarded_spec(register, registers@, ex_mem, mem_wb),
{
    if register == 0 {
        return 0;
    }
    if let Some(output) = ex_mem {
        if !output.stage.instruction.is_load() && output.destination == Some(register) {
            return output.alu_value;
        }
    }
    if let Some(output) = mem_wb {
        if output.destination == Some(register) {
            return output.value;
        }
    }
    if register < 32 {
        registers[register as usize]
    } else {
        0
    }
}

fn execute_stage(
    stage: StageInstruction,
    registers: &[u32; 32],
    ex_mem: Option<ExecuteOutput>,
    mem_wb: Option<MemoryOutput>,
) -> (result: (ExecuteOutput, Option<u32>))
    requires
        stage.instruction.well_formed(),
    ensures
        result == execute_spec(stage, registers@, ex_mem, mem_wb),
{
    let mut control_target: Option<u32> = None;
    let seq_pc = stage.pc.wrapping_add(4);
    let (alu_value, store_value): (u32, u32) = match stage.instruction {
        Instruction::Nop | Instruction::Halt => (0, 0),
        Instruction::Addu { rs, rt, .. } => (
            forwarded_value(rs, registers, ex_mem, mem_wb).wrapping_add(
                forwarded_value(rt, registers, ex_mem, mem_wb),
            ),
            0,
        ),
        Instruction::Subu { rs, rt, .. } => (
            forwarded_value(rs, registers, ex_mem, mem_wb).wrapping_sub(
                forwarded_value(rt, registers, ex_mem, mem_wb),
            ),
            0,
        ),
        Instruction::And { rs, rt, .. } => (
            forwarded_value(rs, registers, ex_mem, mem_wb) & forwarded_value(
                rt,
                registers,
                ex_mem,
                mem_wb,
            ),
            0,
        ),
        Instruction::Or { rs, rt, .. } => (
            forwarded_value(rs, registers, ex_mem, mem_wb) | forwarded_value(
                rt,
                registers,
                ex_mem,
                mem_wb,
            ),
            0,
        ),
        Instruction::Slt { rs, rt, .. } => {
            let a = forwarded_value(rs, registers, ex_mem, mem_wb);
            let b = forwarded_value(rt, registers, ex_mem, mem_wb);
            (if (a as i32) < (b as i32) { 1 } else { 0 }, 0)
        },
        Instruction::Sll { rt, shamt, .. } => (
            forwarded_value(rt, registers, ex_mem, mem_wb) << (shamt as u32),
            0,
        ),
        Instruction::Addiu { rs, immediate, .. } => (
            add_signed(forwarded_value(rs, registers, ex_mem, mem_wb), immediate),
            0,
        ),
        Instruction::Lw { base, offset, .. } => (
            add_signed(forwarded_value(base, registers, ex_mem, mem_wb), offset),
            0,
        ),
        Instruction::Sw { rt, base, offset } => (
            add_signed(forwarded_value(base, registers, ex_mem, mem_wb), offset),
            forwarded_value(rt, registers, ex_mem, mem_wb),
        ),
        Instruction::Beq { rs, rt, offset } => {
            if forwarded_value(rs, registers, ex_mem, mem_wb) == forwarded_value(
                rt,
                registers,
                ex_mem,
                mem_wb,
            ) {
                control_target = Some(branch_target(seq_pc, offset));
            }
            (0, 0)
        },
        Instruction::Bne { rs, rt, offset } => {
            if forwarded_value(rs, registers, ex_mem, mem_wb) != forwarded_value(
                rt,
                registers,
                ex_mem,
                mem_wb,
            ) {
                control_target = Some(branch_target(seq_pc, offset));
            }
            (0, 0)
        },
        Instruction::J { target } => {
            control_target = Some((seq_pc & 0xf000_0000) | (target << 2u32));
            (0, 0)
        },
    };
    (
        ExecuteOutput {
            stage,
            alu_value,
            store_value,
            destination: stage.instruction.destination_register(),
        },
        control_target,
    )
}

fn memory_stage(output: ExecuteOutput, memory: &mut BTreeMap<u32, u32>) -> (result: Result<
    MemoryOutput,
    ExecutionError,
>)
    ensures
        match memory_stage_spec(output, old(memory)@) {
            Ok((out, m)) => result == Ok::<MemoryOutput, ExecutionError>(out) && final(memory)@ == m,
            Err(e) => result == Err::<MemoryOutput, ExecutionError>(e) && final(memory)@ == old(
                memory,
            )@,
        },
{
    let value = match output.stage.instruction {
        Instruction::Lw { .. } => {
            ensure_aligned(output.alu_value, "load")?;
            memory_get(memory, output.alu_value)
        },
        Instruction::Sw { .. } => {
            ensure_aligned(output.alu_value, "store")?;
            memory.insert(output.alu_value, output.store_value);
            0
        },
        _ => output.alu_value,
    };
    Ok(MemoryOutput { stage: output.stage, value, destination: output.destination })
}

fn has_load_use_hazard(id_ex: Option<StageInstruction>, if_id: Option<StageInstruction>) -> (hazard:
    bool)
    ensures
        hazard == load_use_spec(id_ex, if_id),
{
    let load = match id_ex {
        Some(stage) => {
            if !stage.instruction.is_load() {
                return false;
            }
            stage
        },
        None => {
            return false;
        },
    };
    let destination = match load.instruction.destination_register() {
        Some(d) => d,
        None => {
            return false;
        },
    };
    match if_id {
        Some(stage) => {
            let sources = stage.instruction.source_registers();
            sources[0] == Some(destination) || sources[1] == Some(destination)
        },
        None => false,
    }
}

fn stage_label(stage: StageInstruction) -> (label: String)
    ensures
        label@ == stage_label_spec(stage),
{
    let mut out: Vec<char> = Vec::new();
    push_str(&mut out, "0x");
    push_hex(&mut out, stage.pc as u64, 8);
    push_str(&mut out, ": ");
    stage.instruction.push_disassembly(&mut out);
    assert(out@ =~= stage_label_spec(stage));
    chars_to_string(&out)
}

fn optional_stage_label(stage: Option<StageInstruction>) -> (label: Option<String>)
    ensures
        option_text(label) == optional_label(stage),
{
    match stage {
        Some(s) => Some(stage_label(s)),
        None => None,
    }
}

/// The rows of a trace.
pub open spec fn rows_view(rows: Seq<PipelineCycle>) -> Seq<CycleView> {
    Seq::new(rows.len(), |i: int| rows[i]@)
}

/// The mutable state of one pipeline run.
struct Core {
    registers: [u32; 32],
    memory: BTreeMap<u32, u32>,
    pc: u32,
    if_id: Option<StageInstruction>,
    id_ex: Option<StageInstruction>,
    ex_mem: Option<ExecuteOutput>,
    mem_wb: Option<MemoryOutput>,
    halt_seen: bool,
    retired: u64,
    stalls: u64,
    flushes: u64,
    cycles: Vec<PipelineCycle>,
}

impl Core {
    spec fn state(&self) -> PipelineState {
        PipelineState {
            registers: self.registers@,
            memory: self.memory@,
            pc: self.pc,
            if_id: self.if_id,
            id_ex: self.id_ex,
            ex_mem: self.ex_mem,
            mem_wb: self.mem_wb,
            halt_seen: self.halt_seen,
            retired: self.retired,
            stalls: self.stalls,
            flushes: self.flushes,
            cycles: rows_view(self.cycles@),
        }
    }
}

fn control_event_text(discarded: u64) -> (text: String)
    ensures
        text@ == control_event(discarded),
{
    let mut out: Vec<char> = Vec::new();
    push_str(&mut out, "control hazard: flushed ");
    push_decimal(&mut out, discarded);
    push_str(&mut out, " slot(s)");
    assert(out@ =~= control_event(discarded));
    chars_to_string(&out)
}

/// Whether `instruction` takes register `r` as an operand: the register operands of the
/// arithmetic instructions and branches, the shifted register of `sll`, the base of a load,
/// and the base and stored register of a store.
pub open spec fn takes_operand(instruction: Instruction, r: u8) -> bool {
    match instruction {
        Instruction::Addu { rs, rt, .. }
        | Instruction::Subu { rs, rt, .. }
        | Instruction::And { rs, rt, .. }
        | Instruction::Or { rs, rt, .. }
        | Instruction::Slt { rs, rt, .. }
        | Instruction::Beq { rs, rt, .. }
        | Instruction::Bne { rs, rt, .. } => rs == r || rt == r,
        Instruction::Sll { rt, .. } => rt == r,
        Instruction::Addiu { rs, .. } => rs == r,
        Instruction::Lw { base, .. } => base == r,
        Instruction::Sw { rt, base, .. } => rt == r || base == r,
        Instruction::Nop | Instruction::J { .. } | Instruction::Halt => false,
    }
}

/// A load in ID/EX whose destination (a register other than zero) the instruction in IF/ID
/// takes as an operand.
pub open spec fn load_feeds_next(id_ex: Option<StageInstruction>, if_id: Option<StageInstruction>) -> bool {
    &&& id_ex matches Some(load)
    &&& load.instruction matches Instruction::Lw { rt, .. }
    &&& rt != 0
    &&& if_id matches Some(next)
    &&& takes_operand(next.instruction, rt)
}

/// The load-use interlock fires exactly when ID/EX holds a load whose destination the
/// instruction in IF/ID reads; an instruction after a load that does not read it (or a load
/// into register zero) causes no bubble.
pub proof fn lemma_load_use_exact(id_ex: Option<StageInstruction>, if_id: Option<StageInstruction>)
    ensures
        load_use_spec(id_ex, if_id) <==> load_feeds_next(id_ex, if_id),
{
}

/// A cycle counts one stall exactly when a load in ID/EX feeds the instruction in IF/ID, and
/// otherwise leaves the stall count as it is.
pub proof fn lemma_cycle_stalls(s: PipelineState, number: u64, max_trace: usize)
    ensures
        cycle_spec(s, number, max_trace) matches Ok(next) ==> next.stalls == if load_feeds_next(
            s.id_ex,
            s.if_id,
        ) {
            saturating_add_spec(s.stalls, 1)
        } else {
            s.stalls
        },
{
    lemma_load_use_exact(s.id_ex, s.if_id);
}

/// A cycle that executes `halt` or a taken branch or jump discards the instruction behind it
/// in ID/EX and the one in IF/ID (if any), counting one flush per discarded slot; any other
/// cycle counts no flush.
pub proof fn lemma_cycle_flushes(s: PipelineState, number: u64, max_trace: usize)
    ensures
        cycle_spec(s, number, max_trace) matches Ok(next) ==> next.flushes == if s.id_ex matches Some(
            st,
        ) && (st.instruction is Halt || execute_spec(st, write_back_spec(s), s.ex_mem, s.mem_wb).1 is Some) {
            saturating_add_spec(s.flushes, if s.if_id is Some { 2 } else { 1 })
        } else {
            s.flushes
        },
{
}

/// The trace rows of two non-empty runs of rows, one after the other, are the rows of the
/// first, a comma, and the rows of the second: the rows are joined by single commas.
pub proof fn lemma_rows_json_join(a: Seq<CycleView>, b: Seq<CycleView>)
    requires
        a.len() > 0,
        b.len() > 0,
    ensures
        rows_json(a + b) == rows_json(a) + ","@ + rows_json(b),
    decreases b.len(),
{
    if b.len() == 1 {
        assert((a + b).drop_last() =~= a);
        assert(rows_json(b) == row_json(b[0]));
    } else {
        lemma_rows_json_join(a, b.drop_last());
        assert((a + b).drop_last() =~= a + b.drop_last());
        assert(rows_json(a) + ","@ + rows_json(b.drop_last()) + ","@ + row_json(b.last()) =~= rows_json(a)
            + ","@ + (rows_json(b.drop_last()) + ","@ + row_json(b.last())));
    }
}

/// No rows give no text and one row gives its object alone.
pub proof fn lemma_rows_json_small(row: CycleView)
    ensures
        rows_json(seq![]) == Seq::<char>::empty(),
        rows_json(seq![row]) == row_json(row),
{
}

/// Register values of two non-empty runs of registers, one after the other, are joined by a
/// single comma.
pub proof fn lemma_registers_json_join(a: Seq<u32>, b: Seq<u32>)
    requires
        a.len() > 0,
        b.len() > 0,
    ensures
        registers_json(a + b) == registers_json(a) + ","@ + registers_json(b),
    decreases b.len(),
{
    if b.len() == 1 {
        assert((a + b).drop_last() =~= a);
    } else {
        lemma_registers_json_join(a, b.drop_last());
        assert((a + b).drop_last() =~= a + b.drop_last());
        assert(registers_json(a) + ","@ + registers_json(b.drop_last()) + ","@ + decimal(b.last() as nat)
            =~= registers_json(a) + ","@ + (registers_json(b.drop_last()) + ","@ + decimal(
            b.last() as nat,
        )));
    }
}

/// A cycle keeps register zero at zero and appends exactly one row, numbered by the cycle,
/// while the trace is below its bound, and none once it is full.
pub proof fn lemma_cycle_trace(s: PipelineState, number: u64, max_trace: usize)
    requires
        pipeline_well_formed(s),
    ensures
        cycle_spec(s, number, max_trace) matches Ok(next) ==> {
            &&& next.registers.len() == 32
            &&& next.registers[0] == 0
            &&& next.cycles.len() == if s.cycles.len() < max_trace {
                s.cycles.len() + 1int
            } else {
                s.cycles.len() as int
            }
            &&& forall|i: int| 0 <= i < s.cycles.len() ==> next.cycles[i] == s.cycles[i]
            &&& s.cycles.len() < max_trace ==> next.cycles[s.cycles.len() as int].cycle == number
        },
{
}

/// The number of rows retained after `cycles` cycles.
pub open spec fn retained_rows(cycles: int, max_trace: usize) -> int {
    if cycles <= max_trace {
        cycles
    } else {
        max_trace as int
    }
}

/// A successful pipeline run ends drained, with register zero at zero and a trace of at most
/// `max_trace` rows whose cycle numbers count up from 1.
pub proof fn lemma_run_result(s: PipelineState, number: u64, max_cycles: u64, max_trace: usize)
    requires
        1 <= number,
        s.cycles.len() == retained_rows(number - 1, max_trace),
        pipeline_well_formed(s),
        forall|i: int| 0 <= i < s.cycles.len() ==> (#[trigger] s.cycles[i]).cycle == i + 1,
    ensures
        run_from(s, number, max_cycles, max_trace) matches Ok(r) ==> drained(r)
            && r.registers[0] == 0 && r.cycles.len() <= max_trace && forall|i: int|
            0 <= i < r.cycles.len() ==> (#[trigger] r.cycles[i]).cycle == i + 1,
    decreases max_cycles + 1 - number,
{
    if number <= max_cycles {
        lemma_cycle_trace(s, number, max_trace);
        lemma_cycle_well_formed(s, number, max_trace);
        if let Ok(next) = cycle_spec(s, number, max_trace) {
            assert forall|i: int| 0 <= i < next.cycles.len() implies (#[trigger] next.cycles[i]).cycle
                == i + 1 by {
                if i < s.cycles.len() {
                    assert(next.cycles[i] == s.cycles[i]);
                }
            }
            if !drained(next) && number < u64::MAX {
                lemma_run_result(next, (number + 1) as u64, max_cycles, max_trace);
            }
        }
    }
}

/// Laws of a whole pipeline run: see `lemma_run_result`.
pub proof fn lemma_pipeline_result(words: Seq<u32>, max_cycles: u64, max_trace: usize)
    ensures
        pipeline_spec(words, max_cycles, max_trace) matches Ok(r) ==> drained(r)
            && r.registers[0] == 0 && r.cycles.len() <= max_trace && forall|i: int|
            0 <= i < r.cycles.len() ==> (#[trigger] r.cycles[i]).cycle == i + 1,
{
    lemma_run_result(initial_pipeline(words), 1, max_cycles, max_trace);
}

/// Well-formed states stay well formed from cycle to cycle.
pub proof fn lemma_cycle_well_formed(s: PipelineState, number: u64, max_trace: usize)
    requires
        pipeline_well_formed(s),
    ensures
        cycle_spec(s, number, max_trace) matches Ok(next) ==> pipeline_well_formed(next),
{
    if !s.halt_seen {
        lemma_decode_well_formed(memory_read(
            match s.ex_mem {
                Some(output) => match memory_stage_spec(output, s.memory) {
                    Ok((_, m)) => m,
                    Err(_) => s.memory,
                },
                None => s.memory,
            },
            s.pc,
        ));
    }
}

impl Core {
    #[verifier::rlimit(40)]
    fn cycle(&mut self, number: u64, max_trace: usize) -> (result: Result<(), PipelineError>)
        requires
            pipeline_well_formed(old(self).state()),
        ensures
            match cycle_spec(old(self).state(), number, max_trace) {
                Ok(next) => result is Ok && final(self).state() == next,
                Err(e) => result == Err::<(), PipelineError>(e),
            },
    {
        let ghost s = self.state();
        if let Some(write_back) = self.mem_wb {
            if let Some(destination) = write_back.destination {
                self.registers[destination as usize] = write_back.value;
            }
            self.retired = self.retired.saturating_add(1);
        }
        self.registers[0] = 0;
        assert(self.registers@ =~= write_back_spec(s));
        let next_mem_wb = match self.ex_mem {
            Some(output) => match memory_stage(output, &mut self.memory) {
                Ok(out) => Some(out),
                Err(e) => {
                    return Err(PipelineError::Execution(e));
                },
            },
            None => None,
        };
        let execution = match self.id_ex {
            Some(stage) => Some(execute_stage(stage, &self.registers, self.ex_mem, self.mem_wb)),
            None => None,
        };
        let next_ex_mem = match execution {
            Some(e) => Some(e.0),
            None => None,
        };
        let control = match execution {
            Some(e) => e.1,
            None => None,
        };
        let executing_halt = match self.id_ex {
            Some(stage) => matches!(stage.instruction, Instruction::Halt),
            None => false,
        };
        let load_stall = has_load_use_hazard(self.id_ex, self.if_id);
        let discarded: u64 = if self.if_id.is_some() {
            2
        } else {
            1
        };
        let mut event: Option<String> = None;
        let next_if_id: Option<StageInstruction>;
        let next_id_ex: Option<StageInstruction>;
        let fetched: Option<StageInstruction>;
        if executing_halt {
            self.halt_seen = true;
            self.flushes = self.flushes.saturating_add(discarded);
            event = Some("halt: younger instructions flushed".to_owned());
            next_if_id = None;
            next_id_ex = None;
            fetched = None;
        } else if let Some(target) = control {
            self.flushes = self.flushes.saturating_add(discarded);
            self.pc = target;
            event = Some(control_event_text(discarded));
            next_if_id = None;
            next_id_ex = None;
            fetched = None;
        } else if load_stall {
            self.stalls = self.stalls.saturating_add(1);
            event = Some("load-use interlock: inserted one bubble".to_owned());
            next_if_id = self.if_id;
            next_id_ex = None;
            fetched = None;
        } else if self.halt_seen {
            next_if_id = None;
            next_id_ex = None;
            fetched = None;
        } else {
            match ensure_aligned(self.pc, "instruction fetch") {
                Ok(_) => {},
                Err(e) => {
                    return Err(PipelineError::Execution(e));
                },
            }
            let word = memory_get(&self.memory, self.pc);
            let instruction = match Instruction::decode(word) {
                Ok(i) => i,
                Err(e) => {
                    return Err(PipelineError::Decode(e));
                },
            };
            let fetched_stage = StageInstruction { pc: self.pc, instruction };
            self.pc = self.pc.wrapping_add(4);
            next_if_id = Some(fetched_stage);
            next_id_ex = self.if_id;
            fetched = Some(fetched_stage);
        }
        if self.cycles.len() < max_trace {
            let row = PipelineCycle {
                cycle: number,
                fetch: optional_stage_label(fetched),
                decode: optional_stage_label(self.if_id),
                execute: optional_stage_label(self.id_ex),
                memory: match self.ex_mem {
                    Some(o) => Some(stage_label(o.stage)),
                    None => None,
                },
                write_back: match self.mem_wb {
                    Some(o) => Some(stage_label(o.stage)),
                    None => None,
                },
                event,
            };
            let ghost before = self.cycles@;
            self.cycles.push(row);
            assert(rows_view(self.cycles@) =~= rows_view(before).push(row@));
        }
        self.mem_wb = next_mem_wb;
        self.ex_mem = next_ex_mem;
        self.id_ex = next_id_ex;
        self.if_id = next_if_id;
        Ok(())
    }
}

impl Default for PipelineSimulator {
    /// The default bounds: at most 100,000 cycles, of which the first 2,000 are traced.
    fn default() -> (simulator: PipelineSimulator)
        ensures
            simulator.max_cycles == 100_000,
            simulator.max_trace_cycles == 2_000,
    {
        PipelineSimulator { max_cycles: 100_000, max_trace_cycles: 2_000 }
    }
}

/// The diagnostic text of a pipeline error.
pub open spec fn pipeline_error_text(error: PipelineError) -> Seq<char> {
    match error {
        PipelineError::Decode(e) => decode_error_text(e.word),
        PipelineError::Execution(e) => execution_error_text(e),
        PipelineError::CycleLimitExceeded { limit } => "pipeline exceeded the configured "@
            + decimal(limit as nat) + "-cycle limit"@,
    }
}

impl PipelineError {
    /// Renders the error, e.g. `pipeline exceeded the configured 4-cycle limit`.
    pub fn to_string(&self) -> (text: String)
        ensures
            text@ == pipeline_error_text(*self),
    {
        let mut out: Vec<char> = Vec::new();
        match self {
            PipelineError::Decode(e) => e.push_text(&mut out),
            PipelineError::Execution(e) => e.push_text(&mut out),
            PipelineError::CycleLimitExceeded { limit } => {
                push_str(&mut out, "pipeline exceeded the configured ");
                push_decimal(&mut out, *limit);
                push_str(&mut out, "-cycle limit");
            },
        }
        assert(out@ =~= pipeline_error_text(*self));
        chars_to_string(&out)
    }
}

impl From<DecodeError> for PipelineError {
    fn from(value: DecodeError) -> (error: PipelineError) {
        PipelineError::Decode(value)
    }
}

impl vstd::std_specs::convert::FromSpecImpl<DecodeError> for PipelineError {
    open spec fn obeys_from_spec() -> bool {
        true
    }

    open spec fn from_spec(value: DecodeError) -> PipelineError {
        PipelineError::Decode(value)
    }
}

impl From<ExecutionError> for PipelineError {
    fn from(value: ExecutionError) -> (error: PipelineError) {
        PipelineError::Execution(value)
    }
}

impl vstd::std_specs::convert::FromSpecImpl<ExecutionError> for PipelineError {
    open spec fn obeys_from_spec() -> bool {
        true
    }

    open spec fn from_spec(value: ExecutionError) -> PipelineError {
        PipelineError::Execution(value)
    }
}

impl PipelineSimulator {
    /// Runs the pipelined implementation of `program` and drains every latch after `halt`.
    pub fn run(self, program: &Program) -> (result: Result<PipelineResult, PipelineError>)
        requires
            program.words@.len() <= 0x4000_0000,
        ensures
            match pipeline_spec(program.words@, self.max_cycles, self.max_trace_cycles) {
                Ok(s) => result matches Ok(r) && r@ == result_of(s),
                Err(e) => result == Err::<PipelineResult, PipelineError>(e),
            },
    {
        let memory = load_words(&program.words);
        let mut core = Core {
            registers: [0u32; 32],
            memory,
            pc: 0,
            if_id: None,
            id_ex: None,
            ex_mem: None,
            mem_wb: None,
            halt_seen: false,
            retired: 0,
            stalls: 0,
            flushes: 0,
            cycles: Vec::new(),
        };
        let ghost words = program.words@;
        proof {
            assert(core.registers@ =~= Seq::new(32, |i: int| 0u32));
            assert(core.memory@ =~= program_memory(words));
            assert(rows_view(core.cycles@) =~= seq![]);
            assert(core.state() == initial_pipeline(words));
        }
        let max_cycles = self.max_cycles;
        let max_trace = self.max_trace_cycles;
        if max_cycles == 0 {
            return Err(PipelineError::CycleLimitExceeded { limit: max_cycles });
        }
        let mut number: u64 = 1;
        loop
            invariant_except_break
                1 <= number <= max_cycles,
                words == program.words@,
                max_cycles == self.max_cycles,
                max_trace == self.max_trace_cycles,
                pipeline_well_formed(core.state()),
                run_from(core.state(), number, max_cycles, max_trace) == pipeline_spec(
                    words,
                    max_cycles,
                    max_trace,
                ),
            ensures
                pipeline_spec(words, max_cycles, max_trace) == Err::<PipelineState, PipelineError>(
                    PipelineError::CycleLimitExceeded { limit: max_cycles },
                ),
            decreases max_cycles - number,
        {
            let ghost before = core.state();
            proof {
                lemma_cycle_well_formed(before, number, max_trace);
            }
            match core.cycle(number, max_trace) {
                Ok(_) => {},
                Err(e) => {
                    return Err(e);
                },
            }
            if core.halt_seen && core.if_id.is_none() && core.id_ex.is_none()
                && core.ex_mem.is_none() && core.mem_wb.is_none() {
                let result = PipelineResult {
                    registers: core.registers,
                    memory: core.memory,
                    final_pc: core.pc,
                    retired: core.retired,
                    stalls: core.stalls,
                    flushes: core.flushes,
                    cycles: core.cycles,
                };
                proof {
                    assert(result@.cycles =~= rows_view(result.cycles@));
                }
                return Ok(result);
            }
            if number == max_cycles {
                proof {
                    if number < u64::MAX {
                        assert(run_from(core.state(), (number + 1) as u64, max_cycles, max_trace)
                            == Err::<PipelineState, PipelineError>(
                            PipelineError::CycleLimitExceeded { limit: max_cycles },
                        ));
                    }
                }
                break;
            }
            number = number + 1;
        }
        Err(PipelineError::CycleLimitExceeded { limit: max_cycles })
    }
}

/// A character in Unicode's control category (C0 and C1 controls).
pub open spec fn is_control(c: char) -> bool {
    (c as u32) < 0x20 || (0x7f <= (c as u32) && (c as u32) <= 0x9f)
}

/// A character as it appears inside a JSON string.
pub open spec fn json_char(c: char) -> Seq<char> {
    if c == '"' {
        seq!['\\', '"']
    } else if c == '\\' {
        seq!['\\', '\\']
    } else if c == '\n' {
        seq!['\\', 'n']
    } else if c == '\r' {
        seq!['\\', 'r']
    } else if c == '\t' {
        seq!['\\', 't']
    } else if is_control(c) {
        seq!['\\', 'u'] + hex_digits(c as nat, 4)
    } else {
        seq![c]
    }
}

/// The JSON-escaped body of a string.
pub open spec fn json_escaped(text: Seq<char>) -> Seq<char>
    decreases text.len(),
{
    if text.len() == 0 {
        seq![]
    } else {
        json_escaped(text.drop_last()) + json_char(text.last())
    }
}

/// `,"key":` followed by `null` or the quoted, escaped value.
pub open spec fn json_field(key: Seq<char>, value: Option<Seq<char>>) -> Seq<char> {
    ",\""@ + key + "\":"@ + match value {
        Some(text) => "\""@ + json_escaped(text) + "\""@,
        None => "null"@,
    }
}

/// The JSON object of one trace row.
pub open spec fn row_json(row: CycleView) -> Seq<char> {
    "{\"cycle\":"@ + decimal(row.cycle as nat) + json_field("fetch"@, row.fetch) + json_field(
        "decode"@,
        row.decode,
    ) + json_field("execute"@, row.execute) + json_field("memory"@, row.memory) + json_field(
        "writeBack"@,
        row.write_back,
    ) + json_field("event"@, row.event) + "}"@
}

/// Trace rows separated by commas.
pub open spec fn rows_json(rows: Seq<CycleView>) -> Seq<char>
    decreases rows.len(),
{
    if rows.len() == 0 {
        seq![]
    } else if rows.len() == 1 {
        row_json(rows[0])
    } else {
        rows_json(rows.drop_last()) + ","@ + row_json(rows.last())
    }
}

/// Register values in decimal, separated by commas.
pub open spec fn registers_json(registers: Seq<u32>) -> Seq<char>
    decreases registers.len(),
{
    if registers.len() == 0 {
        seq![]
    } else if registers.len() == 1 {
        decimal(registers[0] as nat)
    } else {
        registers_json(registers.drop_last()) + ","@ + decimal(registers.last() as nat)
    }
}

/// The schema-version-1 trace document, with `cpi` already rendered as text.
pub open spec fn trace_json(r: ResultView, cpi: Seq<char>) -> Seq<char> {
    "{\"schemaVersion\":1,\"summary\":{\"cycles\":"@ + decimal(r.cycles.len()) + ",\"retired\":"@
        + decimal(r.retired as nat) + ",\"stalls\":"@ + decimal(r.stalls as nat) + ",\"flushes\":"@
        + decimal(r.flushes as nat) + ",\"cpi\":"@ + cpi + ",\"finalPc\":"@ + decimal(
        r.final_pc as nat,
    ) + "},\"cycles\":["@ + rows_json(r.cycles) + "],\"registers\":["@ + registers_json(
        r.registers,
    ) + "]}"@
}

fn push_json_char(out: &mut Vec<char>, c: char)
    ensures
        final(out)@ == old(out)@ + json_char(c),
{
    if c == '"' {
        push_str(out, "\\\"");
    } else if c == '\\' {
        push_str(out, "\\\\");
    } else if c == '\n' {
        push_str(out, "\\n");
    } else if c == '\r' {
        push_str(out, "\\r");
    } else if c == '\t' {
        push_str(out, "\\t");
    } else if (c as u32) < 0x20 || (0x7f <= (c as u32) && (c as u32) <= 0x9f) {
        push_str(out, "\\u");
        push_hex(out, c as u32 as u64, 4);
    } else {
        out.push(c);
    }
    proof {
        reveal_strlit("\\\"");
        reveal_strlit("\\\\");
        reveal_strlit("\\n");
        reveal_strlit("\\r");
        reveal_strlit("\\t");
        reveal_strlit("\\u");
    }
    assert(out@ =~= old(out)@ + json_char(c));
}

fn push_json_field(out: &mut Vec<char>, key: &str, value: &Option<String>)
    ensures
        final(out)@ == old(out)@ + json_field(key@, option_text(*value)),
{
    push_str(out, ",\"");
    push_str(out, key);
    push_str(out, "\":");
    match value {
        Some(text) => {
            push_str(out, "\"");
            let ghost start = out@;
            let ghost chars = text@;
            let mut done: Vec<char> = Vec::new();
            for c in it: text.as_str().chars()
                invariant
                    it.seq() == chars,
                    done@ == chars.take(it.index() as int),
                    out@ == start + json_escaped(done@),
            {
                push_json_char(out, c);
                let ghost prev = done@;
                done.push(c);
                assert(done@.drop_last() =~= prev);
            }
            assert(done@ =~= chars);
            push_str(out, "\"");
        },
        None => push_str(out, "null"),
    }
    assert(out@ =~= old(out)@ + json_field(key@, option_text(*value)));
}

fn push_row_json(out: &mut Vec<char>, row: &PipelineCycle)
    ensures
        final(out)@ == old(out)@ + row_json(row@),
{
    push_str(out, "{\"cycle\":");
    push_decimal(out, row.cycle);
    push_json_field(out, "fetch", &row.fetch);
    push_json_field(out, "decode", &row.decode);
    push_json_field(out, "execute", &row.execute);
    push_json_field(out, "memory", &row.memory);
    push_json_field(out, "writeBack", &row.write_back);
    push_json_field(out, "event", &row.event);
    push_str(out, "}");
    assert(out@ =~= old(out)@ + row_json(row@));
}

impl PipelineResult {
    /// Serializes the summary, the retained trace and the registers as schema-version-1 JSON.
    /// `cpi` is the cycles-per-instruction figure, already rendered as text by the caller.
    pub fn to_json(&self, cpi: &str) -> (json: String)
        ensures
            json@ == trace_json(self@, cpi@),
    {
        let mut out: Vec<char> = Vec::new();
        push_str(&mut out, "{\"schemaVersion\":1,\"summary\":{\"cycles\":");
        push_decimal(&mut out, self.cycles.len() as u64);
        push_str(&mut out, ",\"retired\":");
        push_decimal(&mut out, self.retired);
        push_str(&mut out, ",\"stalls\":");
        push_decimal(&mut out, self.stalls);
        push_str(&mut out, ",\"flushes\":");
        push_decimal(&mut out, self.flushes);
        push_str(&mut out, ",\"cpi\":");
        push_str(&mut out, cpi);
        push_str(&mut out, ",\"finalPc\":");
        push_decimal(&mut out, self.final_pc as u64);
        push_str(&mut out, "},\"cycles\":[");
        let ghost header = out@;
        let ghost rows = self@.cycles;
        let n = self.cycles.len();
        let mut i: usize = 0;
        while i < n
            invariant
                n == rows.len(),
                n == self.cycles@.len(),
                rows == self@.cycles,
                i <= n,
                out@ == header + rows_json(rows.take(i as int)),
            decreases n - i,
        {
            if i != 0 {
                out.push(',');
            }
            push_row_json(&mut out, &self.cycles[i]);
            proof {
                assert(rows.take(i + 1).drop_last() =~= rows.take(i as int));
                assert(rows.take(i + 1).last() == rows[i as int]);
                reveal_strlit(",");
                assert(rows[i as int] == self.cycles@[i as int]@);
                if i == 0 {
                    assert(rows.take(1) =~= seq![rows[0]]);
                    assert(out@ =~= header + rows_json(rows.take(i + 1)));
                } else {
                    assert(out@ =~= header + rows_json(rows.take(i + 1)));
                }
            }
            i = i + 1;
        }
        assert(rows.take(n as int) =~= rows);
        push_str(&mut out, "],\"registers\":[");
        let ghost middle = out@;
        let ghost regs = self@.registers;
        let mut k: usize = 0;
        while k < 32
            invariant
                regs == self.registers@,
                regs.len() == 32,
                k <= 32,
                out@ == middle + registers_json(regs.take(k as int)),
            decreases 32 - k,
        {
            if k != 0 {
                out.push(',');
            }
            push_decimal(&mut out, self.registers[k] as u64);
            proof {
                assert(regs.take(k + 1).drop_last() =~= regs.take(k as int));
                assert(regs.take(k + 1).last() == regs[k as int]);
                reveal_strlit(",");
                if k == 0 {
                    assert(regs.take(1) =~= seq![regs[0]]);
                    assert(out@ =~= middle + registers_json(regs.take(k + 1)));
                } else {
                    assert(out@ =~= middle + registers_json(regs.take(k + 1)));
                }
            }
            k = k + 1;
        }
        assert(regs.take(32) =~= regs);
        push_str(&mut out, "]}");
        assert(out@ =~= trace_json(self@, cpi@));
        chars_to_string(&out)
    }
}

} // verus!
