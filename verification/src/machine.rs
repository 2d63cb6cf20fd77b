//! The sequential reference interpreter: one architectural state transition per instruction.

use vstd::prelude::*;
use std::collections::BTreeMap;
use crate::assembler::Program;
use crate::isa::{decode_error_text, decode_spec, lemma_decode_well_formed, DecodeError, Instruction};
use crate::text::{chars_to_string, decimal, hex_digits, push_decimal, push_hex, push_str};

verus! {

broadcast use vstd::std_specs::btree::group_btree_axioms;

/// Final execution metrics for a bounded interpreter run.
#[derive(Clone, Copy, Debug, PartialEq, Eq, Structural)]
pub struct RunSummary {
    pub retired: u64,
    pub final_pc: u32,
}

/// Deterministic failures that can occur while fetching or executing a program.
#[derive(Clone, Copy, Debug, PartialEq, Eq)]
pub enum ExecutionError {
    Decode(DecodeError),
    MisalignedAddress { address: u32, operation: &'static str },
    StepLimitExceeded { limit: u64 },
}

/// The diagnostic text of an execution error.
pub open spec fn execution_error_text(error: ExecutionError) -> Seq<char> {
    match error {
        ExecutionError::Decode(e) => decode_error_text(e.word),
        ExecutionError::MisalignedAddress { address, operation } => operation@ + " address 0x"@
            + hex_digits(address as nat, 8) + " is not word-aligned"@,
        ExecutionError::StepLimitExceeded { limit } => "execution exceeded the configured "@
            + decimal(limit as nat) + "-step limit"@,
    }
}

impl ExecutionError {
    /// Renders the error, e.g. `load address 0x00000003 is not word-aligned`.
    pub fn to_string(&self) -> (text: String)
        ensures
            text@ == execution_error_text(*self),
    {
        let mut out: Vec<char> = Vec::new();
        self.push_text(&mut out);
        chars_to_string(&out)
    }

    /// Appends the diagnostic text.
    pub fn push_text(&self, out: &mut Vec<char>)
        ensures
            final(out)@ == old(out)@ + execution_error_text(*self),
    {
        match self {
            ExecutionError::Decode(e) => e.push_text(out),
            ExecutionError::MisalignedAddress { address, operation } => {
                push_str(out, operation);
                push_str(out, " address 0x");
                push_hex(out, *address as u64, 8);
                push_str(out, " is not word-aligned");
            },
            ExecutionError::StepLimitExceeded { limit } => {
                push_str(out, "execution exceeded the configured ");
                push_decimal(out, *limit);
                push_str(out, "-step limit");
            },
        }
        assert(out@ =~= old(out)@ + execution_error_text(*self));
    }
}

impl From<DecodeError> for ExecutionError {
    fn from(value: DecodeError) -> (error: ExecutionError) {
        ExecutionError::Decode(value)
    }
}

impl vstd::std_specs::convert::FromSpecImpl<DecodeError> for ExecutionError {
    open spec fn obeys_from_spec() -> bool {
        true
    }

    open spec fn from_spec(value: DecodeError) -> ExecutionError {
        ExecutionError::Decode(value)
    }
}

/// The architectural state of a `Machine`.
pub struct MachineState {
    pub registers: Seq<u32>,
    pub memory: Map<u32, u32>,
    pub pc: u32,
    pub halted: bool,
    pub retired: u64,
}

/// A 32-bit word-addressed reference machine with wrapping unsigned arithmetic.
#[derive(Debug, PartialEq, Eq)]
pub struct Machine {
    registers: [u32; 32],
    memory: BTreeMap<u32, u32>,
    pc: u32,
    halted: bool,
    retired: u64,
}

impl Machine {
    /// Register zero of every machine reads as zero.
    #[verifier::type_invariant]
    spec fn zero_register_is_zero(self) -> bool {
        self.registers@[0] == 0
    }
}

impl Clone for Machine {
    /// An identical, independent machine.
    fn clone(&self) -> (copy: Machine)
        ensures
            copy@ == self@,
    {
        proof {
            use_type_invariant(self);
        }
        Machine {
            registers: self.registers,
            memory: self.memory.clone(),
            pc: self.pc,
            halted: self.halted,
            retired: self.retired,
        }
    }
}

impl View for Machine {
    type V = MachineState;

    closed spec fn view(&self) -> MachineState {
        MachineState {
            registers: self.registers@,
            memory: self.memory@,
            pc: self.pc,
            halted: self.halted,
            retired: self.retired,
        }
    }
}

/// The word at `address` in a sparse memory; absent words read as zero.
pub open spec fn memory_read(memory: Map<u32, u32>, address: u32) -> u32 {
    if memory.contains_key(address) {
        memory[address]
    } else {
        0
    }
}

/// Register `index`; indexes outside the register file read as zero.
pub open spec fn register_read(registers: Seq<u32>, index: u8) -> u32 {
    if index < 32 {
        registers[index as int]
    } else {
        0
    }
}

/// Writes register `index`; writes to register zero or outside the file are ignored.
pub open spec fn register_write(registers: Seq<u32>, index: u8, value: u32) -> Seq<u32> {
    if index != 0 && index < 32 {
        registers.update(index as int, value)
    } else {
        registers
    }
}

/// `base + offset` with the 16-bit offset sign-extended, modulo 2^32.
pub open spec fn add_signed_spec(base: u32, offset: i16) -> u32 {
    ((base as int + offset as int) % 0x1_0000_0000) as u32
}

/// The target of a taken branch: `sequential_pc + 4 * offset`, modulo 2^32.
pub open spec fn branch_target_spec(sequential_pc: u32, offset: i16) -> u32 {
    ((sequential_pc as int + 4 * (offset as int)) % 0x1_0000_0000) as u32
}

/// The target of a jump: the region bits of `sequential_pc` with the word target below them.
pub open spec fn jump_target_spec(sequential_pc: u32, target: u32) -> u32 {
    (sequential_pc & 0xf000_0000) | (target << 2u32)
}

/// The address of the next sequential instruction.
pub open spec fn next_pc_spec(pc: u32) -> u32 {
    ((pc as int + 4) % 0x1_0000_0000) as u32
}

/// The value `slt` writes: 1 when `a < b` as signed 32-bit integers.
pub open spec fn set_less_than_spec(a: u32, b: u32) -> u32 {
    if (a as i32) < (b as i32) {
        1
    } else {
        0
    }
}

/// The error for an unaligned access, or nothing when `address` is a multiple of four.
pub open spec fn alignment_spec(address: u32, operation: &'static str) -> Result<(), ExecutionError> {
    if address % 4 == 0 {
        Ok(())
    } else {
        Err(ExecutionError::MisalignedAddress { address, operation })
    }
}

/// A well-formed machine state has 32 registers and register zero reads as zero.
pub open spec fn state_well_formed(s: MachineState) -> bool {
    &&& s.registers.len() == 32
    &&& s.registers[0] == 0
}

/// The state after a completed instruction: new registers and pc, register zero cleared, one
/// more instruction retired.
pub open spec fn retire_spec(s: MachineState, registers: Seq<u32>, memory: Map<u32, u32>, pc: u32, halted: bool) -> MachineState {
    MachineState {
        registers: registers.update(0, 0),
        memory,
        pc,
        halted,
        retired: if s.retired == u64::MAX { u64::MAX } else { (s.retired + 1) as u64 },
    }
}

/// Executes an already fetched and decoded instruction.
pub open spec fn execute_spec(s: MachineState, instruction: Instruction) -> Result<MachineState, ExecutionError> {
    let regs = s.registers;
    let seq_pc = next_pc_spec(s.pc);
    match instruction {
        Instruction::Nop => Ok(retire_spec(s, regs, s.memory, seq_pc, s.halted)),
        Instruction::Addu { rd, rs, rt } => Ok(retire_spec(s, register_write(regs, rd,
            ((register_read(regs, rs) as int + register_read(regs, rt) as int) % 0x1_0000_0000) as u32),
            s.memory, seq_pc, s.halted)),
        Instruction::Subu { rd, rs, rt } => Ok(retire_spec(s, register_write(regs, rd,
            ((register_read(regs, rs) as int - register_read(regs, rt) as int + 0x1_0000_0000) % 0x1_0000_0000) as u32),
            s.memory, seq_pc, s.halted)),
        Instruction::And { rd, rs, rt } => Ok(retire_spec(s, register_write(regs, rd,
            register_read(regs, rs) & register_read(regs, rt)), s.memory, seq_pc, s.halted)),
        Instruction::Or { rd, rs, rt } => Ok(retire_spec(s, register_write(regs, rd,
            register_read(regs, rs) | register_read(regs, rt)), s.memory, seq_pc, s.halted)),
        Instruction::Slt { rd, rs, rt } => Ok(retire_spec(s, register_write(regs, rd,
            set_less_than_spec(register_read(regs, rs), register_read(regs, rt))), s.memory, seq_pc, s.halted)),
        Instruction::Sll { rd, rt, shamt } => Ok(retire_spec(s, register_write(regs, rd,
            register_read(regs, rt) << (shamt as u32)), s.memory, seq_pc, s.halted)),
        Instruction::Addiu { rt, rs, immediate } => Ok(retire_spec(s, register_write(regs, rt,
            add_signed_spec(register_read(regs, rs), immediate)), s.memory, seq_pc, s.halted)),
        Instruction::Lw { rt, base, offset } => {
            let address = add_signed_spec(register_read(regs, base), offset);
            match alignment_spec(address, "load") {
                Err(e) => Err(e),
                Ok(_) => Ok(retire_spec(s, register_write(regs, rt, memory_read(s.memory, address)),
                    s.memory, seq_pc, s.halted)),
            }
        },
        Instruction::Sw { rt, base, offset } => {
            let address = add_signed_spec(register_read(regs, base), offset);
            match alignment_spec(address, "store") {
                Err(e) => Err(e),
                Ok(_) => Ok(retire_spec(s, regs, s.memory.insert(address, register_read(regs, rt)),
                    seq_pc, s.halted)),
            }
        },
        Instruction::Beq { rs, rt, offset } => Ok(retire_spec(s, regs, s.memory,
            if register_read(regs, rs) == register_read(regs, rt) { branch_target_spec(seq_pc, offset) } else { seq_pc },
            s.halted)),
        Instruction::Bne { rs, rt, offset } => Ok(retire_spec(s, regs, s.memory,
            if register_read(regs, rs) != register_read(regs, rt) { branch_target_spec(seq_pc, offset) } else { seq_pc },
            s.halted)),
        Instruction::J { target } => Ok(retire_spec(s, regs, s.memory, jump_target_spec(seq_pc, target), s.halted)),
        Instruction::Halt => Ok(retire_spec(s, regs, s.memory, seq_pc, true)),
    }
}

/// One fetch-decode-execute step: the new state and the executed instruction, or the error
/// that stopped it (the state is then unchanged).
pub open spec fn step_spec(s: MachineState) -> Result<(MachineState, Instruction), ExecutionError> {
    match alignment_spec(s.pc, "instruction fetch") {
        Err(e) => Err(e),
        Ok(_) => match decode_spec(memory_read(s.memory, s.pc)) {
            Err(e) => Err(ExecutionError::Decode(e)),
            Ok(instruction) => match execute_spec(s, instruction) {
                Err(e) => Err(e),
                Ok(next) => Ok((next, instruction)),
            },
        },
    }
}

/// Runs until `halt` or until `max_steps` instructions have retired: the final state and the
/// outcome.
pub open spec fn run_spec(s: MachineState, max_steps: u64) -> (MachineState, Result<RunSummary, ExecutionError>)
    decreases max_steps - s.retired,
{
    if s.halted {
        (s, Ok(RunSummary { retired: s.retired, final_pc: s.pc }))
    } else if s.retired >= max_steps {
        (s, Err(ExecutionError::StepLimitExceeded { limit: max_steps }))
    } else {
        match step_spec(s) {
            Err(e) => (s, Err(e)),
            Ok((next, _)) => run_spec(next, max_steps),
        }
    }
}

/// The memory image of a program: word `i` at byte address `4 * i`.
pub open spec fn program_memory(words: Seq<u32>) -> Map<u32, u32> {
    Map::new(|a: u32| a % 4 == 0 && (a as int) / 4 < words.len(), |a: u32| words[(a as int) / 4])
}

/// The state in which a program starts: all registers zero, pc zero, nothing retired.
pub open spec fn initial_state(words: Seq<u32>) -> MachineState {
    MachineState {
        registers: Seq::new(32, |i: int| 0u32),
        memory: program_memory(words),
        pc: 0,
        halted: false,
        retired: 0,
    }
}

/// A program starts in a well-formed state.
pub proof fn lemma_initial_state_well_formed(words: Seq<u32>)
    ensures
        state_well_formed(initial_state(words)),
{
}

/// Register zero reads as zero after every step: a successful step from a well-formed state
/// leads to a well-formed state.
pub proof fn lemma_step_keeps_zero_register(s: MachineState)
    requires
        state_well_formed(s),
    ensures
        step_spec(s) matches Ok((next, _)) ==> state_well_formed(next),
{
}

/// A bounded run keeps register zero at zero, stops only at `halt` when it succeeds, never
/// retires more than the bound, and stops at the bound exactly when it has reached it.
pub proof fn lemma_run_bounded(s: MachineState, max_steps: u64)
    requires
        state_well_formed(s),
        s.retired <= max_steps,
    ensures
        state_well_formed(run_spec(s, max_steps).0),
        run_spec(s, max_steps).0.retired <= max_steps,
        run_spec(s, max_steps).1 matches Ok(summary) ==> run_spec(s, max_steps).0.halted
            && summary.retired == run_spec(s, max_steps).0.retired && summary.final_pc
            == run_spec(s, max_steps).0.pc,
        run_spec(s, max_steps).1 == Err::<RunSummary, ExecutionError>(
            ExecutionError::StepLimitExceeded { limit: max_steps },
        ) ==> run_spec(s, max_steps).0.retired == max_steps,
    decreases max_steps - s.retired,
{
    if !s.halted && s.retired < max_steps {
        if let Ok((next, _)) = step_spec(s) {
            lemma_step_keeps_zero_register(s);
            lemma_run_bounded(next, max_steps);
        }
    }
}

/// A 32-bit word read as a two's-complement signed integer.
pub open spec fn signed_value(word: u32) -> int {
    if word < 0x8000_0000 {
        word as int
    } else {
        word as int - 0x1_0000_0000
    }
}

/// `slt` compares as signed integers: its result is 1 exactly when the signed value of `a` is
/// below that of `b`, and 0 otherwise (also when they are equal).
pub proof fn lemma_set_less_than(a: u32, b: u32)
    ensures
        set_less_than_spec(a, b) == (if signed_value(a) < signed_value(b) {
            1u32
        } else {
            0u32
        }),
{
    assert((a as i32) as int == signed_value(a) && (b as i32) as int == signed_value(b)) by (bit_vector);
}

/// The address `base + offset` (a signed 16-bit offset), modulo 2^32.
pub open spec fn offset_address(base: u32, offset: i16) -> int {
    (base as int + offset as int + 0x1_0000_0000) % 0x1_0000_0000
}

/// The register an instruction writes and the value it writes there, computed from the
/// registers and memory before it.
pub open spec fn written_register(regs: Seq<u32>, memory: Map<u32, u32>, instruction: Instruction) -> Option<
    (u8, int),
> {
    match instruction {
        Instruction::Addu { rd, rs, rt } => Some(
            (rd, (regs[rs as int] + regs[rt as int]) % 0x1_0000_0000),
        ),
        Instruction::Subu { rd, rs, rt } => Some(
            (rd, (regs[rs as int] - regs[rt as int] + 0x1_0000_0000) % 0x1_0000_0000),
        ),
        Instruction::And { rd, rs, rt } => Some((rd, (regs[rs as int] & regs[rt as int]) as int)),
        Instruction::Or { rd, rs, rt } => Some((rd, (regs[rs as int] | regs[rt as int]) as int)),
        Instruction::Slt { rd, rs, rt } => Some(
            (rd, if signed_value(regs[rs as int]) < signed_value(regs[rt as int]) {
                1int
            } else {
                0int
            }),
        ),
        Instruction::Sll { rd, rt, shamt } => Some((rd, (regs[rt as int] << (shamt as u32)) as int)),
        Instruction::Addiu { rt, rs, immediate } => Some(
            (rt, offset_address(regs[rs as int], immediate)),
        ),
        Instruction::Lw { rt, base, offset } => Some(
            (rt, memory_read(memory, offset_address(regs[base as int], offset) as u32) as int),
        ),
        _ => None,
    }
}

/// The registers after an instruction that writes `written`: register zero stays zero, the
/// written register (other than zero) takes the value, every other register keeps its own.
pub open spec fn registers_updated(before: Seq<u32>, after: Seq<u32>, written: Option<(u8, int)>) -> bool {
    &&& after.len() == 32
    &&& after[0] == 0
    &&& forall|r: int|
        1 <= r < 32 ==> #[trigger] after[r] == match written {
            Some((d, value)) => if d == r {
                value
            } else {
                before[r] as int
            },
            None => before[r] as int,
        }
}

/// The address after an instruction at `pc`: the next word, a taken branch's target four
/// times its offset words beyond the next word, or a jump's target word in the region of the
/// next word.
pub open spec fn following_pc(pc: u32, regs: Seq<u32>, instruction: Instruction) -> int {
    let sequential = (pc as int + 4) % 0x1_0000_0000;
    match instruction {
        Instruction::Beq { rs, rt, offset } => if regs[rs as int] == regs[rt as int] {
            (sequential + 4 * offset as int + 0x4_0000_0000) % 0x1_0000_0000
        } else {
            sequential
        },
        Instruction::Bne { rs, rt, offset } => if regs[rs as int] != regs[rt as int] {
            (sequential + 4 * offset as int + 0x4_0000_0000) % 0x1_0000_0000
        } else {
            sequential
        },
        Instruction::J { target } => sequential / 0x1000_0000 * 0x1000_0000 + target * 4,
        _ => sequential,
    }
}

#[verifier::spinoff_prover]
proof fn lemma_step_registers(s: MachineState)
    requires
        state_well_formed(s),
    ensures
        step_spec(s) matches Ok((next, instruction)) ==> registers_updated(
            s.registers,
            next.registers,
            written_register(s.registers, s.memory, instruction),
        ),
{
    if let Ok((next, instruction)) = step_spec(s) {
        lemma_decode_well_formed(memory_read(s.memory, s.pc));
        let regs = s.registers;
        let written = written_register(regs, s.memory, instruction);
        match instruction {
            Instruction::Slt { rs, rt, .. } => {
                lemma_set_less_than(regs[rs as int], regs[rt as int]);
            },
            Instruction::Lw { base, offset, .. } => {
                assert(add_signed_spec(regs[base as int], offset) == offset_address(regs[base as int], offset) as u32);
            },
            Instruction::Addiu { rs, immediate, .. } => {
                assert(add_signed_spec(regs[rs as int], immediate) as int == offset_address(regs[rs as int], immediate));
            },
            _ => {},
        }
        assert forall|r: int| 1 <= r < 32 implies #[trigger] next.registers[r] == match written {
            Some((d, value)) => if d == r {
                value
            } else {
                regs[r] as int
            },
            None => regs[r] as int,
        } by {}
    }
}

#[verifier::spinoff_prover]
proof fn lemma_step_pc(s: MachineState)
    requires
        state_well_formed(s),
    ensures
        step_spec(s) matches Ok((next, instruction)) ==> next.pc as int == following_pc(
            s.pc,
            s.registers,
            instruction,
        ),
{
    if let Ok((next, instruction)) = step_spec(s) {
        lemma_decode_well_formed(memory_read(s.memory, s.pc));
        if let Instruction::J { target } = instruction {
            let seq = next_pc_spec(s.pc);
            assert(((seq & 0xf000_0000u32) | (target << 2u32)) as int == seq / 0x1000_0000
                * 0x1000_0000 + target * 4) by (bit_vector)
                requires
                    target < 0x0400_0000u32,
            ;
        }
    }
}

/// When a step fails: the pc is not a multiple of four, the word there decodes to nothing,
/// or a load or store addresses a word that is not a multiple of four. Nothing else fails.
pub proof fn lemma_step_failure(s: MachineState)
    requires
        state_well_formed(s),
    ensures
        step_spec(s) is Err <==> {
            ||| s.pc % 4 != 0
            ||| decode_spec(memory_read(s.memory, s.pc)) is Err
            ||| (decode_spec(memory_read(s.memory, s.pc)) matches Ok(instruction) && match instruction {
                Instruction::Lw { base, offset, .. } | Instruction::Sw { base, offset, .. } => offset_address(
                    s.registers[base as int],
                    offset,
                ) % 4 != 0,
                _ => false,
            })
        },
{
    if s.pc % 4 == 0 {
        lemma_decode_well_formed(memory_read(s.memory, s.pc));
        if let Ok(instruction) = decode_spec(memory_read(s.memory, s.pc)) {
            match instruction {
                Instruction::Lw { base, offset, .. } | Instruction::Sw { base, offset, .. } => {
                    assert(add_signed_spec(s.registers[base as int], offset) as int == offset_address(
                        s.registers[base as int],
                        offset,
                    ));
                },
                _ => {},
            }
        }
    }
}

/// What one successful step does, instruction by instruction, in terms of the state it starts
/// from: the register an instruction writes and its value (`written_register`; every other
/// register keeps its value and register zero stays zero), the word a store writes, the next
/// pc (`following_pc`), `halt`, and one more instruction retired.
pub proof fn lemma_step_effect(s: MachineState)
    requires
        state_well_formed(s),
    ensures
        step_spec(s) matches Ok((next, instruction)) ==> {
            &&& registers_updated(
                s.registers,
                next.registers,
                written_register(s.registers, s.memory, instruction),
            )
            &&& next.memory == match instruction {
                Instruction::Sw { rt, base, offset } => s.memory.insert(
                    offset_address(s.registers[base as int], offset) as u32,
                    s.registers[rt as int],
                ),
                _ => s.memory,
            }
            &&& next.pc as int == following_pc(s.pc, s.registers, instruction)
            &&& next.halted == (s.halted || instruction is Halt)
            &&& next.retired == (if s.retired == u64::MAX {
                u64::MAX as int
            } else {
                s.retired + 1
            })
        },
{
    lemma_step_registers(s);
    lemma_step_pc(s);
    if let Ok((next, instruction)) = step_spec(s) {
        lemma_decode_well_formed(memory_read(s.memory, s.pc));
        if let Instruction::Sw { base, offset, .. } = instruction {
            assert(add_signed_spec(s.registers[base as int], offset) == offset_address(
                s.registers[base as int],
                offset,
            ) as u32);
        }
    }
}

pub(crate) fn add_signed(base: u32, offset: i16) -> (sum: u32)
    ensures
        sum == add_signed_spec(base, offset),
{
    base.wrapping_add_signed(offset as i32)
}

pub(crate) fn branch_target(sequential_pc: u32, offset: i16) -> (target: u32)
    ensures
        target == branch_target_spec(sequential_pc, offset),
{
    if offset >= 0 {
        sequential_pc.wrapping_add((offset as u32) * 4)
    } else {
        sequential_pc.wrapping_sub(((0i32 - offset as i32) as u32) * 4)
    }
}

pub(crate) fn ensure_aligned(address: u32, operation: &'static str) -> (result: Result<(), ExecutionError>)
    ensures
        result == alignment_spec(address, operation),
{
    if address % 4 == 0 {
        Ok(())
    } else {
        Err(ExecutionError::MisalignedAddress { address, operation })
    }
}

/// The memory image of `words`: word `i` at byte address `4 * i`.
pub(crate) fn load_words(words: &Vec<u32>) -> (memory: BTreeMap<u32, u32>)
    requires
        words@.len() <= 0x4000_0000,
    ensures
        memory@ == program_memory(words@),
{
    let mut memory: BTreeMap<u32, u32> = BTreeMap::new();
    let n = words.len();
    let mut i: usize = 0;
    while i < n
        invariant
            n == words@.len(),
            n <= 0x4000_0000,
            i <= n,
            memory@ == Map::new(
                |a: u32| a % 4 == 0 && (a as int) / 4 < i,
                |a: u32| words@[(a as int) / 4],
            ),
        decreases n - i,
    {
        let address: u32 = (i as u32) * 4;
        memory.insert(address, words[i]);
        i = i + 1;
        assert(memory@ =~= Map::new(
            |a: u32| a % 4 == 0 && (a as int) / 4 < i,
            |a: u32| words@[(a as int) / 4],
        ));
    }
    assert(memory@ =~= program_memory(words@));
    memory
}

/// The word at `address`, zero when none was written.
pub(crate) fn memory_get(memory: &BTreeMap<u32, u32>, address: u32) -> (value: u32)
    ensures
        value == memory_read(memory@, address),
{
    match memory.get(&address) {
        Some(v) => *v,
        None => 0,
    }
}

impl Machine {
    /// Loads machine words beginning at address zero and resets all architectural state.
    pub fn from_program(program: &Program) -> (machine: Machine)
        requires
            program.words@.len() <= 0x4000_0000,
        ensures
            machine@ == initial_state(program.words@),
    {
        let memory = load_words(&program.words);
        let registers = [0u32; 32];
        assert(registers@ =~= Seq::new(32, |i: int| 0u32));
        Machine { registers, memory, pc: 0, halted: false, retired: 0 }
    }

    /// Executes one instruction and returns it. On an error (an unknown word, or an unaligned
    /// fetch, load or store) the machine is left unchanged.
    pub fn step(&mut self) -> (result: Result<Instruction, ExecutionError>)
        ensures
            match step_spec(old(self)@) {
                Ok((next, instruction)) => result == Ok::<Instruction, ExecutionError>(instruction)
                    && final(self)@ == next,
                Err(e) => result == Err::<Instruction, ExecutionError>(e) && final(self)@ == old(
                    self,
                )@,
            },
    {
        proof {
            use_type_invariant(&*self);
        }
        ensure_aligned(self.pc, "instruction fetch")?;
        let word = memory_get(&self.memory, self.pc);
        let instruction = match Instruction::decode(word) {
            Ok(instruction) => instruction,
            Err(e) => return Err(ExecutionError::Decode(e)),
        };
        proof {
            lemma_decode_well_formed(word);
        }
        let sequential_pc = self.pc.wrapping_add(4);
        let mut next_pc = sequential_pc;
        match instruction {
            Instruction::Nop => {},
            Instruction::Addu { rd, rs, rt } => {
                let value = self.read_register(rs).wrapping_add(self.read_register(rt));
                self.write_register(rd, value);
            },
            Instruction::Subu { rd, rs, rt } => {
                let value = self.read_register(rs).wrapping_sub(self.read_register(rt));
                self.write_register(rd, value);
            },
            Instruction::And { rd, rs, rt } => {
                let value = self.read_register(rs) & self.read_register(rt);
                self.write_register(rd, value);
            },
            Instruction::Or { rd, rs, rt } => {
                let value = self.read_register(rs) | self.read_register(rt);
                self.write_register(rd, value);
            },
            Instruction::Slt { rd, rs, rt } => {
                let value: u32 = if (self.read_register(rs) as i32) < (self.read_register(rt) as i32) {
                    1
                } else {
                    0
                };
                self.write_register(rd, value);
            },
            Instruction::Sll { rd, rt, shamt } => {
                let value = self.read_register(rt) << (shamt as u32);
                self.write_register(rd, value);
            },
            Instruction::Addiu { rt, rs, immediate } => {
                let value = add_signed(self.read_register(rs), immediate);
                self.write_register(rt, value);
            },
            Instruction::Lw { rt, base, offset } => {
                let address = add_signed(self.read_register(base), offset);
                ensure_aligned(address, "load")?;
                let value = memory_get(&self.memory, address);
                self.write_register(rt, value);
            },
            Instruction::Sw { rt, base, offset } => {
                let address = add_signed(self.read_register(base), offset);
                ensure_aligned(address, "store")?;
                let value = self.read_register(rt);
                let mut memory: BTreeMap<u32, u32> = BTreeMap::new();
                std::mem::swap(&mut memory, &mut self.memory);
                memory.insert(address, value);
                std::mem::swap(&mut memory, &mut self.memory);
            },
            Instruction::Beq { rs, rt, offset } => {
                if self.read_register(rs) == self.read_register(rt) {
                    next_pc = branch_target(sequential_pc, offset);
                }
            },
            Instruction::Bne { rs, rt, offset } => {
                if self.read_register(rs) != self.read_register(rt) {
                    next_pc = branch_target(sequential_pc, offset);
                }
            },
            Instruction::J { target } => {
                next_pc = (sequential_pc & 0xf000_0000) | (target << 2u32);
            },
            Instruction::Halt => {
                self.halted = true;
            },
        }
        self.pc = next_pc;
        self.registers[0] = 0;
        self.retired = self.retired.saturating_add(1);
        Ok(instruction)
    }

    /// Runs until `halt` or until `max_steps` instructions have retired in total; returns
    /// `StepLimitExceeded` for a program that has not halted by then.
    pub fn run(&mut self, max_steps: u64) -> (result: Result<RunSummary, ExecutionError>)
        ensures
            (final(self)@, result) == run_spec(old(self)@, max_steps),
    {
        while !self.halted
            invariant
                run_spec(self@, max_steps) == run_spec(old(self)@, max_steps),
            decreases max_steps - self.retired,
        {
            if self.retired >= max_steps {
                return Err(ExecutionError::StepLimitExceeded { limit: max_steps });
            }
            match self.step() {
                Err(e) => {
                    return Err(e);
                },
                Ok(_) => {},
            }
        }
        Ok(RunSummary { retired: self.retired, final_pc: self.pc })
    }

    /// Reads one architectural register; out-of-range indexes read as zero, and so does
    /// register zero, whatever has run on the machine.
    pub fn register(&self, index: u8) -> (value: u32)
        ensures
            value == register_read(self@.registers, index),
            index == 0 ==> value == 0,
    {
        proof {
            use_type_invariant(self);
        }
        if index < 32 {
            self.registers[index as usize]
        } else {
            0
        }
    }

    /// Reads an aligned word (absent words are zero); `None` for an unaligned address.
    pub fn memory_word(&self, address: u32) -> (value: Option<u32>)
        ensures
            value == (if address % 4 == 0 {
                Some(memory_read(self@.memory, address))
            } else {
                None::<u32>
            }),
    {
        if address % 4 == 0 {
            Some(memory_get(&self.memory, address))
        } else {
            None
        }
    }

    /// The complete architectural register file; register zero holds zero.
    pub fn registers(&self) -> (registers: &[u32; 32])
        ensures
            registers@ == self@.registers,
            state_well_formed(self@),
    {
        proof {
            use_type_invariant(self);
        }
        &self.registers
    }

    /// The sparse memory map.
    pub fn memory(&self) -> (memory: &BTreeMap<u32, u32>)
        ensures
            memory@ == self@.memory,
    {
        &self.memory
    }

    /// The current program counter.
    pub fn pc(&self) -> (pc: u32)
        ensures
            pc == self@.pc,
    {
        self.pc
    }

    /// Whether the halt instruction has executed.
    pub fn is_halted(&self) -> (halted: bool)
        ensures
            halted == self@.halted,
    {
        self.halted
    }

    fn read_register(&self, index: u8) -> (value: u32)
        ensures
            value == register_read(self@.registers, index),
    {
        self.register(index)
    }

    fn write_register(&mut self, index: u8, value: u32)
        ensures
            final(self)@ == (MachineState {
                registers: register_write(old(self)@.registers, index, value),
                ..old(self)@
            }),
    {
        proof {
            use_type_invariant(&*self);
        }
        if index != 0 && index < 32 {
            self.registers[index as usize] = value;
        }
    }
}

} // verus!
