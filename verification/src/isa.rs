//! The supported instruction subset and its fixed-width binary encoding.

use vstd::prelude::*;
use crate::text::{
    chars_to_string, decimal, hex_digits, push_decimal, push_hex, push_signed, push_str,
    signed_decimal,
};

verus! {

/// Conventional names for all 32 general-purpose registers.
pub const REGISTER_NAMES: [&'static str; 32] = [
    "$zero", "$at", "$v0", "$v1", "$a0", "$a1", "$a2", "$a3", "$t0", "$t1", "$t2", "$t3", "$t4",
    "$t5", "$t6", "$t7", "$s0", "$s1", "$s2", "$s3", "$s4", "$s5", "$s6", "$s7", "$t8", "$t9",
    "$k0", "$k1", "$gp", "$sp", "$fp", "$ra",
];

/// The conventional name of register `index`, or `$invalid` outside `0..32`.
pub open spec fn register_name_spec(index: u8) -> Seq<char> {
    if index < 32 {
        REGISTER_NAMES@[index as int]@
    } else {
        "$invalid"@
    }
}

/// Returns the conventional name for a register index, or `$invalid` outside 0..32.
pub fn register_name(index: u8) -> (name: &'static str)
    ensures
        name@ == register_name_spec(index),
{
    if index < 32 {
        REGISTER_NAMES[index as usize]
    } else {
        "$invalid"
    }
}

/// An intentionally small, documented MIPS32-inspired instruction subset.
#[derive(Clone, Copy, Debug, PartialEq, Eq, Structural)]
pub enum Instruction {
    Nop,
    Addu { rd: u8, rs: u8, rt: u8 },
    Subu { rd: u8, rs: u8, rt: u8 },
    And { rd: u8, rs: u8, rt: u8 },
    Or { rd: u8, rs: u8, rt: u8 },
    Slt { rd: u8, rs: u8, rt: u8 },
    Sll { rd: u8, rt: u8, shamt: u8 },
    Addiu { rt: u8, rs: u8, immediate: i16 },
    Lw { rt: u8, base: u8, offset: i16 },
    Sw { rt: u8, base: u8, offset: i16 },
    Beq { rs: u8, rt: u8, offset: i16 },
    Bne { rs: u8, rt: u8, offset: i16 },
    J { target: u32 },
    Halt,
}

/// A decoding failure that keeps the rejected machine word.
#[derive(Clone, Copy, Debug, PartialEq, Eq, Structural)]
pub struct DecodeError {
    pub word: u32,
}

/// The diagnostic text of a decoding failure.
pub open spec fn decode_error_text(word: u32) -> Seq<char> {
    "unsupported instruction word 0x"@ + hex_digits(word as nat, 8)
}

impl DecodeError {
    /// Renders the failure, e.g. `unsupported instruction word 0xf8000000`.
    pub fn to_string(&self) -> (text: String)
        ensures
            text@ == decode_error_text(self.word),
    {
        let mut out: Vec<char> = Vec::new();
        self.push_text(&mut out);
        chars_to_string(&out)
    }

    /// Appends the diagnostic text.
    pub fn push_text(&self, out: &mut Vec<char>)
        ensures
            final(out)@ == old(out)@ + decode_error_text(self.word),
    {
        push_str(out, "unsupported instruction word 0x");
        push_hex(out, self.word as u64, 8);
        assert(out@ =~= old(out)@ + decode_error_text(self.word));
    }
}

/// Bits 26..32 of a word.
pub open spec fn opcode_of(word: u32) -> u8 {
    ((word >> 26u32) & 0x3f) as u8
}

/// Bits 21..26 of a word.
pub open spec fn rs_of(word: u32) -> u8 {
    ((word >> 21u32) & 0x1f) as u8
}

/// Bits 16..21 of a word.
pub open spec fn rt_of(word: u32) -> u8 {
    ((word >> 16u32) & 0x1f) as u8
}

/// Bits 11..16 of a word.
pub open spec fn rd_of(word: u32) -> u8 {
    ((word >> 11u32) & 0x1f) as u8
}

/// Bits 6..11 of a word.
pub open spec fn shamt_of(word: u32) -> u8 {
    ((word >> 6u32) & 0x1f) as u8
}

/// Bits 0..6 of a word.
pub open spec fn function_of(word: u32) -> u8 {
    (word & 0x3f) as u8
}

/// The low half-word, read as a signed 16-bit value.
pub open spec fn immediate_of(word: u32) -> i16 {
    (word & 0xffff) as u16 as i16
}

/// What `Instruction::decode` yields for a word.
pub open spec fn decode_spec(word: u32) -> Result<Instruction, DecodeError> {
    let opcode = opcode_of(word);
    let function = function_of(word);
    let rs = rs_of(word);
    let rt = rt_of(word);
    let rd = rd_of(word);
    let immediate = immediate_of(word);
    if word == 0 {
        Ok(Instruction::Nop)
    } else if opcode == 0 && function == 0x21 {
        Ok(Instruction::Addu { rd, rs, rt })
    } else if opcode == 0 && function == 0x23 {
        Ok(Instruction::Subu { rd, rs, rt })
    } else if opcode == 0 && function == 0x24 {
        Ok(Instruction::And { rd, rs, rt })
    } else if opcode == 0 && function == 0x25 {
        Ok(Instruction::Or { rd, rs, rt })
    } else if opcode == 0 && function == 0x2a {
        Ok(Instruction::Slt { rd, rs, rt })
    } else if opcode == 0 && function == 0 {
        Ok(Instruction::Sll { rd, rt, shamt: shamt_of(word) })
    } else if opcode == 0x09 {
        Ok(Instruction::Addiu { rt, rs, immediate })
    } else if opcode == 0x23 {
        Ok(Instruction::Lw { rt, base: rs, offset: immediate })
    } else if opcode == 0x2b {
        Ok(Instruction::Sw { rt, base: rs, offset: immediate })
    } else if opcode == 0x04 {
        Ok(Instruction::Beq { rs, rt, offset: immediate })
    } else if opcode == 0x05 {
        Ok(Instruction::Bne { rs, rt, offset: immediate })
    } else if opcode == 0x02 {
        Ok(Instruction::J { target: word & 0x03ff_ffff })
    } else if opcode == 0x3f && function == 0 {
        Ok(Instruction::Halt)
    } else {
        Err(DecodeError { word })
    }
}

/// Register-format word: `rs | rt | rd | shamt | function`.
pub open spec fn encode_r_spec(rs: u8, rt: u8, rd: u8, shamt: u8, function: u8) -> u32 {
    ((rs as u32) << 21u32) | ((rt as u32) << 16u32) | ((rd as u32) << 11u32) | ((shamt as u32)
        << 6u32) | (function as u32)
}

/// Immediate-format word: `opcode | rs | rt | immediate`.
pub open spec fn encode_i_spec(opcode: u8, rs: u8, rt: u8, immediate: i16) -> u32 {
    ((opcode as u32) << 26u32) | ((rs as u32) << 21u32) | ((rt as u32) << 16u32) | (
    immediate as u16 as u32)
}

/// What `Instruction::encode` yields.
pub open spec fn encode_spec(instruction: Instruction) -> u32 {
    match instruction {
        Instruction::Nop => 0,
        Instruction::Addu { rd, rs, rt } => encode_r_spec(rs, rt, rd, 0, 0x21),
        Instruction::Subu { rd, rs, rt } => encode_r_spec(rs, rt, rd, 0, 0x23),
        Instruction::And { rd, rs, rt } => encode_r_spec(rs, rt, rd, 0, 0x24),
        Instruction::Or { rd, rs, rt } => encode_r_spec(rs, rt, rd, 0, 0x25),
        Instruction::Slt { rd, rs, rt } => encode_r_spec(rs, rt, rd, 0, 0x2a),
        Instruction::Sll { rd, rt, shamt } => encode_r_spec(0, rt, rd, shamt, 0),
        Instruction::Addiu { rt, rs, immediate } => encode_i_spec(0x09, rs, rt, immediate),
        Instruction::Lw { rt, base, offset } => encode_i_spec(0x23, base, rt, offset),
        Instruction::Sw { rt, base, offset } => encode_i_spec(0x2b, base, rt, offset),
        Instruction::Beq { rs, rt, offset } => encode_i_spec(0x04, rs, rt, offset),
        Instruction::Bne { rs, rt, offset } => encode_i_spec(0x05, rs, rt, offset),
        Instruction::J { target } => (0x02u32 << 26u32) | (target & 0x03ff_ffff),
        Instruction::Halt => 0x3fu32 << 26u32,
    }
}

fn encode_r(rs: u8, rt: u8, rd: u8, shamt: u8, function: u8) -> (word: u32)
    ensures
        word == encode_r_spec(rs, rt, rd, shamt, function),
{
    ((rs as u32) << 21u32) | ((rt as u32) << 16u32) | ((rd as u32) << 11u32) | ((shamt as u32)
        << 6u32) | (function as u32)
}

fn encode_i(opcode: u8, rs: u8, rt: u8, immediate: i16) -> (word: u32)
    ensures
        word == encode_i_spec(opcode, rs, rt, immediate),
{
    ((opcode as u32) << 26u32) | ((rs as u32) << 21u32) | ((rt as u32) << 16u32) | (
    immediate as u16 as u32)
}

impl Instruction {
    /// Decodes one 32-bit machine word; unknown opcodes and function codes are rejected.
    pub fn decode(word: u32) -> (result: Result<Instruction, DecodeError>)
        ensures
            result == decode_spec(word),
    {
        if word == 0 {
            return Ok(Instruction::Nop);
        }
        let opcode = ((word >> 26u32) & 0x3f) as u8;
        let rs = ((word >> 21u32) & 0x1f) as u8;
        let rt = ((word >> 16u32) & 0x1f) as u8;
        let rd = ((word >> 11u32) & 0x1f) as u8;
        let shamt = ((word >> 6u32) & 0x1f) as u8;
        let immediate = (word & 0xffff) as u16 as i16;
        let function = (word & 0x3f) as u8;
        match (opcode, function) {
            (0x00, 0x21) => Ok(Instruction::Addu { rd, rs, rt }),
            (0x00, 0x23) => Ok(Instruction::Subu { rd, rs, rt }),
            (0x00, 0x24) => Ok(Instruction::And { rd, rs, rt }),
            (0x00, 0x25) => Ok(Instruction::Or { rd, rs, rt }),
            (0x00, 0x2a) => Ok(Instruction::Slt { rd, rs, rt }),
            (0x00, 0x00) => Ok(Instruction::Sll { rd, rt, shamt }),
            (0x09, _) => Ok(Instruction::Addiu { rt, rs, immediate }),
            (0x23, _) => Ok(Instruction::Lw { rt, base: rs, offset: immediate }),
            (0x2b, _) => Ok(Instruction::Sw { rt, base: rs, offset: immediate }),
            (0x04, _) => Ok(Instruction::Beq { rs, rt, offset: immediate }),
            (0x05, _) => Ok(Instruction::Bne { rs, rt, offset: immediate }),
            (0x02, _) => Ok(Instruction::J { target: word & 0x03ff_ffff }),
            (0x3f, 0x00) => Ok(Instruction::Halt),
            _ => Err(DecodeError { word }),
        }
    }

    /// Encodes the instruction into one fixed-width machine word.
    pub fn encode(self) -> (word: u32)
        ensures
            word == encode_spec(self),
    {
        match self {
            Instruction::Nop => 0,
            Instruction::Addu { rd, rs, rt } => encode_r(rs, rt, rd, 0, 0x21),
            Instruction::Subu { rd, rs, rt } => encode_r(rs, rt, rd, 0, 0x23),
            Instruction::And { rd, rs, rt } => encode_r(rs, rt, rd, 0, 0x24),
            Instruction::Or { rd, rs, rt } => encode_r(rs, rt, rd, 0, 0x25),
            Instruction::Slt { rd, rs, rt } => encode_r(rs, rt, rd, 0, 0x2a),
            Instruction::Sll { rd, rt, shamt } => encode_r(0, rt, rd, shamt, 0),
            Instruction::Addiu { rt, rs, immediate } => encode_i(0x09, rs, rt, immediate),
            Instruction::Lw { rt, base, offset } => encode_i(0x23, base, rt, offset),
            Instruction::Sw { rt, base, offset } => encode_i(0x2b, base, rt, offset),
            Instruction::Beq { rs, rt, offset } => encode_i(0x04, rs, rt, offset),
            Instruction::Bne { rs, rt, offset } => encode_i(0x05, rs, rt, offset),
            Instruction::J { target } => (0x02u32 << 26u32) | (target & 0x03ff_ffff),
            Instruction::Halt => 0x3fu32 << 26u32,
        }
    }
}


impl Instruction {
    /// Every register index is below 32, the shift amount is below 32 and a jump target
    /// fits in 26 bits: the operand ranges that the encoding can represent.
    pub open spec fn well_formed(self) -> bool {
        match self {
            Instruction::Nop | Instruction::Halt => true,
            Instruction::Addu { rd, rs, rt }
            | Instruction::Subu { rd, rs, rt }
            | Instruction::And { rd, rs, rt }
            | Instruction::Or { rd, rs, rt }
            | Instruction::Slt { rd, rs, rt } => rd < 32 && rs < 32 && rt < 32,
            Instruction::Sll { rd, rt, shamt } => rd < 32 && rt < 32 && shamt < 32,
            Instruction::Addiu { rt, rs, .. } => rt < 32 && rs < 32,
            Instruction::Lw { rt, base, .. } | Instruction::Sw { rt, base, .. } => rt < 32 && base
                < 32,
            Instruction::Beq { rs, rt, .. } | Instruction::Bne { rs, rt, .. } => rs < 32 && rt
                < 32,
            Instruction::J { target } => target < 0x0400_0000,
        }
    }
}

/// The registers an instruction reads, as `Instruction::source_registers` lists them.
pub open spec fn source_registers_spec(instruction: Instruction) -> [Option<u8>; 2] {
    match instruction {
        Instruction::Addu { rs, rt, .. }
        | Instruction::Subu { rs, rt, .. }
        | Instruction::And { rs, rt, .. }
        | Instruction::Or { rs, rt, .. }
        | Instruction::Slt { rs, rt, .. }
        | Instruction::Beq { rs, rt, .. }
        | Instruction::Bne { rs, rt, .. } => [Some(rs), Some(rt)],
        Instruction::Sll { rt, .. } => [Some(rt), None],
        Instruction::Addiu { rs, .. } | Instruction::Lw { base: rs, .. } => [Some(rs), None],
        Instruction::Sw { rt, base, .. } => [Some(base), Some(rt)],
        Instruction::Nop | Instruction::J { .. } | Instruction::Halt => [None, None],
    }
}

/// The register an instruction writes, if any and if it is not register zero.
pub open spec fn destination_register_spec(instruction: Instruction) -> Option<u8> {
    let written = match instruction {
        Instruction::Addu { rd, .. }
        | Instruction::Subu { rd, .. }
        | Instruction::And { rd, .. }
        | Instruction::Or { rd, .. }
        | Instruction::Slt { rd, .. }
        | Instruction::Sll { rd, .. } => Some(rd),
        Instruction::Addiu { rt, .. } | Instruction::Lw { rt, .. } => Some(rt),
        _ => None,
    };
    match written {
        Some(r) => if r == 0 {
            None
        } else {
            Some(r)
        },
        None => None,
    }
}

/// `mnemonic rd, rs, rt` with conventional register names.
pub open spec fn three_register_text(mnemonic: Seq<char>, a: u8, b: u8, c: u8) -> Seq<char> {
    mnemonic + " "@ + register_name_spec(a) + ", "@ + register_name_spec(b) + ", "@
        + register_name_spec(c)
}

/// The human-readable rendering that `Instruction::disassemble` returns.
pub open spec fn disassemble_spec(instruction: Instruction) -> Seq<char> {
    match instruction {
        Instruction::Nop => "nop"@,
        Instruction::Addu { rd, rs, rt } => three_register_text("addu"@, rd, rs, rt),
        Instruction::Subu { rd, rs, rt } => three_register_text("subu"@, rd, rs, rt),
        Instruction::And { rd, rs, rt } => three_register_text("and"@, rd, rs, rt),
        Instruction::Or { rd, rs, rt } => three_register_text("or"@, rd, rs, rt),
        Instruction::Slt { rd, rs, rt } => three_register_text("slt"@, rd, rs, rt),
        Instruction::Sll { rd, rt, shamt } => "sll "@ + register_name_spec(rd) + ", "@
            + register_name_spec(rt) + ", "@ + decimal(shamt as nat),
        Instruction::Addiu { rt, rs, immediate } => "addiu "@ + register_name_spec(rt) + ", "@
            + register_name_spec(rs) + ", "@ + signed_decimal(immediate as int),
        Instruction::Lw { rt, base, offset } => "lw "@ + register_name_spec(rt) + ", "@
            + signed_decimal(offset as int) + "("@ + register_name_spec(base) + ")"@,
        Instruction::Sw { rt, base, offset } => "sw "@ + register_name_spec(rt) + ", "@
            + signed_decimal(offset as int) + "("@ + register_name_spec(base) + ")"@,
        Instruction::Beq { rs, rt, offset } => "beq "@ + register_name_spec(rs) + ", "@
            + register_name_spec(rt) + ", "@ + signed_decimal(offset as int),
        Instruction::Bne { rs, rt, offset } => "bne "@ + register_name_spec(rs) + ", "@
            + register_name_spec(rt) + ", "@ + signed_decimal(offset as int),
        Instruction::J { target } => "j 0x"@ + hex_digits((target << 2u32) as nat, 8),
        Instruction::Halt => "halt"@,
    }
}

fn push_three_registers(out: &mut Vec<char>, mnemonic: &str, a: u8, b: u8, c: u8)
    ensures
        final(out)@ == old(out)@ + three_register_text(mnemonic@, a, b, c),
{
    push_str(out, mnemonic);
    push_str(out, " ");
    push_str(out, register_name(a));
    push_str(out, ", ");
    push_str(out, register_name(b));
    push_str(out, ", ");
    push_str(out, register_name(c));
    assert(out@ =~= old(out)@ + three_register_text(mnemonic@, a, b, c));
}

impl Instruction {
    /// Lists registers read by this instruction for hazard detection.
    pub fn source_registers(self) -> (sources: [Option<u8>; 2])
        ensures
            sources == source_registers_spec(self),
    {
        match self {
            Instruction::Addu { rs, rt, .. }
            | Instruction::Subu { rs, rt, .. }
            | Instruction::And { rs, rt, .. }
            | Instruction::Or { rs, rt, .. }
            | Instruction::Slt { rs, rt, .. }
            | Instruction::Beq { rs, rt, .. }
            | Instruction::Bne { rs, rt, .. } => [Some(rs), Some(rt)],
            Instruction::Sll { rt, .. } => [Some(rt), None],
            Instruction::Addiu { rs, .. } | Instruction::Lw { base: rs, .. } => [Some(rs), None],
            Instruction::Sw { rt, base, .. } => [Some(base), Some(rt)],
            Instruction::Nop | Instruction::J { .. } | Instruction::Halt => [None, None],
        }
    }

    /// Returns the destination register, excluding register zero and non-writing instructions.
    pub fn destination_register(self) -> (destination: Option<u8>)
        ensures
            destination == destination_register_spec(self),
            destination != Some(0u8),
    {
        let written = match self {
            Instruction::Addu { rd, .. }
            | Instruction::Subu { rd, .. }
            | Instruction::And { rd, .. }
            | Instruction::Or { rd, .. }
            | Instruction::Slt { rd, .. }
            | Instruction::Sll { rd, .. } => Some(rd),
            Instruction::Addiu { rt, .. } | Instruction::Lw { rt, .. } => Some(rt),
            Instruction::Nop
            | Instruction::Sw { .. }
            | Instruction::Beq { .. }
            | Instruction::Bne { .. }
            | Instruction::J { .. }
            | Instruction::Halt => None,
        };
        match written {
            Some(0) | None => None,
            other => other,
        }
    }

    /// Reports whether the result becomes available only after the memory stage.
    pub fn is_load(self) -> (load: bool)
        ensures
            load == (self is Lw),
    {
        matches!(self, Instruction::Lw { .. })
    }

    /// Renders a stable human-readable representation used by traces and diagnostics.
    pub fn disassemble(self) -> (text: String)
        ensures
            text@ == disassemble_spec(self),
    {
        let mut out: Vec<char> = Vec::new();
        self.push_disassembly(&mut out);
        chars_to_string(&out)
    }

    /// Appends the disassembly of this instruction.
    pub fn push_disassembly(self, out: &mut Vec<char>)
        ensures
            final(out)@ == old(out)@ + disassemble_spec(self),
    {
        match self {
            Instruction::Nop => push_str(out, "nop"),
            Instruction::Addu { rd, rs, rt } => push_three_registers(out, "addu", rd, rs, rt),
            Instruction::Subu { rd, rs, rt } => push_three_registers(out, "subu", rd, rs, rt),
            Instruction::And { rd, rs, rt } => push_three_registers(out, "and", rd, rs, rt),
            Instruction::Or { rd, rs, rt } => push_three_registers(out, "or", rd, rs, rt),
            Instruction::Slt { rd, rs, rt } => push_three_registers(out, "slt", rd, rs, rt),
            Instruction::Sll { rd, rt, shamt } => {
                push_str(out, "sll ");
                push_str(out, register_name(rd));
                push_str(out, ", ");
                push_str(out, register_name(rt));
                push_str(out, ", ");
                push_decimal(out, shamt as u64);
            },
            Instruction::Addiu { rt, rs, immediate } => {
                push_str(out, "addiu ");
                push_str(out, register_name(rt));
                push_str(out, ", ");
                push_str(out, register_name(rs));
                push_str(out, ", ");
                push_signed(out, immediate as i64);
            },
            Instruction::Lw { rt, base, offset } => {
                push_str(out, "lw ");
                push_str(out, register_name(rt));
                push_str(out, ", ");
                push_signed(out, offset as i64);
                push_str(out, "(");
                push_str(out, register_name(base));
                push_str(out, ")");
            },
            Instruction::Sw { rt, base, offset } => {
                push_str(out, "sw ");
                push_str(out, register_name(rt));
                push_str(out, ", ");
                push_signed(out, offset as i64);
                push_str(out, "(");
                push_str(out, register_name(base));
                push_str(out, ")");
            },
            Instruction::Beq { rs, rt, offset } => {
                push_str(out, "beq ");
                push_str(out, register_name(rs));
                push_str(out, ", ");
                push_str(out, register_name(rt));
                push_str(out, ", ");
                push_signed(out, offset as i64);
            },
            Instruction::Bne { rs, rt, offset } => {
                push_str(out, "bne ");
                push_str(out, register_name(rs));
                push_str(out, ", ");
                push_str(out, register_name(rt));
                push_str(out, ", ");
                push_signed(out, offset as i64);
            },
            Instruction::J { target } => {
                push_str(out, "j 0x");
                push_hex(out, (target << 2u32) as u64, 8);
            },
            Instruction::Halt => push_str(out, "halt"),
        }
        assert(out@ =~= old(out)@ + disassemble_spec(self));
    }
}

proof fn lemma_fields_r(rs: u32, rt: u32, rd: u32, shamt: u32, function: u32)
    by (bit_vector)
    requires
        rs < 32,
        rt < 32,
        rd < 32,
        shamt < 32,
        function < 64,
    ensures
        ({
            let w = (rs << 21u32) | (rt << 16u32) | (rd << 11u32) | (shamt << 6u32) | function;
            &&& (w >> 26u32) & 0x3f == 0
            &&& (w >> 21u32) & 0x1f == rs
            &&& (w >> 16u32) & 0x1f == rt
            &&& (w >> 11u32) & 0x1f == rd
            &&& (w >> 6u32) & 0x1f == shamt
            &&& w & 0x3f == function
            &&& (w == 0 <==> (rs == 0 && rt == 0 && rd == 0 && shamt == 0 && function == 0))
        }),
{
}

proof fn lemma_fields_i(opcode: u32, rs: u32, rt: u32, imm: u16)
    by (bit_vector)
    requires
        opcode < 64,
        0 < opcode,
        rs < 32,
        rt < 32,
    ensures
        ({
            let w = (opcode << 26u32) | (rs << 21u32) | (rt << 16u32) | (imm as u32);
            &&& (w >> 26u32) & 0x3f == opcode
            &&& (w >> 21u32) & 0x1f == rs
            &&& (w >> 16u32) & 0x1f == rt
            &&& (w & 0xffff) as u16 == imm
            &&& w != 0
        }),
{
}

proof fn lemma_i16_round_trip(x: i16)
    by (bit_vector)
    ensures
        (x as u16) as i16 == x,
{
}

proof fn lemma_fields_j(target: u32)
    by (bit_vector)
    requires
        target < 0x0400_0000,
    ensures
        ({
            let w = (0x02u32 << 26u32) | (target & 0x03ff_ffff);
            &&& (w >> 26u32) & 0x3f == 2
            &&& w & 0x03ff_ffff == target
            &&& w != 0
        }),
{
}

proof fn lemma_fields_halt()
    by (bit_vector)
    ensures
        ((0x3fu32 << 26u32) >> 26u32) & 0x3f == 0x3f,
        (0x3fu32 << 26u32) & 0x3f == 0,
        (0x3fu32 << 26u32) != 0,
{
}

proof fn lemma_word_fields_bounded(word: u32)
    by (bit_vector)
    ensures
        (word >> 21u32) & 0x1f < 32,
        (word >> 16u32) & 0x1f < 32,
        (word >> 11u32) & 0x1f < 32,
        (word >> 6u32) & 0x1f < 32,
        word & 0x03ff_ffff < 0x0400_0000,
{
}

/// Every instruction that decoding produces is well formed.
pub proof fn lemma_decode_well_formed(word: u32)
    ensures
        decode_spec(word) matches Ok(instruction) ==> instruction.well_formed(),
{
    lemma_word_fields_bounded(word);
}

/// Decoding the encoding of a well-formed instruction gives the instruction back. The one
/// exception is `sll $zero, $zero, 0`, whose encoding is the all-zero word that decodes as `nop`.
pub proof fn lemma_decode_encode(instruction: Instruction)
    requires
        instruction.well_formed(),
        instruction != (Instruction::Sll { rd: 0, rt: 0, shamt: 0 }),
    ensures
        decode_spec(encode_spec(instruction)) == Ok::<Instruction, DecodeError>(instruction),
{
    match instruction {
        Instruction::Nop => {
        },
        Instruction::Addu { rd, rs, rt } => lemma_fields_r(rs as u32, rt as u32, rd as u32, 0, 0x21),
        Instruction::Subu { rd, rs, rt } => lemma_fields_r(rs as u32, rt as u32, rd as u32, 0, 0x23),
        Instruction::And { rd, rs, rt } => lemma_fields_r(rs as u32, rt as u32, rd as u32, 0, 0x24),
        Instruction::Or { rd, rs, rt } => lemma_fields_r(rs as u32, rt as u32, rd as u32, 0, 0x25),
        Instruction::Slt { rd, rs, rt } => lemma_fields_r(rs as u32, rt as u32, rd as u32, 0, 0x2a),
        Instruction::Sll { rd, rt, shamt } => lemma_fields_r(0, rt as u32, rd as u32, shamt as u32, 0),
        Instruction::Addiu { rt, rs, immediate } => {
            lemma_fields_i(0x09, rs as u32, rt as u32, immediate as u16);
            lemma_i16_round_trip(immediate);
        },
        Instruction::Lw { rt, base, offset } => {
            lemma_fields_i(0x23, base as u32, rt as u32, offset as u16);
            lemma_i16_round_trip(offset);
        },
        Instruction::Sw { rt, base, offset } => {
            lemma_fields_i(0x2b, base as u32, rt as u32, offset as u16);
            lemma_i16_round_trip(offset);
        },
        Instruction::Beq { rs, rt, offset } => {
            lemma_fields_i(0x04, rs as u32, rt as u32, offset as u16);
            lemma_i16_round_trip(offset);
        },
        Instruction::Bne { rs, rt, offset } => {
            lemma_fields_i(0x05, rs as u32, rt as u32, offset as u16);
            lemma_i16_round_trip(offset);
        },
        Instruction::J { target } => lemma_fields_j(target),
        Instruction::Halt => lemma_fields_halt(),
    }
}

/// The low 16 bits of a two's-complement half-word.
pub open spec fn half_word(x: i16) -> int {
    if x >= 0 {
        x as int
    } else {
        x as int + 0x1_0000
    }
}

proof fn lemma_register_word(rs: u8, rt: u8, rd: u8, shamt: u8, function: u8)
    requires
        rs < 32,
        rt < 32,
        rd < 32,
        shamt < 32,
        function < 64,
    ensures
        encode_r_spec(rs, rt, rd, shamt, function) as int == rs as int * 0x20_0000 + rt as int
            * 0x1_0000 + rd as int * 0x800 + shamt as int * 0x40 + function as int,
{
    let (a, b, c, d, f) = (rs as u32, rt as u32, rd as u32, shamt as u32, function as u32);
    assert(((a << 21u32) | (b << 16u32) | (c << 11u32) | (d << 6u32) | f) as int == a as int
        * 0x20_0000 + b as int * 0x1_0000 + c as int * 0x800 + d as int * 0x40 + f as int)
        by (bit_vector)
        requires
            a < 32,
            b < 32,
            c < 32,
            d < 32,
            f < 64,
    ;
}

proof fn lemma_immediate_word(opcode: u8, rs: u8, rt: u8, immediate: i16)
    requires
        opcode < 64,
        rs < 32,
        rt < 32,
    ensures
        encode_i_spec(opcode, rs, rt, immediate) as int == opcode as int * 0x400_0000 + rs as int
            * 0x20_0000 + rt as int * 0x1_0000 + half_word(immediate),
{
    let (o, a, b) = (opcode as u32, rs as u32, rt as u32);
    let h = immediate as u16 as u32;
    assert((immediate as u16 as u32) as int == half_word(immediate)) by (bit_vector);
    assert(((o << 26u32) | (a << 21u32) | (b << 16u32) | h) as int == o as int * 0x400_0000
        + a as int * 0x20_0000 + b as int * 0x1_0000 + h as int) by (bit_vector)
        requires
            o < 64,
            a < 32,
            b < 32,
            h < 0x1_0000,
    ;
}

/// The MIPS field layout of every encoding: the opcode in bits 26..32 (0 for the register
/// format, 0x09 `addiu`, 0x23 `lw`, 0x2b `sw`, 0x04 `beq`, 0x05 `bne`, 0x02 `j`, 0x3f `halt`),
/// then `rs`, `rt`, `rd`, the shift amount and the function code (0x21 `addu`, 0x23 `subu`,
/// 0x24 `and`, 0x25 `or`, 0x2a `slt`, 0 `sll`), or the 16-bit immediate, or the 26-bit jump
/// target.
pub proof fn lemma_encoding_layout(instruction: Instruction)
    requires
        instruction.well_formed(),
    ensures
        encode_spec(instruction) as int == match instruction {
            Instruction::Nop => 0,
            Instruction::Addu { rd, rs, rt } => rs * 0x20_0000 + rt * 0x1_0000 + rd * 0x800 + 0x21,
            Instruction::Subu { rd, rs, rt } => rs * 0x20_0000 + rt * 0x1_0000 + rd * 0x800 + 0x23,
            Instruction::And { rd, rs, rt } => rs * 0x20_0000 + rt * 0x1_0000 + rd * 0x800 + 0x24,
            Instruction::Or { rd, rs, rt } => rs * 0x20_0000 + rt * 0x1_0000 + rd * 0x800 + 0x25,
            Instruction::Slt { rd, rs, rt } => rs * 0x20_0000 + rt * 0x1_0000 + rd * 0x800 + 0x2a,
            Instruction::Sll { rd, rt, shamt } => rt * 0x1_0000 + rd * 0x800 + shamt * 0x40,
            Instruction::Addiu { rt, rs, immediate } => 0x09 * 0x400_0000 + rs * 0x20_0000 + rt
                * 0x1_0000 + half_word(immediate),
            Instruction::Lw { rt, base, offset } => 0x23 * 0x400_0000 + base * 0x20_0000 + rt
                * 0x1_0000 + half_word(offset),
            Instruction::Sw { rt, base, offset } => 0x2b * 0x400_0000 + base * 0x20_0000 + rt
                * 0x1_0000 + half_word(offset),
            Instruction::Beq { rs, rt, offset } => 0x04 * 0x400_0000 + rs * 0x20_0000 + rt
                * 0x1_0000 + half_word(offset),
            Instruction::Bne { rs, rt, offset } => 0x05 * 0x400_0000 + rs * 0x20_0000 + rt
                * 0x1_0000 + half_word(offset),
            Instruction::J { target } => 0x02 * 0x400_0000 + target as int,
            Instruction::Halt => 0xfc00_0000int,
        },
{
    match instruction {
        Instruction::Addu { rd, rs, rt } => lemma_register_word(rs, rt, rd, 0, 0x21),
        Instruction::Subu { rd, rs, rt } => lemma_register_word(rs, rt, rd, 0, 0x23),
        Instruction::And { rd, rs, rt } => lemma_register_word(rs, rt, rd, 0, 0x24),
        Instruction::Or { rd, rs, rt } => lemma_register_word(rs, rt, rd, 0, 0x25),
        Instruction::Slt { rd, rs, rt } => lemma_register_word(rs, rt, rd, 0, 0x2a),
        Instruction::Sll { rd, rt, shamt } => lemma_register_word(0, rt, rd, shamt, 0),
        Instruction::Addiu { rt, rs, immediate } => lemma_immediate_word(0x09, rs, rt, immediate),
        Instruction::Lw { rt, base, offset } => lemma_immediate_word(0x23, base, rt, offset),
        Instruction::Sw { rt, base, offset } => lemma_immediate_word(0x2b, base, rt, offset),
        Instruction::Beq { rs, rt, offset } => lemma_immediate_word(0x04, rs, rt, offset),
        Instruction::Bne { rs, rt, offset } => lemma_immediate_word(0x05, rs, rt, offset),
        Instruction::J { target } => {
            assert(((0x02u32 << 26u32) | (target & 0x03ff_ffff)) as int == 0x0800_0000 + target as int)
                by (bit_vector)
                requires
                    target < 0x0400_0000u32,
            ;
        },
        Instruction::Halt => {
            assert((0x3fu32 << 26u32) as int == 0xfc00_0000) by (bit_vector);
        },
        Instruction::Nop => {},
    }
}

/// The bits of a word that the decoded instruction keeps: all of them, except the shift
/// amount of the three-register instructions, the `rs` field of `sll`, and everything between
/// the opcode and the function code of `halt`.
pub open spec fn kept_bits(instruction: Instruction) -> u32 {
    match instruction {
        Instruction::Addu { .. } | Instruction::Subu { .. } | Instruction::And { .. }
        | Instruction::Or { .. } | Instruction::Slt { .. } => 0xffff_f83f,
        Instruction::Sll { .. } => 0xfc1f_ffff,
        Instruction::Halt => 0xfc00_003f,
        _ => 0xffff_ffff,
    }
}

/// Decoding accepts only words that are encodings: a word decodes to an instruction exactly
/// when that instruction's encoding is the word with the ignored bits cleared.
pub proof fn lemma_decode_accepts_encodings(word: u32)
    ensures
        decode_spec(word) matches Ok(instruction) ==> instruction.well_formed() && encode_spec(
            instruction,
        ) == word & kept_bits(instruction),
{
    lemma_decode_well_formed(word);
    let w = word;
    if let Ok(instruction) = decode_spec(word) {
        match instruction {
            Instruction::Nop => {
                assert(w & 0xffff_ffff == w) by (bit_vector);
            },
            Instruction::Addu { .. } => {
                assert(((((w >> 21u32) & 0x1f) as u8 as u32) << 21u32) | ((((w >> 16u32) & 0x1f) as u8
                    as u32) << 16u32) | ((((w >> 11u32) & 0x1f) as u8 as u32) << 11u32) | ((0u8 as u32)
                    << 6u32) | (0x21u8 as u32) == w & 0xffff_f83f) by (bit_vector)
                    requires
                        opcode_of(w) == 0u8,
                        function_of(w) == 0x21u8,
                ;
            },
            Instruction::Subu { .. } => {
                assert(((((w >> 21u32) & 0x1f) as u8 as u32) << 21u32) | ((((w >> 16u32) & 0x1f) as u8
                    as u32) << 16u32) | ((((w >> 11u32) & 0x1f) as u8 as u32) << 11u32) | ((0u8 as u32)
                    << 6u32) | (0x23u8 as u32) == w & 0xffff_f83f) by (bit_vector)
                    requires
                        opcode_of(w) == 0u8,
                        function_of(w) == 0x23u8,
                ;
            },
            Instruction::And { .. } => {
                assert(((((w >> 21u32) & 0x1f) as u8 as u32) << 21u32) | ((((w >> 16u32) & 0x1f) as u8
                    as u32) << 16u32) | ((((w >> 11u32) & 0x1f) as u8 as u32) << 11u32) | ((0u8 as u32)
                    << 6u32) | (0x24u8 as u32) == w & 0xffff_f83f) by (bit_vector)
                    requires
                        opcode_of(w) == 0u8,
                        function_of(w) == 0x24u8,
                ;
            },
            Instruction::Or { .. } => {
                assert(((((w >> 21u32) & 0x1f) as u8 as u32) << 21u32) | ((((w >> 16u32) & 0x1f) as u8
                    as u32) << 16u32) | ((((w >> 11u32) & 0x1f) as u8 as u32) << 11u32) | ((0u8 as u32)
                    << 6u32) | (0x25u8 as u32) == w & 0xffff_f83f) by (bit_vector)
                    requires
                        opcode_of(w) == 0u8,
                        function_of(w) == 0x25u8,
                ;
            },
            Instruction::Slt { .. } => {
                assert(((((w >> 21u32) & 0x1f) as u8 as u32) << 21u32) | ((((w >> 16u32) & 0x1f) as u8
                    as u32) << 16u32) | ((((w >> 11u32) & 0x1f) as u8 as u32) << 11u32) | ((0u8 as u32)
                    << 6u32) | (0x2au8 as u32) == w & 0xffff_f83f) by (bit_vector)
                    requires
                        opcode_of(w) == 0u8,
                        function_of(w) == 0x2au8,
                ;
            },
            Instruction::Sll { .. } => {
                assert(((0u8 as u32) << 21u32) | ((((w >> 16u32) & 0x1f) as u8 as u32) << 16u32) | ((((w
                    >> 11u32) & 0x1f) as u8 as u32) << 11u32) | ((((w >> 6u32) & 0x1f) as u8 as u32)
                    << 6u32) | (0u8 as u32) == w & 0xfc1f_ffff) by (bit_vector)
                    requires
                        opcode_of(w) == 0u8,
                        function_of(w) == 0u8,
                ;
            },
            Instruction::Addiu { .. } => {
                assert(((0x09u8 as u32) << 26u32) | ((((w >> 21u32) & 0x1f) as u8 as u32) << 21u32) | ((((w
                    >> 16u32) & 0x1f) as u8 as u32) << 16u32) | ((w & 0xffff) as u16 as i16 as u16 as u32)
                    == w & 0xffff_ffff) by (bit_vector)
                    requires
                        opcode_of(w) == 0x09u8,
                ;
            },
            Instruction::Lw { .. } => {
                assert(((0x23u8 as u32) << 26u32) | ((((w >> 21u32) & 0x1f) as u8 as u32) << 21u32) | ((((w
                    >> 16u32) & 0x1f) as u8 as u32) << 16u32) | ((w & 0xffff) as u16 as i16 as u16 as u32)
                    == w & 0xffff_ffff) by (bit_vector)
                    requires
                        opcode_of(w) == 0x23u8,
                ;
            },
            Instruction::Sw { .. } => {
                assert(((0x2bu8 as u32) << 26u32) | ((((w >> 21u32) & 0x1f) as u8 as u32) << 21u32) | ((((w
                    >> 16u32) & 0x1f) as u8 as u32) << 16u32) | ((w & 0xffff) as u16 as i16 as u16 as u32)
                    == w & 0xffff_ffff) by (bit_vector)
                    requires
                        opcode_of(w) == 0x2bu8,
                ;
            },
            Instruction::Beq { .. } => {
                assert(((0x04u8 as u32) << 26u32) | ((((w >> 21u32) & 0x1f) as u8 as u32) << 21u32) | ((((w
                    >> 16u32) & 0x1f) as u8 as u32) << 16u32) | ((w & 0xffff) as u16 as i16 as u16 as u32)
                    == w & 0xffff_ffff) by (bit_vector)
                    requires
                        opcode_of(w) == 0x04u8,
                ;
            },
            Instruction::Bne { .. } => {
                assert(((0x05u8 as u32) << 26u32) | ((((w >> 21u32) & 0x1f) as u8 as u32) << 21u32) | ((((w
                    >> 16u32) & 0x1f) as u8 as u32) << 16u32) | ((w & 0xffff) as u16 as i16 as u16 as u32)
                    == w & 0xffff_ffff) by (bit_vector)
                    requires
                        opcode_of(w) == 0x05u8,
                ;
            },
            Instruction::J { .. } => {
                assert(((0x02u32 << 26u32) | ((w & 0x03ff_ffff) & 0x03ff_ffff)) == w & 0xffff_ffff)
                    by (bit_vector)
                    requires
                        opcode_of(w) == 0x02u8,
                ;
            },
            Instruction::Halt => {
                assert(0x3fu32 << 26u32 == w & 0xfc00_003f) by (bit_vector)
                    requires
                        opcode_of(w) == 0x3fu8,
                        function_of(w) == 0u8,
                ;
            },
        }
    }
}

} // verus!
