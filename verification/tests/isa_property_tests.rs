use mips_workbench::{register_name, DecodeError, Instruction};

#[test]
fn valid_instructions_round_trip_across_generated_operands() {
    let mut state = 0x5eed_cafe_dead_beef_u64;
    for _ in 0..10_000 {
        state = xorshift(state);
        let rd = ((state >> 3) & 31) as u8;
        let rs = ((state >> 11) & 31) as u8;
        let rt = ((state >> 19) & 31) as u8;
        let shamt = ((state >> 27) & 31) as u8;
        let bytes = state.to_le_bytes();
        let immediate = i16::from_le_bytes([bytes[0], bytes[1]]);
        let target = u32::from_le_bytes([bytes[0], bytes[1], bytes[2], bytes[3]]) & 0x03ff_ffff;
        let instructions = [
            Instruction::Addu { rd, rs, rt },
            Instruction::Subu { rd, rs, rt },
            Instruction::And { rd, rs, rt },
            Instruction::Or { rd, rs, rt },
            Instruction::Slt { rd, rs, rt },
            Instruction::Sll { rd, rt, shamt },
            Instruction::Addiu { rt, rs, immediate },
            Instruction::Lw { rt, base: rs, offset: immediate },
            Instruction::Sw { rt, base: rs, offset: immediate },
            Instruction::Beq { rs, rt, offset: immediate },
            Instruction::Bne { rs, rt, offset: immediate },
            Instruction::J { target },
        ];
        for instruction in instructions {
            assert_eq!(Instruction::decode(instruction.encode()), Ok(instruction));
        }
    }
}

#[test]
fn register_zero_is_never_a_destination() {
    assert_eq!(Instruction::Addu { rd: 0, rs: 1, rt: 2 }.destination_register(), None);
    assert_eq!(Instruction::Addiu { rt: 0, rs: 1, immediate: 9 }.destination_register(), None);
}

#[test]
fn unsupported_opcode_is_rejected() {
    let word = 0x3e_u32 << 26;
    assert!(Instruction::decode(word).is_err());
}

#[test]
fn known_encodings_and_disassembly() {
    assert_eq!(Instruction::Addu { rd: 10, rs: 8, rt: 9 }.encode(), 0x0109_5021);
    assert_eq!(Instruction::Addiu { rt: 8, rs: 0, immediate: -1 }.encode(), 0x2408_ffff);
    assert_eq!(Instruction::J { target: 3 }.encode(), 0x0800_0003);
    assert_eq!(Instruction::Halt.encode(), 0xfc00_0000);
    assert_eq!(Instruction::decode(0), Ok(Instruction::Nop));
    assert_eq!(Instruction::decode(0x3f << 26 | 1), Err(DecodeError { word: 0xfc00_0001 }));
    assert_eq!(Instruction::Addu { rd: 10, rs: 8, rt: 9 }.disassemble(), "addu $t2, $t0, $t1");
    assert_eq!(Instruction::Sll { rd: 2, rt: 3, shamt: 31 }.disassemble(), "sll $v0, $v1, 31");
    assert_eq!(Instruction::Lw { rt: 9, base: 29, offset: -8 }.disassemble(), "lw $t1, -8($sp)");
    assert_eq!(Instruction::Sw { rt: 9, base: 40, offset: 12 }.disassemble(), "sw $t1, 12($invalid)");
    assert_eq!(Instruction::J { target: 3 }.disassemble(), "j 0x0000000c");
    assert_eq!(Instruction::Beq { rs: 1, rt: 0, offset: -32768 }.disassemble(), "beq $at, $zero, -32768");
    assert_eq!(Instruction::Nop.disassemble(), "nop");
    assert_eq!(Instruction::Halt.disassemble(), "halt");
    assert_eq!(register_name(31), "$ra");
    assert_eq!(register_name(32), "$invalid");
    assert_eq!(DecodeError { word: 0xf800_0000 }.to_string(), "unsupported instruction word 0xf8000000");
}

#[test]
fn dependency_metadata() {
    assert_eq!(Instruction::Sw { rt: 5, base: 6, offset: 0 }.source_registers(), [Some(6), Some(5)]);
    assert_eq!(Instruction::Sll { rd: 1, rt: 2, shamt: 3 }.source_registers(), [Some(2), None]);
    assert_eq!(Instruction::J { target: 1 }.source_registers(), [None, None]);
    assert_eq!(Instruction::Lw { rt: 7, base: 1, offset: 0 }.destination_register(), Some(7));
    assert!(Instruction::Lw { rt: 7, base: 1, offset: 0 }.is_load());
    assert!(!Instruction::Sw { rt: 7, base: 1, offset: 0 }.is_load());
}

const fn xorshift(mut value: u64) -> u64 {
    value ^= value << 13;
    value ^= value >> 7;
    value ^= value << 17;
    value
}

#[test]
fn assembling_a_disassembly_gives_back_the_encoding() {
    let mut state = 0x0123_4567_89ab_cdef_u64;
    for _ in 0..500 {
        state = xorshift(state);
        let rd = ((state >> 3) & 31) as u8;
        let rs = ((state >> 11) & 31) as u8;
        let rt = ((state >> 19) & 31) as u8;
        let shamt = ((state >> 27) & 31) as u8;
        let bytes = state.to_le_bytes();
        let immediate = i16::from_le_bytes([bytes[0], bytes[1]]);
        let target = u32::from_le_bytes([bytes[0], bytes[1], bytes[2], bytes[3]]) & 0x03ff_ffff;
        let instructions = [
            Instruction::Nop,
            Instruction::Halt,
            Instruction::Addu { rd, rs, rt },
            Instruction::Slt { rd, rs, rt },
            Instruction::Sll { rd, rt, shamt },
            Instruction::Addiu { rt, rs, immediate },
            Instruction::Lw { rt, base: rs, offset: immediate },
            Instruction::Sw { rt, base: rs, offset: immediate },
            Instruction::J { target },
        ];
        for instruction in instructions {
            let source = format!("{}\n", instruction.disassemble());
            let program = mips_workbench::assemble(&source).expect("disassembly assembles");
            assert_eq!(program.words, vec![instruction.encode()], "{source}");
        }
    }
}
