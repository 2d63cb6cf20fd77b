use mips_workbench::{assemble, Instruction};

#[test]
fn resolves_forward_and_backward_labels() {
    let program = assemble(
        "start: addiu $t0, $zero, 1\n\
         bne $t0, $zero, start\n\
         j done\n\
         done: halt\n",
    )
    .expect("program assembles");
    assert_eq!(program.symbol("start"), Some(0));
    assert_eq!(program.symbol("done"), Some(12));
    assert_eq!(
        Instruction::decode(program.words[1]).expect("decodes"),
        Instruction::Bne { rs: 8, rt: 0, offset: -2 }
    );
    assert_eq!(Instruction::decode(program.words[2]).expect("decodes"), Instruction::J { target: 3 });
}

#[test]
fn expands_single_word_pseudo_instructions() {
    let program = assemble("li $s0, -12\nmove $s1, $s0\nnop\nhalt\n").expect("program assembles");
    assert_eq!(
        Instruction::decode(program.words[0]).expect("decodes"),
        Instruction::Addiu { rt: 16, rs: 0, immediate: -12 }
    );
    assert_eq!(
        Instruction::decode(program.words[1]).expect("decodes"),
        Instruction::Addu { rd: 17, rs: 16, rt: 0 }
    );
}

#[test]
fn preserves_precise_line_numbers_for_invalid_input() {
    let Err(error) = assemble("nop\naddiu $missing, $zero, 1\n") else {
        panic!("invalid register was accepted");
    };
    assert_eq!(error.line, 2);
    assert!(error.message.contains("invalid register"));
}

#[test]
fn rejects_duplicate_labels() {
    let Err(error) = assemble("same: nop\nsame: halt\n") else {
        panic!("duplicate label was accepted");
    };
    assert_eq!(error.line, 2);
    assert!(error.message.contains("duplicate label"));
}

#[test]
fn emits_literal_words() {
    let program = assemble(".word 0x1234abcd\n").expect("program assembles");
    assert_eq!(program.words, [0x1234_abcd]);
}

#[test]
fn records_source_lines_and_skips_comments_and_blank_lines() {
    let program = assemble("# header\n\nstart:\n  nop # idle\n\thalt\r\n").expect("assembles");
    assert_eq!(program.words, vec![0, 0x3f << 26]);
    assert_eq!(program.source_lines, vec![4, 5]);
    assert_eq!(program.symbol("start"), Some(0));
    assert_eq!(program.symbol("missing"), None);
}

#[test]
fn reports_each_assembler_error_with_its_message() {
    let cases: [(&str, usize, &str); 14] = [
        ("a: b: nop\n", 1, "only one label is allowed per line"),
        ("9lives: nop\n", 1, "invalid label `9lives`"),
        (",\n", 1, "missing instruction"),
        ("nop 1\n", 1, "expected 0 operand(s), received 1"),
        ("addu $t0, $t1\n", 1, "expected 3 operand(s), received 2"),
        ("frob $t0\n", 1, "unknown instruction `frob`"),
        ("addiu $t0, $t0, 40000\n", 1, "`40000` is outside the i16 range"),
        ("addiu $t0, $t0, ten\n", 1, "invalid integer `ten`"),
        ("sll $t0, $t0, 32\n", 1, "shift amount `32` must be between 0 and 31"),
        (".word -1\n", 1, "`-1` is outside the u32 range"),
        ("nop\nbeq $t0, $t0, 6\n", 2, "branch target must be word-aligned"),
        ("beq $t0, $t0, 0x40000\n", 1, "branch target is outside the signed 16-bit range"),
        ("j 6\n", 1, "jump target must be word-aligned"),
        ("lw $t0, 0($t99)\n", 1, "invalid register `$t99`"),
    ];
    for (source, line, message) in cases {
        let Err(error) = assemble(source) else {
            panic!("accepted {source:?}");
        };
        assert_eq!(error.line, line, "{source:?}");
        assert_eq!(error.message, message, "{source:?}");
        assert_eq!(error.to_string(), format!("line {line}: {message}"));
    }
}

#[test]
fn accepts_register_spellings_and_integer_forms() {
    let program = assemble(
        "ADDU $T0, $8, $s8\nli $29, 0x7fff\nli $a0, -0x8000\nli $k1, +12\nlw $ra, -4($sp)\n.word 4294967295\n",
    )
    .expect("assembles");
    assert_eq!(Instruction::decode(program.words[0]).unwrap(), Instruction::Addu { rd: 8, rs: 8, rt: 30 });
    assert_eq!(
        Instruction::decode(program.words[1]).unwrap(),
        Instruction::Addiu { rt: 29, rs: 0, immediate: 0x7fff }
    );
    assert_eq!(
        Instruction::decode(program.words[2]).unwrap(),
        Instruction::Addiu { rt: 4, rs: 0, immediate: -0x8000 }
    );
    assert_eq!(
        Instruction::decode(program.words[3]).unwrap(),
        Instruction::Addiu { rt: 27, rs: 0, immediate: 12 }
    );
    assert_eq!(
        Instruction::decode(program.words[4]).unwrap(),
        Instruction::Lw { rt: 31, base: 29, offset: -4 }
    );
    assert_eq!(program.words[5], u32::MAX);
}

#[test]
fn symbols_are_listed_in_name_order() {
    let program = assemble("zeta: nop\nalpha: nop\nBeta: nop\nalp: halt\n").expect("assembles");
    let names: Vec<(&str, u32)> =
        program.symbols.iter().map(|(name, address)| (name.as_str(), *address)).collect();
    assert_eq!(names, vec![("Beta", 8), ("alp", 12), ("alpha", 4), ("zeta", 0)]);
}

#[test]
fn every_register_name_and_number_assembles() {
    for index in 0..32_u8 {
        let by_name = format!("addu {}, $zero, $zero\n", mips_workbench::register_name(index));
        let by_number = format!("addu ${index}, $zero, $zero\n");
        for source in [by_name, by_number] {
            let program = assemble(&source).expect("assembles");
            assert_eq!(
                Instruction::decode(program.words[0]).expect("decodes"),
                Instruction::Addu { rd: index, rs: 0, rt: 0 }
            );
        }
    }
    let error = assemble("addu $32, $zero, $zero\n").expect_err("no register 32");
    assert_eq!(error.line, 1);
    assert!(error.message.contains("invalid register"));
}
