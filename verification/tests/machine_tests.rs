use mips_workbench::{assemble, ExecutionError, Machine, RunSummary};

const HAZARD_DEMO: &str = "# Forwarding, a load-use interlock and a taken branch.
        li   $sp, 256
        li   $t0, 5
        li   $t1, 8
        addu $t2, $t0, $t1      # $t2 = 13
        sw   $t2, 0($sp)        # memory[256] = 13
        lw   $t3, 0($sp)        # $t3 = 13
        addu $t4, $t3, $t2      # load-use: $t4 = 26
        beq  $t3, $t2, skip     # taken
        li   $t4, 0
        li   $t4, 1
skip:   subu $t5, $t4, $t0      # $t5 = 21
        move $s0, $t5
        halt
";

const FIBONACCI: &str = "# Tenth Fibonacci number into $t2 and memory[512].
        li    $t0, 0
        li    $t1, 1
        li    $t3, 10
        li    $s0, 512
loop:   beq   $t3, $zero, done
        addu  $t2, $t0, $t1
        move  $t0, $t1
        move  $t1, $t2
        addiu $t3, $t3, -1
        j     loop
done:   move  $t2, $t0
        sw    $t2, 0($s0)
        halt
";

#[test]
fn reference_machine_executes_hazard_demo() {
    let program = assemble(HAZARD_DEMO).expect("assembles");
    let mut machine = Machine::from_program(&program);
    let summary = machine.run(100).expect("runs");
    assert_eq!(summary.retired, 11);
    assert_eq!(machine.register(12), 26);
    assert_eq!(machine.register(13), 21);
    assert_eq!(machine.memory_word(256), Some(13));
    assert_eq!(machine.register(0), 0);
}

#[test]
fn computes_tenth_fibonacci_value() {
    let program = assemble(FIBONACCI).expect("assembles");
    let mut machine = Machine::from_program(&program);
    machine.run(200).expect("runs");
    assert_eq!(machine.register(10), 55);
    assert_eq!(machine.memory_word(512), Some(55));
}

#[test]
fn rejects_unaligned_loads() {
    let program = assemble("li $t0, 3\nlw $t1, 0($t0)\nhalt\n").expect("assembles");
    let mut machine = Machine::from_program(&program);
    let Err(error) = machine.run(10) else {
        panic!("unaligned load was accepted");
    };
    assert_eq!(error, ExecutionError::MisalignedAddress { address: 3, operation: "load" });
}

#[test]
fn bounds_non_terminating_programs() {
    let program = assemble("loop: j loop\n").expect("assembles");
    let mut machine = Machine::from_program(&program);
    assert_eq!(machine.run(8), Err(ExecutionError::StepLimitExceeded { limit: 8 }));
}

#[test]
fn register_zero_ignores_writes_and_errors_leave_state_unchanged() {
    let program = assemble("li $zero, 7\naddiu $t0, $zero, -1\nsw $t0, 2($zero)\n").expect("assembles");
    let mut machine = Machine::from_program(&program);
    assert_eq!(machine.step(), Ok(mips_workbench::Instruction::Addiu { rt: 0, rs: 0, immediate: 7 }));
    assert_eq!(machine.register(0), 0);
    machine.step().expect("second step");
    assert_eq!(machine.register(8), u32::MAX);
    let before = machine.clone();
    assert_eq!(
        machine.step(),
        Err(ExecutionError::MisalignedAddress { address: 2, operation: "store" })
    );
    assert_eq!(machine, before);
    assert_eq!(machine.pc(), 8);
    assert!(!machine.is_halted());
    assert_eq!(machine.memory_word(3), None);
    assert_eq!(machine.memory_word(0x1000), Some(0));
    assert_eq!(machine.register(40), 0);
}

#[test]
fn arithmetic_wraps_and_slt_is_signed() {
    let program = assemble(
        "li $t0, -1\nli $t1, 1\naddu $t2, $t0, $t1\nsubu $t3, $zero, $t1\nslt $t4, $t0, $t1\nsll $t5, $t1, 31\nand $t6, $t0, $t5\nor $t7, $t1, $t5\nhalt\n",
    )
    .expect("assembles");
    let mut machine = Machine::from_program(&program);
    assert_eq!(machine.run(20), Ok(RunSummary { retired: 9, final_pc: 36 }));
    assert_eq!(machine.register(10), 0);
    assert_eq!(machine.register(11), u32::MAX);
    assert_eq!(machine.register(12), 1);
    assert_eq!(machine.register(13), 0x8000_0000);
    assert_eq!(machine.register(14), 0x8000_0000);
    assert_eq!(machine.register(15), 0x8000_0001);
    assert!(machine.is_halted());
    assert_eq!(machine.registers()[0], 0);
}

#[test]
fn unknown_words_and_error_texts() {
    let program = assemble(".word 0xfc000001\n").expect("assembles");
    let mut machine = Machine::from_program(&program);
    let error = machine.run(5).expect_err("bad word");
    assert_eq!(error, ExecutionError::Decode(mips_workbench::DecodeError { word: 0xfc00_0001 }));
    assert_eq!(error.to_string(), "unsupported instruction word 0xfc000001");
    assert_eq!(
        ExecutionError::MisalignedAddress { address: 3, operation: "load" }.to_string(),
        "load address 0x00000003 is not word-aligned"
    );
    assert_eq!(
        ExecutionError::StepLimitExceeded { limit: 8 }.to_string(),
        "execution exceeded the configured 8-step limit"
    );
    assert_eq!(machine.memory().len(), 1);
}

#[test]
fn cloned_machine_is_independent() {
    let program = assemble("li $t0, 5\nhalt\n").expect("assembles");
    let mut machine = Machine::from_program(&program);
    let snapshot = machine.clone();
    machine.run(10).expect("runs");
    assert_eq!(machine.register(8), 5);
    assert_eq!(snapshot.register(8), 0);
    assert_eq!(snapshot.pc(), 0);
    assert_eq!(snapshot.register(0), 0);
}
