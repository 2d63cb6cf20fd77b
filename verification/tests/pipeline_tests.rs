use mips_workbench::{assemble, Machine, PipelineError, PipelineResult, PipelineSimulator};

const HAZARD_DEMO: &str = "# Forwarding, a load-use interlock and a taken branch.
        li   $sp, 256
        li   $t0, 5
        li   $t1, 8
        addu $t2, $t0, $t1      # $t2 = 13
        sw   $t2, 0($sp)        # memory[256] = 13
        lw   $t3, 0($sp)        # $t3 = 13
        addu $t4, $t3, $t2      # load-use: $t4 = 26
        beq  $t3, $t2, skip     # taken
        li   $t4, 0
        li   $t4, 1
skip:   subu $t5, $t4, $t0      # $t5 = 21
        move $s0, $t5
        halt
";

const FIBONACCI: &str = "# Tenth Fibonacci number into $t2 and memory[512].
        li    $t0, 0
        li    $t1, 1
        li    $t3, 10
        li    $s0, 512
loop:   beq   $t3, $zero, done
        addu  $t2, $t0, $t1
        move  $t0, $t1
        move  $t1, $t2
        addiu $t3, $t3, -1
        j     loop
done:   move  $t2, $t0
        sw    $t2, 0($s0)
        halt
";

const CACHE_WALK: &str = "# Walks eight 16-byte blocks, storing and reloading each.
        li    $s0, 0x100
        li    $t0, 0
        li    $t1, 8
walk:   sw    $t0, 0($s0)
        lw    $t2, 0($s0)
        addu  $t3, $t3, $t2
        addiu $s0, $s0, 16
        addiu $t0, $t0, 1
        bne   $t0, $t1, walk
        sw    $t3, 0($s0)
        halt
";

fn cpi_text(result: &PipelineResult) -> String {
    let cpi = if result.retired == 0 { 0.0 } else { result.cycles.len() as f64 / result.retired as f64 };
    format!("{cpi:.4}")
}

#[test]
fn pipeline_matches_reference_for_all_examples() {
    for source in [HAZARD_DEMO, FIBONACCI, CACHE_WALK] {
        let program = assemble(source).expect("assembles");
        let mut reference = Machine::from_program(&program);
        reference.run(1_000).expect("reference runs");
        let pipelined = PipelineSimulator::default().run(&program).expect("pipeline runs");
        assert_eq!(&pipelined.registers, reference.registers());
        assert_eq!(&pipelined.memory, reference.memory());
    }
}

#[test]
fn inserts_one_load_use_stall_and_records_control_flushes() {
    let program = assemble(HAZARD_DEMO).expect("assembles");
    let result = PipelineSimulator::default().run(&program).expect("runs");
    assert_eq!(result.stalls, 1);
    assert!(result.flushes >= 2);
    assert!(
        result
            .cycles
            .iter()
            .any(|cycle| cycle.event.as_deref().is_some_and(|event| event.contains("load-use")))
    );
    assert!(result.cycles.iter().any(|cycle| {
        cycle.event.as_deref().is_some_and(|event| event.contains("control hazard"))
    }));
}

#[test]
fn forwarding_avoids_unnecessary_arithmetic_stalls() {
    let program =
        assemble("li $t0, 2\naddiu $t1, $t0, 3\naddu $t2, $t1, $t0\nsubu $t3, $t2, $t0\nhalt\n")
            .expect("assembles");
    let result = PipelineSimulator::default().run(&program).expect("runs");
    assert_eq!(result.stalls, 0);
    assert_eq!(result.registers[11], 5);
}

#[test]
fn trace_is_valid_json_shape_without_unbounded_content() {
    let program = assemble("li $t0, 7\nhalt\n").expect("assembles");
    let simulator = PipelineSimulator { max_trace_cycles: 3, ..PipelineSimulator::default() };
    let result = simulator.run(&program).expect("runs");
    let json = result.to_json(&cpi_text(&result));
    assert!(json.starts_with("{\"schemaVersion\":1"));
    assert!(json.contains("\"registers\":[0,0,0,0,0,0,0,0,7"));
    assert!(result.cycles.len() <= 3);
}

#[test]
fn bounds_pipeline_cycles() {
    let program = assemble("loop: j loop\n").expect("assembles");
    let simulator = PipelineSimulator { max_cycles: 4, ..PipelineSimulator::default() };
    assert_eq!(simulator.run(&program), Err(PipelineError::CycleLimitExceeded { limit: 4 }));
}

#[test]
fn generated_straight_line_programs_match_reference() {
    for seed in 1..=128_i16 {
        let source = format!(
            "li $t0, {seed}\naddiu $t1, $t0, 7\naddu $t2, $t0, $t1\nsubu $t3, $t2, $t0\nand $t4, $t2, $t3\nor $t5, $t4, $t0\nhalt\n"
        );
        let program = assemble(&source).expect("assembles");
        let mut reference = Machine::from_program(&program);
        reference.run(100).expect("reference runs");
        let pipelined = PipelineSimulator::default().run(&program).expect("pipeline runs");
        assert_eq!(pipelined.registers, *reference.registers());
    }
}

#[test]
fn hazard_demo_timing_and_trace_rows() {
    let program = assemble(HAZARD_DEMO).expect("assembles");
    let result = PipelineSimulator::default().run(&program).expect("runs");
    assert_eq!(result.retired, 11);
    assert_eq!(result.stalls, 1);
    assert_eq!(result.flushes, 4);
    assert_eq!(result.cycles.len(), 18);
    assert_eq!(result.registers[0], 0);
    let first = &result.cycles[0];
    assert_eq!(first.cycle, 1);
    assert_eq!(first.fetch.as_deref(), Some("0x00000000: addiu $sp, $zero, 256"));
    assert_eq!(first.decode, None);
    let halt_row = result.cycles.iter().find(|c| c.event.as_deref() == Some("halt: younger instructions flushed"));
    assert!(halt_row.is_some());
    assert!(result
        .cycles
        .iter()
        .any(|c| c.event.as_deref() == Some("control hazard: flushed 2 slot(s)")));
    let json = result.to_json("1.6364");
    assert!(json.contains("\"summary\":{\"cycles\":18,\"retired\":11,\"stalls\":1,\"flushes\":4,\"cpi\":1.6364,"));
    assert!(json.contains("{\"cycle\":1,\"fetch\":\"0x00000000: addiu $sp, $zero, 256\",\"decode\":null"));
    assert!(json.ends_with("]}"));
}

#[test]
fn pipeline_errors_are_reported() {
    let misaligned = assemble("li $t0, 2\nsw $t0, 1($t0)\nhalt\n").expect("assembles");
    let error = PipelineSimulator::default().run(&misaligned).expect_err("store fails");
    assert_eq!(error.to_string(), "store address 0x00000003 is not word-aligned");
    let bad = assemble(".word 0x3e << 26\n");
    assert!(bad.is_err());
    let unknown = assemble(".word 0xf8000000\n").expect("assembles");
    let error = PipelineSimulator::default().run(&unknown).expect_err("decode fails");
    assert_eq!(error, PipelineError::Decode(mips_workbench::DecodeError { word: 0xf800_0000 }));
    assert_eq!(
        PipelineError::CycleLimitExceeded { limit: 4 }.to_string(),
        "pipeline exceeded the configured 4-cycle limit"
    );
}

#[test]
fn completed_pipeline_runs_agree_with_reference_summary() {
    for source in [HAZARD_DEMO, FIBONACCI, CACHE_WALK] {
        let program = assemble(source).expect("assembles");
        let pipelined = PipelineSimulator::default().run(&program).expect("pipeline runs");
        let mut reference = Machine::from_program(&program);
        let summary = reference.run(pipelined.retired).expect("reference halts within the budget");
        assert_eq!(summary.retired, pipelined.retired);
        assert_eq!(summary.final_pc, pipelined.final_pc.wrapping_sub(4));
        assert_eq!(&pipelined.registers, reference.registers());
        assert_eq!(&pipelined.memory, reference.memory());
        assert!(reference.is_halted());
    }
}

#[test]
fn store_over_an_already_fetched_instruction_diverges() {
    // The store rewrites the `addiu` right behind it, which the pipeline has already fetched.
    let program = assemble(
        "lw $t0, 16($zero)\nsw $t0, 8($zero)\naddiu $t1, $zero, 1\nhalt\n.word 0x2409002a\n",
    )
    .expect("assembles");
    let pipelined = PipelineSimulator::default().run(&program).expect("pipeline runs");
    let mut reference = Machine::from_program(&program);
    reference.run(100).expect("reference runs");
    assert_eq!(pipelined.registers[9], 1);
    assert_eq!(reference.register(9), 42);
}

#[test]
fn store_over_a_discarded_instruction_still_agrees() {
    // The store rewrites the word behind the jump, which the pipeline fetched and then discards.
    let program = assemble(
        "lw $t0, 20($zero)\nsw $t0, 12($zero)\nj done\naddiu $t1, $zero, 1\ndone: halt\n.word 0x2409002a\n",
    )
    .expect("assembles");
    let pipelined = PipelineSimulator::default().run(&program).expect("pipeline runs");
    let mut reference = Machine::from_program(&program);
    reference.run(100).expect("reference runs");
    assert_eq!(&pipelined.registers, reference.registers());
    assert_eq!(&pipelined.memory, reference.memory());
    assert_eq!(reference.memory_word(12), Some(0x2409_002a));
}
