use vortex_vm::assembler::{
    assemble_source, decode_instructions, deserialize_instruction, disassemble_bytecode,
    serialize_instruction,
    serialize_instructions, DecodeError,
};
use vortex_vm::instruction::Instruction;
use vortex_vm::run::{execute, execute_with_limit, Fault, MAX_STEPS};
use vortex_vm::spliter::{
    assemble_with_diagnostics, instruction_from_parts, split_instructions, Diagnostic,
};

fn run_program(program: &[Instruction]) -> (Vec<i32>, Vec<i32>, Vec<u8>) {
    let mut output = Vec::new();
    let (stack, mem) = execute(program, &mut output);
    (stack, mem, output)
}

#[test]
fn label_resolves_to_its_address() {
    let parsed = split_instructions("main:\nPUSH 10\nSUBS 1\nJNZ main\nRET");
    assert_eq!(parsed[2], Instruction::Jnz("0".to_string()));
}

#[test]
fn sub_takes_second_minus_top() {
    let (stack, _, _) =
        run_program(&[Instruction::Push(10), Instruction::Push(3), Instruction::Sub, Instruction::Ret]);
    assert_eq!(stack, vec![7]);
}

#[test]
fn divs_by_zero_leaves_value() {
    let (stack, _, _) = run_program(&[Instruction::Push(4), Instruction::DivS(0), Instruction::Ret]);
    assert_eq!(stack, vec![4]);
}

#[test]
fn div_by_zero_drops_both_operands() {
    let (stack, _, _) = run_program(&[
        Instruction::Push(9),
        Instruction::Push(4),
        Instruction::Push(0),
        Instruction::Div,
        Instruction::Ret,
    ]);
    assert_eq!(stack, vec![9]);
}

#[test]
fn memory_write_then_print_emits_hello() {
    let (_, mem, output) = run_program(&[
        Instruction::MemWrite(0, vec![72, 101, 108, 108, 111]),
        Instruction::Print(0, 5),
        Instruction::Ret,
    ]);
    assert_eq!(output, b"Hello".to_vec());
    assert_eq!(&mem[0..5], &[72, 101, 108, 108, 111]);
    assert_eq!(mem[5], 0);
}

#[test]
fn bulk_stack_write_keeps_push_order() {
    let (stack, mem, _) = run_program(&[
        Instruction::Push(5),
        Instruction::Dup,
        Instruction::Dup,
        Instruction::Dup,
        Instruction::MemWriteS(0, 4),
        Instruction::Ret,
    ]);
    assert_eq!(&mem[0..4], &[5, 5, 5, 5]);
    assert!(stack.is_empty());
}

#[test]
fn bulk_stack_write_of_distinct_values() {
    let (stack, mem, _) = run_program(&[
        Instruction::Push(7),
        Instruction::Push(1),
        Instruction::Push(2),
        Instruction::Push(3),
        Instruction::MemWriteS(100, 3),
        Instruction::Ret,
    ]);
    assert_eq!(&mem[100..103], &[1, 2, 3]);
    assert_eq!(stack, vec![7]);
}

#[test]
fn bulk_stack_write_with_short_stack_writes_what_there_is() {
    let (stack, mem, _) = run_program(&[
        Instruction::Push(8),
        Instruction::Push(9),
        Instruction::MemWriteS(10, 5),
        Instruction::Ret,
    ]);
    assert_eq!(&mem[10..13], &[8, 9, 0]);
    assert!(stack.is_empty());
}

#[test]
fn bulk_stack_write_out_of_bounds_is_skipped() {
    let (stack, mem, _) = run_program(&[
        Instruction::Push(1),
        Instruction::Push(2),
        Instruction::MemWriteS(2047, 2),
        Instruction::MemWriteS(-1, 1),
        Instruction::Ret,
    ]);
    assert_eq!(stack, vec![1, 2]);
    assert!(mem.iter().all(|&v| v == 0));
}

#[test]
fn taken_jump_past_the_end_stops_at_once() {
    let (stack, mem, output) = run_program(&[
        Instruction::Push(0),
        Instruction::Jiz("4".to_string()),
        Instruction::Push(99),
        Instruction::MemWrite(0, vec![1]),
    ]);
    assert_eq!(stack, vec![0]);
    assert_eq!(mem[0], 0);
    assert!(output.is_empty());
}

#[test]
fn taken_jump_to_a_label_name_stops_at_once() {
    let (stack, _, _) = run_program(&[
        Instruction::Push(3),
        Instruction::Jnz("nowhere".to_string()),
        Instruction::Push(99),
    ]);
    assert_eq!(stack, vec![3]);
}

#[test]
fn jump_not_taken_ignores_a_bad_target() {
    let (stack, _, _) = run_program(&[
        Instruction::Push(3),
        Instruction::Jiz("nowhere".to_string()),
        Instruction::Push(99),
    ]);
    assert_eq!(stack, vec![3, 99]);
}

#[test]
fn jump_target_may_carry_a_plus_sign() {
    let (stack, _, _) = run_program(&[
        Instruction::Push(0),
        Instruction::Jiz("+3".to_string()),
        Instruction::Push(99),
        Instruction::Push(7),
    ]);
    assert_eq!(stack, vec![0, 7]);
}

#[test]
fn arithmetic_wraps_around() {
    let (stack, _, _) = run_program(&[
        Instruction::Push(i32::MAX),
        Instruction::AddS(1),
        Instruction::Push(i32::MIN),
        Instruction::Push(-1),
        Instruction::Div,
        Instruction::Push(-7),
        Instruction::DivS(2),
        Instruction::Ret,
    ]);
    assert_eq!(stack, vec![i32::MIN, i32::MIN, -3]);
}

#[test]
fn memread_out_of_bounds_pushes_nothing() {
    let (stack, _, _) = run_program(&[
        Instruction::MemRead(2048),
        Instruction::MemRead(-1),
        Instruction::MemRead(2047),
        Instruction::Ret,
    ]);
    assert_eq!(stack, vec![0]);
}

#[test]
fn memwrite_is_cut_at_the_end_of_memory() {
    let (_, mem, _) = run_program(&[
        Instruction::MemWrite(2046, vec![1, 2, 3]),
        Instruction::MemWrite(-1, vec![4]),
        Instruction::MemWrite(2048, vec![5]),
    ]);
    assert_eq!(mem.len(), 2048);
    assert_eq!(&mem[2046..], &[1, 2]);
    assert!(mem[..2046].iter().all(|&v| v == 0));
}

#[test]
fn print_out_of_bounds_emits_nothing() {
    let (_, _, output) = run_program(&[
        Instruction::MemWrite(0, vec![65]),
        Instruction::Print(2040, 9),
        Instruction::Print(-1, 2),
        Instruction::Print(0, -1),
        Instruction::Print(0, 0),
    ]);
    assert!(output.is_empty());
}

#[test]
fn print_writes_low_byte_as_a_character() {
    let (_, _, output) = run_program(&[
        Instruction::MemWrite(0, vec![321, 233]),
        Instruction::Print(0, 2),
    ]);
    assert_eq!(String::from_utf8(output).unwrap(), "Aé");
}

#[test]
fn print_appends_to_the_buffer() {
    let mut output = b"> ".to_vec();
    execute(
        &[Instruction::MemWrite(0, vec![104, 105]), Instruction::Print(0, 2)],
        &mut output,
    );
    assert_eq!(output, b"> hi".to_vec());
}

#[test]
fn endless_loop_stops_at_the_step_limit() {
    let program = vec![Instruction::Push(1), Instruction::Jnz("0".to_string())];
    let mut output = Vec::new();
    let mut faults = Vec::new();
    let (stack, _) = execute_with_limit(&program, &mut output, &mut faults, 7);
    assert_eq!(stack, vec![1, 1, 1, 1]);
    assert!(faults.is_empty());
}

#[test]
fn empty_program_leaves_fresh_state() {
    let (stack, mem, output) = run_program(&[]);
    assert!(stack.is_empty());
    assert_eq!(mem, vec![0; 2048]);
    assert!(output.is_empty());
}

#[test]
fn later_label_definition_wins() {
    let parsed = split_instructions("x:\nPUSH 1\nx:\nPUSH 2\nJIZ x");
    assert_eq!(parsed[2], Instruction::Jiz("1".to_string()));
}

#[test]
fn dropped_lines_still_count_for_label_addresses() {
    let parsed = split_instructions("BOGUS 1\nPUSH\nend:\nRET\nJNZ end\nJIZ 7");
    assert_eq!(
        parsed,
        vec![
            Instruction::Ret,
            Instruction::Jnz("2".to_string()),
            Instruction::Jiz("7".to_string()),
        ]
    );
}

#[test]
fn malformed_operands_are_dropped() {
    let parsed = split_instructions(
        "PUSH 2147483648\nPUSH -2147483648\nADDS\nPRINT 1\nMEMWRITE x 1\nMEMWRITE 3 a -4 +5 -\nMEMREAD 1 2\nJIZ",
    );
    assert_eq!(
        parsed,
        vec![Instruction::Push(i32::MIN), Instruction::MemWrite(3, vec![-4, 5])]
    );
}

#[test]
fn extra_operands_after_a_bare_mnemonic_drop_the_line() {
    let parsed = split_instructions("add 5\n\tswap ; note\n  ; only a comment\n");
    assert_eq!(parsed, vec![Instruction::Swap]);
}

#[test]
fn label_with_spaces_before_the_colon() {
    let parsed = split_instructions("PUSH 0\n  top :  ; start\nJIZ top\r\nRET");
    assert_eq!(
        parsed,
        vec![Instruction::Push(0), Instruction::Jiz("1".to_string()), Instruction::Ret]
    );
}

#[test]
fn mnemonic_of_mixed_case_is_recognised() {
    let parsed = split_instructions("mEmWrItEs 1 2\nJnZ 0");
    assert_eq!(
        parsed,
        vec![Instruction::MemWriteS(1, 2), Instruction::Jnz("0".to_string())]
    );
}

#[test]
fn parts_with_upper_case_mnemonic() {
    let parts: Vec<Vec<char>> = vec!["print".chars().collect(), "4".chars().collect(), "2".chars().collect()];
    let upper: Vec<char> = "PRINT".chars().collect();
    assert_eq!(instruction_from_parts(&upper, &parts), Some(Instruction::Print(4, 2)));
    let lower: Vec<char> = "print".chars().collect();
    assert_eq!(instruction_from_parts(&lower, &parts), None);
}

#[test]
fn encoding_layout_is_little_endian() {
    let bytes = serialize_instructions(&[
        Instruction::Push(-2),
        Instruction::Jnz("12".to_string()),
        Instruction::MemWrite(1, vec![258]),
        Instruction::Print(3, 4),
    ])
    .unwrap();
    assert_eq!(
        bytes,
        vec![
            0x01, 0xFE, 0xFF, 0xFF, 0xFF, 0x07, b'1', b'2', 0, 0x10, 1, 0, 0, 0, 1, 0, 0, 0, 2, 1,
            0, 0, 0x13, 3, 0, 0, 0, 4, 0, 0, 0,
        ]
    );
}

#[test]
fn every_tag_round_trips() {
    let program = vec![
        Instruction::Null,
        Instruction::Push(i32::MIN),
        Instruction::Dup,
        Instruction::Swap,
        Instruction::Pop,
        Instruction::Ret,
        Instruction::Jiz("0".to_string()),
        Instruction::Jnz("été".to_string()),
        Instruction::AddS(-1),
        Instruction::Add,
        Instruction::SubS(2),
        Instruction::Sub,
        Instruction::MultS(3),
        Instruction::Mult,
        Instruction::DivS(4),
        Instruction::Div,
        Instruction::MemWrite(5, vec![]),
        Instruction::MemWriteS(6, 7),
        Instruction::MemRead(8),
        Instruction::Print(9, 10),
        Instruction::MemWrite(-5, vec![]),
    ];
    let bytes = serialize_instructions(&program).unwrap();
    assert_eq!(disassemble_bytecode(&bytes).unwrap(), program);
}

#[test]
fn serialize_instruction_appends() {
    let mut out = vec![0xAA];
    serialize_instruction(&Instruction::DivS(1), &mut out).unwrap();
    assert_eq!(out, vec![0xAA, 0x0E, 1, 0, 0, 0]);
}

#[test]
fn empty_bytecode_is_the_empty_program() {
    assert_eq!(disassemble_bytecode(&[]).unwrap(), Vec::<Instruction>::new());
    assert_eq!(assemble_source("; nothing\n\n").unwrap(), Vec::<u8>::new());
}

#[test]
fn truncated_bytecode_is_an_error() {
    assert_eq!(decode_instructions(&[0x01, 1, 2, 3]), Err(DecodeError::Truncated));
    assert_eq!(decode_instructions(&[0x13, 1, 2, 3, 4, 5]), Err(DecodeError::Truncated));
    assert_eq!(
        decode_instructions(&[0x10, 0, 0, 0, 0, 2, 0, 0, 0, 1, 0, 0, 0]),
        Err(DecodeError::Truncated)
    );
    assert!(disassemble_bytecode(&[0x05, 0x12]).is_err());
}

#[test]
fn unknown_tag_is_an_error() {
    assert_eq!(decode_instructions(&[0x05, 0x14]), Err(DecodeError::UnknownOpcode(0x14)));
    assert_eq!(
        disassemble_bytecode(&[0xFF]).unwrap_err(),
        "Unknown opcode: 0xFF".to_string()
    );
}

#[test]
fn unterminated_target_is_an_error() {
    assert_eq!(decode_instructions(&[0x06, b'1', b'2']), Err(DecodeError::UnterminatedText));
}

#[test]
fn target_that_is_not_utf8_is_an_error() {
    assert_eq!(decode_instructions(&[0x07, 0xC0, 0x80, 0]), Err(DecodeError::InvalidText));
}

#[test]
fn decoded_target_is_the_text() {
    assert_eq!(
        decode_instructions(&[0x06, 0xC3, 0xA9, b'x', 0]),
        Ok(vec![Instruction::Jiz("éx".to_string())])
    );
}

#[test]
fn error_messages_are_sentences() {
    assert!(!DecodeError::Truncated.message().is_empty());
    assert_eq!(DecodeError::UnknownOpcode(0x2A).message(), "Unknown opcode: 0x2A");
}

#[test]
fn run_reports_faults_in_order() {
    let program = vec![
        Instruction::Pop,
        Instruction::Push(6),
        Instruction::DivS(0),
        Instruction::Add,
        Instruction::MemRead(5000),
        Instruction::Print(2047, 2),
        Instruction::MemWriteS(0, 3),
        Instruction::Push(0),
        Instruction::Push(0),
        Instruction::Div,
        Instruction::MemWrite(-3, vec![1]),
        Instruction::Push(0),
        Instruction::Jiz("40".to_string()),
        Instruction::Push(1),
    ];
    let mut output = Vec::new();
    let mut faults = Vec::new();
    let (stack, _) = execute_with_limit(&program, &mut output, &mut faults, MAX_STEPS);
    assert_eq!(
        faults,
        vec![
            Fault::StackUnderflow(0),
            Fault::DivisionByZero(2),
            Fault::StackUnderflow(3),
            Fault::OutOfBounds(4),
            Fault::OutOfBounds(5),
            Fault::StackUnderflow(6),
            Fault::DivisionByZero(9),
            Fault::OutOfBounds(10),
            Fault::InvalidJump(12),
        ]
    );
    assert_eq!(stack, vec![0]);
}

#[test]
fn clean_run_reports_no_fault() {
    let program = split_instructions("PUSH 2\nDUP\nMULT\nMEMWRITES 0 1\nPRINT 0 1\nRET");
    let mut output = Vec::new();
    let mut faults = vec![Fault::InvalidJump(99)];
    let (stack, mem) = execute_with_limit(&program, &mut output, &mut faults, MAX_STEPS);
    assert_eq!(faults, vec![Fault::InvalidJump(99)]);
    assert!(stack.is_empty());
    assert_eq!(mem[0], 4);
    assert_eq!(output, vec![4]);
}

#[test]
fn assembler_reports_dropped_lines_and_unresolved_targets() {
    let (program, diagnostics) =
        assemble_with_diagnostics("; header\nPUSH x\nloop:\nFROB\nJNZ loop\nJIZ nowhere\nJIZ 12\n");
    assert_eq!(
        program,
        vec![
            Instruction::Jnz("1".to_string()),
            Instruction::Jiz("nowhere".to_string()),
            Instruction::Jiz("12".to_string()),
        ]
    );
    assert_eq!(
        diagnostics,
        vec![
            Diagnostic::DroppedLine(1),
            Diagnostic::DroppedLine(3),
            Diagnostic::UnresolvedTarget(1),
        ]
    );
}

#[test]
fn clean_source_has_no_diagnostics() {
    let (program, diagnostics) = assemble_with_diagnostics("top:\nPUSH 1\nJNZ top");
    assert_eq!(program.len(), 2);
    assert!(diagnostics.is_empty());
}

#[test]
fn operand_after_bare_mnemonic_drops_line() {
    let (program, diagnostics) = assemble_with_diagnostics("ADD 5\nRET");
    assert_eq!(program, vec![Instruction::Ret]);
    assert_eq!(diagnostics, vec![Diagnostic::DroppedLine(0)]);
    assert_eq!(split_instructions("push 1\npop 2\ndup\nswap x\nret 0\nRET"), vec![
        Instruction::Push(1),
        Instruction::Dup,
        Instruction::Ret,
    ]);
    let words = |ws: &[&str]| -> Vec<Vec<char>> { ws.iter().map(|w| w.chars().collect()).collect() };
    let mnemonic: Vec<char> = "MULT".chars().collect();
    assert_eq!(instruction_from_parts(&mnemonic, &words(&["mult"])), Some(Instruction::Mult));
    assert_eq!(instruction_from_parts(&mnemonic, &words(&["mult", "2"])), None);
}

#[test]
fn decoding_at_or_past_the_end_is_truncated() {
    assert_eq!(deserialize_instruction(&[], 0), Err(DecodeError::Truncated));
    assert_eq!(deserialize_instruction(&[0x05], 1), Err(DecodeError::Truncated));
    assert_eq!(deserialize_instruction(&[0x05], 7), Err(DecodeError::Truncated));
    assert_eq!(deserialize_instruction(&[0x05, 0x09], 1), Ok((Instruction::Add, 1)));
}

#[test]
fn sub_takes_second_from_top_as_left_operand() {
    let (stack, _, _) = run_program(&[
        Instruction::Push(-5),
        Instruction::Push(3),
        Instruction::Sub,
        Instruction::Ret,
    ]);
    assert_eq!(stack, vec![-8]);
}

#[test]
fn scaled_division_keeps_stack_height() {
    let (stack, _, _) = run_program(&[
        Instruction::Push(1),
        Instruction::Push(-9),
        Instruction::DivS(2),
        Instruction::DivS(0),
        Instruction::Ret,
    ]);
    assert_eq!(stack, vec![1, -4]);
}

#[test]
fn bulk_stack_write_below_other_values() {
    let (stack, memory, _) = run_program(&[
        Instruction::Push(9),
        Instruction::Push(1),
        Instruction::Push(2),
        Instruction::Push(3),
        Instruction::MemWriteS(10, 3),
        Instruction::Ret,
    ]);
    assert_eq!(stack, vec![9]);
    assert_eq!(&memory[9..14], &[0, 1, 2, 3, 0]);
}

#[test]
fn taken_jump_past_end_stops_after_earlier_output() {
    let (stack, _, output) = run_program(&[
        Instruction::MemWrite(0, vec![65]),
        Instruction::Print(0, 1),
        Instruction::Push(7),
        Instruction::Jnz("99".to_string()),
        Instruction::Push(8),
        Instruction::Print(0, 1),
    ]);
    assert_eq!(stack, vec![7]);
    assert_eq!(output, b"A".to_vec());
}
