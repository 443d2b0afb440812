use vortex_vm::assembler::{
    assemble_source, deserialize_instructions, disassemble_bytecode, serialize_instructions,
};
use vortex_vm::instruction::Instruction;

#[test]
fn test_assemble_basic_instructions() {
    let source = "PUSH 42\nADD\nRET";
    let bytecode = assemble_source(source).unwrap();
    let instructions = disassemble_bytecode(&bytecode).unwrap();

    assert_eq!(instructions, vec![
        Instruction::Push(42),
        Instruction::Add,
        Instruction::Ret,
    ]);
}

#[test]
fn test_assemble_jump_instructions() {
    let source = "JIZ main\nJNZ end";
    let bytecode = assemble_source(source).unwrap();
    let instructions = disassemble_bytecode(&bytecode).unwrap();

    assert_eq!(instructions, vec![
        Instruction::Jiz("main".to_string()),
        Instruction::Jnz("end".to_string()),
    ]);
}

#[test]
fn test_assemble_memory_instructions() {
    let source = "MemWrite 0 72 101 108 108 111\nPrint 0 5";
    let bytecode = assemble_source(source).unwrap();
    let instructions = disassemble_bytecode(&bytecode).unwrap();

    assert_eq!(instructions, vec![
        Instruction::MemWrite(0, vec![72, 101, 108, 108, 111]),
        Instruction::Print(0, 5),
    ]);
}

#[test]
fn test_assemble_with_labels() {
    let source = "
            main:
            PUSH 10
            SUBS 1
            JNZ main
            RET
        ";
    let bytecode = assemble_source(source).unwrap();
    let instructions = disassemble_bytecode(&bytecode).unwrap();

    // Label "main" should be resolved to address "0"
    assert_eq!(instructions, vec![
        Instruction::Push(10),
        Instruction::SubS(1),
        Instruction::Jnz("0".to_string()),
        Instruction::Ret,
    ]);
}

#[test]
fn test_round_trip() {
    let program = vec![
        Instruction::Push(123),
        Instruction::Dup,
        Instruction::Add,
        Instruction::MemWrite(0, vec![1, 2, 3]),
        Instruction::Print(0, 3),
        Instruction::Jiz("5".to_string()),
        Instruction::Ret,
    ];

    let bytecode = serialize_instructions(&program).unwrap();
    let decoded_instructions = deserialize_instructions(&bytecode).unwrap();

    assert_eq!(program, decoded_instructions);
}
