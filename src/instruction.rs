//! The instruction set and its mathematical model.
use vstd::prelude::*;

verus! {

/// One machine instruction. A program is a sequence of these; the n-th
/// instruction sits at address n.
#[derive(Debug, Clone, PartialEq, Eq)]
pub enum Instruction {
    Null,
    Push(i32),
    Dup,
    Swap,
    Pop,
    Ret,
    Jiz(String),
    Jnz(String),
    AddS(i32),
    Add,
    SubS(i32),
    Sub,
    MultS(i32),
    Mult,
    DivS(i32),
    Div,
    MemWrite(i32, Vec<i32>),
    MemWriteS(i32, i32),
    MemRead(i32),
    Print(i32, i32),
}

/// The value an [`Instruction`] stands for: jump targets as characters and
/// the values of a bulk write as a sequence.
pub enum Op {
    Null,
    Push(i32),
    Dup,
    Swap,
    Pop,
    Ret,
    Jiz(Seq<char>),
    Jnz(Seq<char>),
    AddS(i32),
    Add,
    SubS(i32),
    Sub,
    MultS(i32),
    Mult,
    DivS(i32),
    Div,
    MemWrite(i32, Seq<i32>),
    MemWriteS(i32, i32),
    MemRead(i32),
    Print(i32, i32),
}

impl View for Instruction {
    type V = Op;

    open spec fn view(&self) -> Op {
        match self {
            Instruction::Null => Op::Null,
            Instruction::Push(v) => Op::Push(*v),
            Instruction::Dup => Op::Dup,
            Instruction::Swap => Op::Swap,
            Instruction::Pop => Op::Pop,
            Instruction::Ret => Op::Ret,
            Instruction::Jiz(t) => Op::Jiz(t@),
            Instruction::Jnz(t) => Op::Jnz(t@),
            Instruction::AddS(n) => Op::AddS(*n),
            Instruction::Add => Op::Add,
            Instruction::SubS(n) => Op::SubS(*n),
            Instruction::Sub => Op::Sub,
            Instruction::MultS(n) => Op::MultS(*n),
            Instruction::Mult => Op::Mult,
            Instruction::DivS(n) => Op::DivS(*n),
            Instruction::Div => Op::Div,
            Instruction::MemWrite(a, vs) => Op::MemWrite(*a, vs@),
            Instruction::MemWriteS(a, n) => Op::MemWriteS(*a, *n),
            Instruction::MemRead(a) => Op::MemRead(*a),
            Instruction::Print(a, n) => Op::Print(*a, *n),
        }
    }
}

/// The model of a whole program.
pub open spec fn program_view(p: Seq<Instruction>) -> Seq<Op> {
    p.map_values(|i: Instruction| i@)
}

/// The model of an optional instruction.
pub open spec fn option_view(r: Option<Instruction>) -> Option<Op> {
    match r {
        Some(i) => Some(i@),
        None => None,
    }
}

} // verus!
