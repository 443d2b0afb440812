//! The interpreter: runs a program against an operand stack, a linear memory
//! of `MEMORY_SIZE` cells and an output buffer.
//!
//! Arithmetic wraps around on overflow, in two's complement. Memory accesses
//! outside `0..MEMORY_SIZE` are skipped: a read there pushes nothing, a write
//! or print there does nothing. A conditional jump that is taken toward an
//! address that is not in the program stops the run. Each of these, and each
//! instruction that finds too few values on the stack or divides by zero,
//! is reported as a [`Fault`] by [`execute_with_limit`].
use crate::instruction::{Instruction, Op, program_view};
use crate::text::{chars_of, jump_target, target_address};
use vstd::prelude::*;
use vstd::wrapping::i32_specs::{wrapping_add, wrapping_mul, wrapping_sub};

verus! {

/// The number of memory cells.
pub const MEMORY_SIZE: usize = 2048;

/// The number of instructions after which [`execute`] stops a run that has
/// not stopped by itself.
pub const MAX_STEPS: u64 = 0xFFFF_FFFF_FFFF_FFFF;

/// The state of the machine between two instructions.
pub struct Machine {
    /// The address of the next instruction; at or past the program's end the
    /// machine has stopped.
    pub pc: nat,
    pub stack: Seq<i32>,
    pub mem: Seq<i32>,
    /// The bytes printed so far.
    pub out: Seq<u8>,
}

/// The state a run starts in.
pub open spec fn initial_machine() -> Machine {
    Machine { pc: 0, stack: seq![], mem: Seq::new(MEMORY_SIZE as nat, |i: int| 0i32), out: seq![] }
}

/// `a` divided by `b`, rounded toward zero; the one quotient that does not
/// fit, `i32::MIN / -1`, wraps around to `i32::MIN`.
pub open spec fn quotient(a: i32, b: i32) -> i32 {
    let m = if a < 0 {
        -a
    } else {
        a as int
    };
    let d = if b < 0 {
        -b
    } else {
        b as int
    };
    let q = if (a < 0) == (b < 0) {
        m / d
    } else {
        -(m / d)
    };
    if q > i32::MAX {
        i32::MIN
    } else {
        q as i32
    }
}

/// `stack` with its top replaced by `v`.
pub open spec fn with_top(stack: Seq<i32>, v: i32) -> Seq<i32> {
    stack.drop_last().push(v)
}

/// `stack` with its top two values replaced by `v`.
pub open spec fn with_top_two(stack: Seq<i32>, v: i32) -> Seq<i32> {
    stack.take(stack.len() - 2).push(v)
}

/// Whether `[addr, addr + len)` lies in memory.
pub open spec fn in_memory(addr: i32, len: i32) -> bool {
    0 <= addr && 0 <= len && addr + len <= MEMORY_SIZE
}

/// How many values a stack-to-memory write of `len` values takes from a
/// stack of `height` values.
pub open spec fn taken(height: nat, len: i32) -> int {
    if len <= height {
        len as int
    } else {
        height as int
    }
}

/// The memory after writing `vals` from `addr` on; values past the end of
/// memory are dropped, and an address outside memory writes nothing.
pub open spec fn mem_after_write(mem: Seq<i32>, addr: i32, vals: Seq<i32>) -> Seq<i32> {
    if 0 <= addr < mem.len() {
        Seq::new(
            mem.len(),
            |k: int|
                if addr <= k < addr + vals.len() {
                    vals[k - addr]
                } else {
                    mem[k]
                },
        )
    } else {
        mem
    }
}

/// The memory after a stack-to-memory write: the top values of the stack
/// land from `addr` on, in the order they were pushed.
pub open spec fn mem_after_stack_write(stack: Seq<i32>, mem: Seq<i32>, addr: i32, len: i32) -> Seq<
    i32,
> {
    if in_memory(addr, len) {
        let k = taken(stack.len(), len);
        let base = stack.len() - k;
        Seq::new(
            mem.len(),
            |j: int|
                if addr <= j < addr + k {
                    stack[base + j - addr]
                } else {
                    mem[j]
                },
        )
    } else {
        mem
    }
}

/// The UTF-8 encoding of the character whose code is `b`.
pub open spec fn char_bytes(b: u8) -> Seq<u8> {
    if b < 0x80 {
        seq![b]
    } else {
        seq![(0xC0 + b / 64) as u8, (0x80 + b % 64) as u8]
    }
}

/// What printing `len` cells from `addr` on emits: for each cell, the
/// character whose code is the cell's low byte.
pub open spec fn printed(mem: Seq<i32>, addr: int, len: nat) -> Seq<u8>
    decreases len,
{
    if len == 0 {
        seq![]
    } else {
        printed(mem, addr, (len - 1) as nat) + char_bytes(mem[addr + len - 1] as u8)
    }
}

/// Whether a conditional jump is taken on `stack`.
pub open spec fn jump_taken(op: Op, stack: Seq<i32>) -> bool {
    match op {
        Op::Jiz(_) => stack.len() > 0 && stack.last() == 0,
        Op::Jnz(_) => stack.len() > 0 && stack.last() != 0,
        _ => false,
    }
}

/// Where a jump toward `t` in a program of `len` instructions leads: to its
/// address, or past the end, which stops the machine, when `t` names no
/// address of the program.
pub open spec fn jump_destination(t: Seq<char>, len: nat) -> nat {
    match jump_target(t, len) {
        Some(a) => a,
        None => len,
    }
}

/// The address of the instruction after `op`, which sits at `pc`.
pub open spec fn next_pc(op: Op, pc: nat, stack: Seq<i32>, len: nat) -> nat {
    match op {
        Op::Ret => len,
        Op::Jiz(t) => if jump_taken(op, stack) {
            jump_destination(t, len)
        } else {
            pc + 1
        },
        Op::Jnz(t) => if jump_taken(op, stack) {
            jump_destination(t, len)
        } else {
            pc + 1
        },
        _ => pc + 1,
    }
}

/// The stack after `op`.
pub open spec fn next_stack(op: Op, stack: Seq<i32>, mem: Seq<i32>) -> Seq<i32> {
    let n = stack.len();
    match op {
        Op::Push(v) => stack.push(v),
        Op::Pop => if n > 0 {
            stack.drop_last()
        } else {
            stack
        },
        Op::Dup => if n > 0 {
            stack.push(stack.last())
        } else {
            stack
        },
        Op::Swap => if n >= 2 {
            stack.take(n - 2).push(stack[n - 1]).push(stack[n - 2])
        } else {
            stack
        },
        Op::AddS(v) => if n > 0 {
            with_top(stack, wrapping_add(stack.last(), v))
        } else {
            stack
        },
        Op::SubS(v) => if n > 0 {
            with_top(stack, wrapping_sub(stack.last(), v))
        } else {
            stack
        },
        Op::MultS(v) => if n > 0 {
            with_top(stack, wrapping_mul(stack.last(), v))
        } else {
            stack
        },
        Op::DivS(v) => if n > 0 && v != 0 {
            with_top(stack, quotient(stack.last(), v))
        } else {
            stack
        },
        Op::Add => if n >= 2 {
            with_top_two(stack, wrapping_add(stack[n - 2], stack[n - 1]))
        } else {
            stack
        },
        Op::Sub => if n >= 2 {
            with_top_two(stack, wrapping_sub(stack[n - 2], stack[n - 1]))
        } else {
            stack
        },
        Op::Mult => if n >= 2 {
            with_top_two(stack, wrapping_mul(stack[n - 2], stack[n - 1]))
        } else {
            stack
        },
        Op::Div => if n >= 2 {
            if stack[n - 1] != 0 {
                with_top_two(stack, quotient(stack[n - 2], stack[n - 1]))
            } else {
                stack.take(n - 2)
            }
        } else {
            stack
        },
        Op::MemRead(i) => if 0 <= i < mem.len() {
            stack.push(mem[i as int])
        } else {
            stack
        },
        Op::MemWriteS(addr, len) => if in_memory(addr, len) {
            stack.take(n - taken(n, len))
        } else {
            stack
        },
        _ => stack,
    }
}

/// The memory after `op`.
pub open spec fn next_mem(op: Op, stack: Seq<i32>, mem: Seq<i32>) -> Seq<i32> {
    match op {
        Op::MemWrite(addr, vals) => mem_after_write(mem, addr, vals),
        Op::MemWriteS(addr, len) => mem_after_stack_write(stack, mem, addr, len),
        _ => mem,
    }
}

/// The output after `op`.
pub open spec fn next_out(op: Op, mem: Seq<i32>, out: Seq<u8>) -> Seq<u8> {
    match op {
        Op::Print(addr, len) => if in_memory(addr, len) {
            out + printed(mem, addr as int, len as nat)
        } else {
            out
        },
        _ => out,
    }
}

/// The state after the instruction at `s.pc`.
pub open spec fn step(prog: Seq<Op>, s: Machine) -> Machine
    recommends
        s.pc < prog.len(),
{
    let op = prog[s.pc as int];
    Machine {
        pc: next_pc(op, s.pc, s.stack, prog.len()),
        stack: next_stack(op, s.stack, s.mem),
        mem: next_mem(op, s.stack, s.mem),
        out: next_out(op, s.mem, s.out),
    }
}

/// The state after at most `fuel` instructions from `s`; the machine stops
/// earlier when its next address is not in the program.
pub open spec fn run(prog: Seq<Op>, s: Machine, fuel: nat) -> Machine
    decreases fuel,
{
    if fuel == 0 || s.pc >= prog.len() {
        s
    } else {
        run(prog, step(prog, s), (fuel - 1) as nat)
    }
}

/// A remark on an instruction that could not do all it asked for. Each
/// carries the address of the instruction.
#[derive(Debug, Clone, Copy, PartialEq, Eq)]
pub enum Fault {
    /// The stack held fewer values than the instruction takes.
    StackUnderflow(usize),
    /// The memory range of the instruction is not in memory; nothing was
    /// read, written or printed.
    OutOfBounds(usize),
    /// A division by zero, which was skipped.
    DivisionByZero(usize),
    /// A taken jump toward a target that is not an address of the program;
    /// the run stopped.
    InvalidJump(usize),
}

/// The fault of `op`, which sits at `pc` of a program of `len`
/// instructions, on `stack`.
pub open spec fn fault_of(op: Op, pc: nat, stack: Seq<i32>, len: nat) -> Option<Fault> {
    let n = stack.len();
    let at = pc as usize;
    match op {
        Op::Pop | Op::Dup | Op::AddS(_) | Op::SubS(_) | Op::MultS(_) => if n == 0 {
            Some(Fault::StackUnderflow(at))
        } else {
            None
        },
        Op::DivS(v) => if n == 0 {
            Some(Fault::StackUnderflow(at))
        } else if v == 0 {
            Some(Fault::DivisionByZero(at))
        } else {
            None
        },
        Op::Swap | Op::Add | Op::Sub | Op::Mult => if n < 2 {
            Some(Fault::StackUnderflow(at))
        } else {
            None
        },
        Op::Div => if n < 2 {
            Some(Fault::StackUnderflow(at))
        } else if stack.last() == 0 {
            Some(Fault::DivisionByZero(at))
        } else {
            None
        },
        Op::Jiz(t) | Op::Jnz(t) => if jump_taken(op, stack) && jump_target(t, len) is None {
            Some(Fault::InvalidJump(at))
        } else {
            None
        },
        Op::MemWrite(a, _) | Op::MemRead(a) => if 0 <= a < MEMORY_SIZE {
            None
        } else {
            Some(Fault::OutOfBounds(at))
        },
        Op::MemWriteS(a, l) => if !in_memory(a, l) {
            Some(Fault::OutOfBounds(at))
        } else if l > n {
            Some(Fault::StackUnderflow(at))
        } else {
            None
        },
        Op::Print(a, l) => if in_memory(a, l) {
            None
        } else {
            Some(Fault::OutOfBounds(at))
        },
        _ => None,
    }
}

/// The faults of a run of at most `fuel` instructions from `s`, in order.
pub open spec fn faults(prog: Seq<Op>, s: Machine, fuel: nat) -> Seq<Fault>
    decreases fuel,
{
    if fuel == 0 || s.pc >= prog.len() {
        seq![]
    } else {
        let here = match fault_of(prog[s.pc as int], s.pc, s.stack, prog.len()) {
            Some(f) => seq![f],
            None => seq![],
        };
        here + faults(prog, step(prog, s), (fuel - 1) as nat)
    }
}

/// `a` divided by `b`, rounded toward zero, wrapping around on overflow.
fn divide(a: i32, b: i32) -> (r: i32)
    requires
        b != 0,
    ensures
        r == quotient(a, b),
{
    let m: i64 = if a < 0 {
        -(a as i64)
    } else {
        a as i64
    };
    let d: i64 = if b < 0 {
        -(b as i64)
    } else {
        b as i64
    };
    let q: i64 = if (a < 0) == (b < 0) {
        m / d
    } else {
        -(m / d)
    };
    assert(-0x8000_0000 <= q <= 0x8000_0000) by (nonlinear_arith)
        requires
            0 <= m <= 0x8000_0000,
            1 <= d,
            q == m / d || q == -(m / d),
    {
        assert(m / d <= m) by {
            vstd::arithmetic::div_mod::lemma_div_is_ordered_by_denominator(m as int, 1, d as int);
        }
    }
    if q > 0x7fff_ffff {
        i32::MIN
    } else {
        q as i32
    }
}

// Jump instructions

/// The address after a `Jiz` at `current_i`: the target when the top of the
/// stack is zero, the next address otherwise.
fn execute_jiz(stack: &Vec<i32>, instructions: &[Instruction], current_i: usize, target: &str) -> (r:
    usize)
    requires
        current_i < instructions@.len(),
    ensures
        r == next_pc(Op::Jiz(target@), current_i as nat, stack@, instructions@.len()),
        r <= instructions@.len(),
{
    let len = instructions.len();
    if stack.len() > 0 && stack[stack.len() - 1] == 0 {
        jump(len, target)
    } else {
        current_i + 1
    }
}

/// The address after a `Jnz` at `current_i`: the target when the top of the
/// stack is not zero, the next address otherwise.
fn execute_jnz(stack: &Vec<i32>, instructions: &[Instruction], current_i: usize, target: &str) -> (r:
    usize)
    requires
        current_i < instructions@.len(),
    ensures
        r == next_pc(Op::Jnz(target@), current_i as nat, stack@, instructions@.len()),
        r <= instructions@.len(),
{
    let len = instructions.len();
    if stack.len() > 0 && stack[stack.len() - 1] != 0 {
        jump(len, target)
    } else {
        current_i + 1
    }
}

fn jump(len: usize, target: &str) -> (r: usize)
    ensures
        r == jump_destination(target@, len as nat),
        r <= len,
{
    match target_address(&chars_of(target), len) {
        Some(a) => a,
        None => len,
    }
}

// Arithmetic instructions

fn execute_adds(stack: &mut Vec<i32>, current_i: usize, n: i32) -> (r: usize)
    requires
        current_i < usize::MAX,
    ensures
        r == current_i + 1,
        final(stack)@ == next_stack(Op::AddS(n), old(stack)@, seq![]),
{
    if let Some(val) = stack.pop() {
        stack.push(val.wrapping_add(n));
    }
    current_i + 1
}

fn execute_add(stack: &mut Vec<i32>, current_i: usize) -> (r: usize)
    requires
        current_i < usize::MAX,
    ensures
        r == current_i + 1,
        final(stack)@ == next_stack(Op::Add, old(stack)@, seq![]),
{
    if stack.len() >= 2 {
        let a = stack.pop().unwrap();
        let b = stack.pop().unwrap();
        stack.push(b.wrapping_add(a));
        assert(final(stack)@ =~= next_stack(Op::Add, old(stack)@, seq![]));
    }
    current_i + 1
}

fn execute_subs(stack: &mut Vec<i32>, current_i: usize, n: i32) -> (r: usize)
    requires
        current_i < usize::MAX,
    ensures
        r == current_i + 1,
        final(stack)@ == next_stack(Op::SubS(n), old(stack)@, seq![]),
{
    if let Some(val) = stack.pop() {
        stack.push(val.wrapping_sub(n));
    }
    current_i + 1
}

fn execute_sub(stack: &mut Vec<i32>, current_i: usize) -> (r: usize)
    requires
        current_i < usize::MAX,
    ensures
        r == current_i + 1,
        final(stack)@ == next_stack(Op::Sub, old(stack)@, seq![]),
{
    if stack.len() >= 2 {
        let a = stack.pop().unwrap();
        let b = stack.pop().unwrap();
        stack.push(b.wrapping_sub(a));
        assert(final(stack)@ =~= next_stack(Op::Sub, old(stack)@, seq![]));
    }
    current_i + 1
}

fn execute_divs(stack: &mut Vec<i32>, current_i: usize, n: i32) -> (r: usize)
    requires
        current_i < usize::MAX,
    ensures
        r == current_i + 1,
        final(stack)@ == next_stack(Op::DivS(n), old(stack)@, seq![]),
{
    if n != 0 {
        if let Some(val) = stack.pop() {
            stack.push(divide(val, n));
        }
    }
    current_i + 1
}

fn execute_div(stack: &mut Vec<i32>, current_i: usize) -> (r: usize)
    requires
        current_i < usize::MAX,
    ensures
        r == current_i + 1,
        final(stack)@ == next_stack(Op::Div, old(stack)@, seq![]),
{
    if stack.len() >= 2 {
        let a = stack.pop().unwrap();
        let b = stack.pop().unwrap();
        if a != 0 {
            stack.push(divide(b, a));
        }
        assert(final(stack)@ =~= next_stack(Op::Div, old(stack)@, seq![]));
    }
    current_i + 1
}

fn execute_mults(stack: &mut Vec<i32>, current_i: usize, n: i32) -> (r: usize)
    requires
        current_i < usize::MAX,
    ensures
        r == current_i + 1,
        final(stack)@ == next_stack(Op::MultS(n), old(stack)@, seq![]),
{
    if let Some(val) = stack.pop() {
        stack.push(val.wrapping_mul(n));
    }
    current_i + 1
}

fn execute_mult(stack: &mut Vec<i32>, current_i: usize) -> (r: usize)
    requires
        current_i < usize::MAX,
    ensures
        r == current_i + 1,
        final(stack)@ == next_stack(Op::Mult, old(stack)@, seq![]),
{
    if stack.len() >= 2 {
        let a = stack.pop().unwrap();
        let b = stack.pop().unwrap();
        stack.push(b.wrapping_mul(a));
        assert(final(stack)@ =~= next_stack(Op::Mult, old(stack)@, seq![]));
    }
    current_i + 1
}

// Stack manipulation instructions

fn execute_dup(stack: &mut Vec<i32>, current_i: usize) -> (r: usize)
    requires
        current_i < usize::MAX,
    ensures
        r == current_i + 1,
        final(stack)@ == next_stack(Op::Dup, old(stack)@, seq![]),
{
    if stack.len() > 0 {
        let val = stack[stack.len() - 1];
        stack.push(val);
    }
    current_i + 1
}

fn execute_swap(stack: &mut Vec<i32>, current_i: usize) -> (r: usize)
    requires
        current_i < usize::MAX,
    ensures
        r == current_i + 1,
        final(stack)@ == next_stack(Op::Swap, old(stack)@, seq![]),
{
    if stack.len() >= 2 {
        let a = stack.pop().unwrap();
        let b = stack.pop().unwrap();
        stack.push(a);
        stack.push(b);
        assert(final(stack)@ =~= next_stack(Op::Swap, old(stack)@, seq![]));
    }
    current_i + 1
}

// Memory instructions

fn execute_memwrite(mem: &mut Vec<i32>, current_i: usize, start_addr: i32, values: &Vec<i32>) -> (r:
    usize)
    requires
        current_i < usize::MAX,
    ensures
        r == current_i + 1,
        final(mem)@ == mem_after_write(old(mem)@, start_addr, values@),
{
    if start_addr >= 0 && (start_addr as usize) < mem.len() {
        let start = start_addr as usize;
        let room = mem.len() - start;
        let end = if values.len() < room {
            values.len()
        } else {
            room
        };
        let mut j: usize = 0;
        while j < end
            invariant
                j <= end <= values@.len(),
                start + end <= mem@.len() <= usize::MAX,
                start == start_addr,
                end == values@.len() || start + end == mem@.len(),
                mem@.len() == old(mem)@.len(),
                forall|k: int|
                    0 <= k < mem@.len() ==> #[trigger] mem@[k] == if start <= k < start + j {
                        values@[k - start]
                    } else {
                        old(mem)@[k]
                    },
            decreases end - j,
        {
            mem.set(start + j, values[j]);
            j = j + 1;
        }
        assert(final(mem)@ =~= mem_after_write(old(mem)@, start_addr, values@));
    }
    current_i + 1
}

fn execute_memwrites(
    stack: &mut Vec<i32>,
    mem: &mut Vec<i32>,
    current_i: usize,
    memory_index: i32,
    write_len: i32,
) -> (r: usize)
    requires
        current_i < usize::MAX,
        old(mem)@.len() == MEMORY_SIZE,
    ensures
        r == current_i + 1,
        final(stack)@ == next_stack(
            Op::MemWriteS(memory_index, write_len),
            old(stack)@,
            old(mem)@,
        ),
        final(mem)@ == next_mem(Op::MemWriteS(memory_index, write_len), old(stack)@, old(mem)@),
{
    if memory_index >= 0 && write_len >= 0 && memory_index as i64 + write_len as i64
        <= MEMORY_SIZE as i64 {
        let start = memory_index as usize;
        let height = stack.len();
        let k: usize = if (write_len as usize) < height {
            write_len as usize
        } else {
            height
        };
        let base = height - k;
        let mut j: usize = 0;
        while j < k
            invariant
                j <= k,
                base + k == height == stack@.len(),
                k <= write_len,
                start == memory_index,
                start + write_len <= MEMORY_SIZE,
                stack@ == old(stack)@,
                mem@.len() == MEMORY_SIZE,
                forall|i: int|
                    0 <= i < mem@.len() ==> #[trigger] mem@[i] == if start <= i < start + j {
                        stack@[base + i - start]
                    } else {
                        old(mem)@[i]
                    },
            decreases k - j,
        {
            mem.set(start + j, stack[base + j]);
            j = j + 1;
        }
        assert(mem@ =~= mem_after_stack_write(old(stack)@, old(mem)@, memory_index, write_len));
        stack.truncate(base);
        assert(stack@ =~= next_stack(
            Op::MemWriteS(memory_index, write_len),
            old(stack)@,
            old(mem)@,
        ));
    }
    current_i + 1
}

fn execute_memread(stack: &mut Vec<i32>, mem: &Vec<i32>, current_i: usize, index: i32) -> (r:
    usize)
    requires
        current_i < usize::MAX,
    ensures
        r == current_i + 1,
        final(stack)@ == next_stack(Op::MemRead(index), old(stack)@, mem@),
{
    if index >= 0 && (index as usize) < mem.len() {
        stack.push(mem[index as usize]);
    }
    current_i + 1
}

/// Appends the UTF-8 encoding of the character whose code is `b`.
fn push_char(out: &mut Vec<u8>, b: u8)
    ensures
        final(out)@ == old(out)@ + char_bytes(b),
{
    if b < 0x80 {
        out.push(b);
    } else {
        out.push(0xC0 + b / 64);
        out.push(0x80 + b % 64);
    }
    assert(final(out)@ =~= old(out)@ + char_bytes(b));
}

fn execute_print(
    output_buffer: &mut Vec<u8>,
    mem: &Vec<i32>,
    current_i: usize,
    start_addr: i32,
    length: i32,
) -> (r: usize)
    requires
        current_i < usize::MAX,
        mem@.len() == MEMORY_SIZE,
    ensures
        r == current_i + 1,
        final(output_buffer)@ == next_out(Op::Print(start_addr, length), mem@, old(output_buffer)@),
{
    if start_addr >= 0 && length >= 0 && start_addr as i64 + length as i64 <= MEMORY_SIZE as i64 {
        let start = start_addr as usize;
        let len = length as usize;
        let mut j: usize = 0;
        while j < len
            invariant
                j <= len,
                start + len <= mem@.len(),
                mem@.len() == MEMORY_SIZE,
                start == start_addr,
                output_buffer@ == old(output_buffer)@ + printed(mem@, start as int, j as nat),
            decreases len - j,
        {
            push_char(output_buffer, #[verifier::truncate] (mem[start + j] as u8));
            j = j + 1;
            assert(output_buffer@ =~= old(output_buffer)@ + printed(mem@, start as int, j as nat));
        }
    }
    current_i + 1
}

/// Runs the instruction at `i` and returns the address of the next one.
fn execute_instruction(
    instructions: &[Instruction],
    i: usize,
    stack: &mut Vec<i32>,
    mem: &mut Vec<i32>,
    output_buffer: &mut Vec<u8>,
) -> (r: usize)
    requires
        i < instructions@.len(),
        old(mem)@.len() == MEMORY_SIZE,
    ensures
        ({
            let op = instructions@[i as int]@;
            &&& r == next_pc(op, i as nat, old(stack)@, instructions@.len())
            &&& final(stack)@ == next_stack(op, old(stack)@, old(mem)@)
            &&& final(mem)@ == next_mem(op, old(stack)@, old(mem)@)
            &&& final(output_buffer)@ == next_out(op, old(mem)@, old(output_buffer)@)
        }),
        r <= instructions@.len(),
        final(mem)@.len() == MEMORY_SIZE,
{
    let len = instructions.len();
    match &instructions[i] {
        Instruction::Null => i + 1,
        Instruction::Push(value) => {
            stack.push(*value);
            i + 1
        },
        Instruction::Pop => {
            stack.pop();
            i + 1
        },
        Instruction::Ret => len,
        Instruction::Jiz(target) => execute_jiz(stack, instructions, i, target.as_str()),
        Instruction::Jnz(target) => execute_jnz(stack, instructions, i, target.as_str()),
        Instruction::AddS(n) => execute_adds(stack, i, *n),
        Instruction::Add => execute_add(stack, i),
        Instruction::SubS(n) => execute_subs(stack, i, *n),
        Instruction::Sub => execute_sub(stack, i),
        Instruction::Dup => execute_dup(stack, i),
        Instruction::Swap => execute_swap(stack, i),
        Instruction::DivS(n) => execute_divs(stack, i, *n),
        Instruction::Div => execute_div(stack, i),
        Instruction::MultS(n) => execute_mults(stack, i, *n),
        Instruction::Mult => execute_mult(stack, i),
        Instruction::MemWrite(start_addr, values) => execute_memwrite(mem, i, *start_addr, values),
        Instruction::Print(start_addr, length) => execute_print(
            output_buffer,
            mem,
            i,
            *start_addr,
            *length,
        ),
        Instruction::MemRead(index) => execute_memread(stack, mem, i, *index),
        Instruction::MemWriteS(memory_index, write_len) => execute_memwrites(
            stack,
            mem,
            i,
            *memory_index,
            *write_len,
        ),
    }
}

/// The fault of the instruction at `i`, judged before it runs.
fn instruction_fault(instructions: &[Instruction], i: usize, stack: &Vec<i32>) -> (r: Option<Fault>)
    requires
        i < instructions@.len(),
    ensures
        r == fault_of(instructions@[i as int]@, i as nat, stack@, instructions@.len()),
{
    let n = stack.len();
    let len = instructions.len();
    match &instructions[i] {
        Instruction::Pop | Instruction::Dup | Instruction::AddS(_) | Instruction::SubS(_)
        | Instruction::MultS(_) => if n == 0 {
            Some(Fault::StackUnderflow(i))
        } else {
            None
        },
        Instruction::DivS(v) => if n == 0 {
            Some(Fault::StackUnderflow(i))
        } else if *v == 0 {
            Some(Fault::DivisionByZero(i))
        } else {
            None
        },
        Instruction::Swap | Instruction::Add | Instruction::Sub | Instruction::Mult => if n < 2 {
            Some(Fault::StackUnderflow(i))
        } else {
            None
        },
        Instruction::Div => if n < 2 {
            Some(Fault::StackUnderflow(i))
        } else if stack[n - 1] == 0 {
            Some(Fault::DivisionByZero(i))
        } else {
            None
        },
        Instruction::Jiz(t) => if n > 0 && stack[n - 1] == 0 && target_address(
            &chars_of(t.as_str()),
            len,
        ).is_none() {
            Some(Fault::InvalidJump(i))
        } else {
            None
        },
        Instruction::Jnz(t) => if n > 0 && stack[n - 1] != 0 && target_address(
            &chars_of(t.as_str()),
            len,
        ).is_none() {
            Some(Fault::InvalidJump(i))
        } else {
            None
        },
        Instruction::MemWrite(a, _) | Instruction::MemRead(a) => if 0 <= *a && (*a as usize)
            < MEMORY_SIZE {
            None
        } else {
            Some(Fault::OutOfBounds(i))
        },
        Instruction::MemWriteS(a, l) => if !(*a >= 0 && *l >= 0 && *a as i64 + *l as i64
            <= MEMORY_SIZE as i64) {
            Some(Fault::OutOfBounds(i))
        } else if *l as usize > n {
            Some(Fault::StackUnderflow(i))
        } else {
            None
        },
        Instruction::Print(a, l) => if *a >= 0 && *l >= 0 && *a as i64 + *l as i64
            <= MEMORY_SIZE as i64 {
            None
        } else {
            Some(Fault::OutOfBounds(i))
        },
        _ => None,
    }
}

/// Runs `instructions` from address 0 with an empty stack and zeroed memory,
/// for at most `max_steps` instructions. Returns the final stack and memory;
/// what the program prints is appended to `output_buffer`, and the faults of
/// the run to `diagnostics`.
pub fn execute_with_limit(
    instructions: &[Instruction],
    output_buffer: &mut Vec<u8>,
    diagnostics: &mut Vec<Fault>,
    max_steps: u64,
) -> (r: (Vec<i32>, Vec<i32>))
    ensures
        ({
            let prog = program_view(instructions@);
            let m = run(prog, initial_machine(), max_steps as nat);
            &&& r.0@ == m.stack
            &&& r.1@ == m.mem
            &&& final(output_buffer)@ == old(output_buffer)@ + m.out
            &&& final(diagnostics)@ == old(diagnostics)@ + faults(
                prog,
                initial_machine(),
                max_steps as nat,
            )
        }),
{
    let ghost prog = program_view(instructions@);
    let ghost prefix = output_buffer@;
    let ghost noted = diagnostics@;
    let mut stack: Vec<i32> = Vec::new();
    let mut mem: Vec<i32> = Vec::new();
    while mem.len() < MEMORY_SIZE
        invariant
            mem@.len() <= MEMORY_SIZE,
            forall|k: int| 0 <= k < mem@.len() ==> mem@[k] == 0,
        decreases MEMORY_SIZE - mem@.len(),
    {
        mem.push(0);
    }
    assert(mem@ =~= initial_machine().mem);
    let ghost mut out: Seq<u8> = seq![];
    let mut i: usize = 0;
    let mut steps: u64 = 0;
    assert(output_buffer@ =~= prefix + out);
    assert(diagnostics@ + faults(prog, initial_machine(), max_steps as nat) =~= noted + faults(
        prog,
        initial_machine(),
        max_steps as nat,
    ));
    while i < instructions.len() && steps < max_steps
        invariant
            prog == program_view(instructions@),
            prog.len() == instructions@.len(),
            i <= instructions@.len(),
            steps <= max_steps,
            mem@.len() == MEMORY_SIZE,
            output_buffer@ == prefix + out,
            run(prog, initial_machine(), max_steps as nat) == run(
                prog,
                Machine { pc: i as nat, stack: stack@, mem: mem@, out },
                (max_steps - steps) as nat,
            ),
            noted + faults(prog, initial_machine(), max_steps as nat) == diagnostics@ + faults(
                prog,
                Machine { pc: i as nat, stack: stack@, mem: mem@, out },
                (max_steps - steps) as nat,
            ),
        decreases max_steps - steps,
    {
        let ghost cur = Machine { pc: i as nat, stack: stack@, mem: mem@, out };
        let ghost before = diagnostics@;
        assert(prog[i as int] == instructions@[i as int]@);
        if let Some(f) = instruction_fault(instructions, i, &stack) {
            diagnostics.push(f);
        }
        i = execute_instruction(instructions, i, &mut stack, &mut mem, output_buffer);
        proof {
            out = next_out(prog[cur.pc as int], cur.mem, cur.out);
            assert(output_buffer@ =~= prefix + out);
        }
        steps = steps + 1;
        let ghost next = Machine { pc: i as nat, stack: stack@, mem: mem@, out };
        assert(next == step(prog, cur));
        let ghost rest = faults(prog, next, (max_steps - steps) as nat);
        assert(before + faults(prog, cur, (max_steps - (steps - 1)) as nat) =~= diagnostics@
            + rest);
    }
    assert(diagnostics@ =~= noted + faults(prog, initial_machine(), max_steps as nat));
    (stack, mem)
}

/// Runs `instructions` from address 0 with an empty stack and zeroed memory
/// until a `Ret`, a jump that leads out of the program, or the end of the
/// program. Returns the final stack and memory; what the program prints is
/// appended to `output_buffer`. A run still going after `MAX_STEPS`
/// instructions is stopped there.
pub fn execute(instructions: &[Instruction], output_buffer: &mut Vec<u8>) -> (r: (
    Vec<i32>,
    Vec<i32>,
))
    ensures
        ({
            let m = run(program_view(instructions@), initial_machine(), MAX_STEPS as nat);
            &&& r.0@ == m.stack
            &&& r.1@ == m.mem
            &&& final(output_buffer)@ == old(output_buffer)@ + m.out
        }),
{
    let mut diagnostics: Vec<Fault> = Vec::new();
    execute_with_limit(instructions, output_buffer, &mut diagnostics, MAX_STEPS)
}

/// Once a run has stopped, more fuel changes nothing: when the machine has
/// stopped within `n` instructions, a run of any `m >= n` instructions ends in
/// the same state. So [`execute`] gives the final state of every program that
/// stops within `MAX_STEPS` instructions.
pub proof fn lemma_run_stopped(prog: Seq<Op>, s: Machine, n: nat, m: nat)
    requires
        n <= m,
        run(prog, s, n).pc >= prog.len(),
    ensures
        run(prog, s, m) == run(prog, s, n),
    decreases n,
{
    if n > 0 && s.pc < prog.len() {
        lemma_run_stopped(prog, step(prog, s), (n - 1) as nat, (m - 1) as nat);
    }
}

/// A conditional jump that is taken toward a target that names no address
/// of the program, such as one at or past its end, stops the machine at
/// once: however long the run, it ends with the stack, memory and output as
/// they stood before the jump, and no further instruction runs.
pub proof fn lemma_bad_jump_stops(prog: Seq<Op>, s: Machine, t: Seq<char>, fuel: nat)
    requires
        s.pc < prog.len(),
        prog[s.pc as int] == Op::Jiz(t) || prog[s.pc as int] == Op::Jnz(t),
        jump_taken(prog[s.pc as int], s.stack),
        jump_target(t, prog.len()) is None,
    ensures
        ({
            let r = run(prog, s, fuel + 1);
            &&& r.pc == prog.len()
            &&& r.stack == s.stack
            &&& r.mem == s.mem
            &&& r.out == s.out
        }),
{
    let next = step(prog, s);
    assert(next.pc == prog.len());
    assert(run(prog, s, fuel + 1) == run(prog, next, fuel));
}

/// A run of `a + b` instructions is a run of `a` instructions followed by a
/// run of `b` more from where it stood.
pub proof fn lemma_run_split(prog: Seq<Op>, s: Machine, a: nat, b: nat)
    ensures
        run(prog, s, a + b) == run(prog, run(prog, s, a), b),
    decreases a,
{
    if a > 0 && s.pc < prog.len() {
        lemma_run_split(prog, step(prog, s), (a - 1) as nat, b);
        assert((a - 1) as nat + b == (a + b - 1) as nat);
    } else if a == 0 {
    } else {
        assert(run(prog, s, a) == s);
        lemma_run_stopped(prog, s, 0, b);
        lemma_run_stopped(prog, s, 0, a + b);
    }
}

/// A two-operand arithmetic instruction takes the second value from the top
/// as its left operand: `Sub` on a stack ending in `b, a` leaves `b - a` in
/// their place, and `Add`, `Mult` and `Div` likewise combine `b` with `a` in
/// that order. Where `b - a` fits in 32 bits it is the exact difference.
pub proof fn lemma_operand_order(prog: Seq<Op>, m: Machine, s: Seq<i32>, b: i32, a: i32)
    requires
        m.pc < prog.len(),
        m.stack == s.push(b).push(a),
    ensures
        prog[m.pc as int] == Op::Sub ==> step(prog, m).stack == s.push(wrapping_sub(b, a)),
        prog[m.pc as int] == Op::Add ==> step(prog, m).stack == s.push(wrapping_add(b, a)),
        prog[m.pc as int] == Op::Mult ==> step(prog, m).stack == s.push(wrapping_mul(b, a)),
        prog[m.pc as int] == Op::Div && a != 0 ==> step(prog, m).stack == s.push(quotient(b, a)),
        i32::MIN <= b - a <= i32::MAX ==> wrapping_sub(b, a) == b - a,
        prog[m.pc as int] == Op::Sub ==> step(prog, m).pc == m.pc + 1,
{
    let n = m.stack.len();
    assert(m.stack[n - 2] == b);
    assert(m.stack[n - 1] == a);
    assert(m.stack.take(n - 2) =~= s);
}

/// A scaled division by zero leaves the stack as it was; by any other `v`
/// it replaces the top value, in place, with its quotient by `v`. The stack
/// keeps its height either way.
pub proof fn lemma_scaled_division(prog: Seq<Op>, m: Machine, v: i32)
    requires
        m.pc < prog.len(),
        prog[m.pc as int] == Op::DivS(v),
    ensures
        v == 0 ==> step(prog, m).stack == m.stack,
        m.stack.len() == 0 ==> step(prog, m).stack == m.stack,
        v != 0 && m.stack.len() > 0 ==> step(prog, m).stack == m.stack.drop_last().push(
            quotient(m.stack.last(), v),
        ),
        step(prog, m).stack.len() == m.stack.len(),
        step(prog, m).pc == m.pc + 1,
{
}

/// A stack-to-memory write of `len` values whose range lies in memory, on a
/// stack that ends in those `len` values `vals`, takes them off the stack and
/// writes them from `addr` on in the order they were pushed; every other cell
/// keeps its value.
pub proof fn lemma_stack_write_order(
    prog: Seq<Op>,
    m: Machine,
    addr: i32,
    len: i32,
    s: Seq<i32>,
    vals: Seq<i32>,
)
    requires
        m.pc < prog.len(),
        prog[m.pc as int] == Op::MemWriteS(addr, len),
        m.mem.len() == MEMORY_SIZE,
        in_memory(addr, len),
        vals.len() == len,
        m.stack == s + vals,
    ensures
        step(prog, m).stack == s,
        step(prog, m).mem.len() == m.mem.len(),
        forall|j: int| 0 <= j < len ==> step(prog, m).mem[addr + j] == vals[j],
        forall|k: int|
            0 <= k < m.mem.len() && !(addr <= k < addr + len) ==> step(prog, m).mem[k]
                == m.mem[k],
        step(prog, m).pc == m.pc + 1,
{
    let n = m.stack.len();
    assert(taken(n, len) == len);
    assert(m.stack.take(n - len) =~= s);
    assert forall|j: int| 0 <= j < len implies step(prog, m).mem[addr + j] == vals[j] by {
        assert(m.stack[s.len() + j] == vals[j]);
    }
}

/// A run from the start that reaches, within fewer than `MAX_STEPS`
/// instructions, a conditional jump that is taken toward a target naming no
/// address of the program ends there: the full run that [`execute`] makes
/// has the stack, memory and output that stood before the jump.
pub proof fn lemma_run_ends_at_bad_jump(prog: Seq<Op>, k: nat, t: Seq<char>)
    requires
        k < MAX_STEPS,
        run(prog, initial_machine(), k).pc < prog.len(),
        prog[run(prog, initial_machine(), k).pc as int] == Op::Jiz(t) || prog[run(
            prog,
            initial_machine(),
            k,
        ).pc as int] == Op::Jnz(t),
        jump_taken(
            prog[run(prog, initial_machine(), k).pc as int],
            run(prog, initial_machine(), k).stack,
        ),
        jump_target(t, prog.len()) is None,
    ensures
        ({
            let at = run(prog, initial_machine(), k);
            let r = run(prog, initial_machine(), MAX_STEPS as nat);
            &&& r.stack == at.stack
            &&& r.mem == at.mem
            &&& r.out == at.out
        }),
{
    let at = run(prog, initial_machine(), k);
    let rest = (MAX_STEPS as nat - k - 1) as nat;
    lemma_run_split(prog, initial_machine(), k, rest + 1);
    assert(k + (rest + 1) == MAX_STEPS as nat);
    lemma_bad_jump_stops(prog, at, t, rest);
}

} // verus!
