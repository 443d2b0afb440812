//! The binary form of a program: each instruction is a one-byte tag followed
//! by its operands, little-endian, with jump targets as text ended by a zero
//! byte. Also the two entry points from text to bytes and from bytes to
//! instructions.
use crate::instruction::{Instruction, Op, program_view};
use crate::spliter::{assemble, split_instructions};
use crate::text::{chars_of, string_of, text_from_utf8};
use vstd::prelude::*;
use vstd::utf8::{decode_utf8, encode_utf8, valid_utf8};

verus! {

/// Why a byte sequence is not a program.
#[derive(Debug, Clone, Copy, PartialEq, Eq)]
pub enum DecodeError {
    /// The bytes end inside an instruction.
    Truncated,
    /// A byte where an instruction starts is no known tag.
    UnknownOpcode(u8),
    /// A jump target has no terminating zero byte.
    UnterminatedText,
    /// A jump target is not valid UTF-8.
    InvalidText,
}

/// The four little-endian bytes of `u`.
pub open spec fn u32_bytes(u: u32) -> Seq<u8> {
    seq![
        (u & 0xff) as u8,
        ((u >> 8) & 0xff) as u8,
        ((u >> 16) & 0xff) as u8,
        ((u >> 24) & 0xff) as u8,
    ]
}

/// The four little-endian bytes of `v` in two's complement.
pub open spec fn i32_bytes(v: i32) -> Seq<u8> {
    u32_bytes(v as u32)
}

/// The little-endian unsigned value of `b[at..at + 4]`.
pub open spec fn read_u32(b: Seq<u8>, at: int) -> u32 {
    (b[at] as u32) | ((b[at + 1] as u32) << 8) | ((b[at + 2] as u32) << 16) | ((b[at + 3] as u32)
        << 24)
}

/// The little-endian two's complement value of `b[at..at + 4]`.
pub open spec fn read_i32(b: Seq<u8>, at: int) -> i32 {
    read_u32(b, at) as i32
}

/// The bytes of a list of values, four for each.
pub open spec fn values_bytes(vs: Seq<i32>) -> Seq<u8>
    decreases vs.len(),
{
    if vs.len() == 0 {
        seq![]
    } else {
        values_bytes(vs.drop_last()) + i32_bytes(vs.last())
    }
}

/// The `count` values that start at `b[at]`.
pub open spec fn values_at(b: Seq<u8>, at: int, count: nat) -> Seq<i32> {
    Seq::new(count, |k: int| read_i32(b, at + 4 * k))
}

/// The tag byte of each kind of instruction.
pub open spec fn tag_of(op: Op) -> u8 {
    match op {
        Op::Null => 0x00,
        Op::Push(_) => 0x01,
        Op::Dup => 0x02,
        Op::Swap => 0x03,
        Op::Pop => 0x04,
        Op::Ret => 0x05,
        Op::Jiz(_) => 0x06,
        Op::Jnz(_) => 0x07,
        Op::AddS(_) => 0x08,
        Op::Add => 0x09,
        Op::SubS(_) => 0x0A,
        Op::Sub => 0x0B,
        Op::MultS(_) => 0x0C,
        Op::Mult => 0x0D,
        Op::DivS(_) => 0x0E,
        Op::Div => 0x0F,
        Op::MemWrite(_, _) => 0x10,
        Op::MemWriteS(_, _) => 0x11,
        Op::MemRead(_) => 0x12,
        Op::Print(_, _) => 0x13,
    }
}

/// The bytes that follow the tag.
pub open spec fn operand_bytes(op: Op) -> Seq<u8> {
    match op {
        Op::Push(v) => i32_bytes(v),
        Op::Jiz(t) => encode_utf8(t).push(0),
        Op::Jnz(t) => encode_utf8(t).push(0),
        Op::AddS(n) => i32_bytes(n),
        Op::SubS(n) => i32_bytes(n),
        Op::MultS(n) => i32_bytes(n),
        Op::DivS(n) => i32_bytes(n),
        Op::MemWrite(a, vs) => i32_bytes(a) + u32_bytes(vs.len() as u32) + values_bytes(vs),
        Op::MemWriteS(a, n) => i32_bytes(a) + i32_bytes(n),
        Op::MemRead(a) => i32_bytes(a),
        Op::Print(a, n) => i32_bytes(a) + i32_bytes(n),
        _ => seq![],
    }
}

/// The encoding of one instruction.
pub open spec fn encode_op(op: Op) -> Seq<u8> {
    seq![tag_of(op)] + operand_bytes(op)
}

/// Whether the encoding can hold `op`: a bulk write's count must fit in 32
/// bits.
pub open spec fn encodable_op(op: Op) -> bool {
    op matches Op::MemWrite(_, vs) ==> vs.len() <= u32::MAX
}

pub open spec fn encodable(ops: Seq<Op>) -> bool {
    forall|i: int| 0 <= i < ops.len() ==> encodable_op(#[trigger] ops[i])
}

/// The encoding of a program: its instructions' encodings back to back.
pub open spec fn encode_program(ops: Seq<Op>) -> Seq<u8>
    decreases ops.len(),
{
    if ops.len() == 0 {
        seq![]
    } else {
        encode_op(ops[0]) + encode_program(ops.drop_first())
    }
}

/// The position of the first zero byte of `s`.
pub open spec fn find_zero(s: Seq<u8>) -> Option<nat>
    decreases s.len(),
{
    if s.len() == 0 {
        None
    } else if s[0] == 0 {
        Some(0)
    } else {
        match find_zero(s.drop_first()) {
            Some(k) => Some(k + 1),
            None => None,
        }
    }
}

/// The instruction with no operand that `tag` stands for.
pub open spec fn bare_op(tag: u8) -> Option<Op> {
    if tag == 0x00 {
        Some(Op::Null)
    } else if tag == 0x02 {
        Some(Op::Dup)
    } else if tag == 0x03 {
        Some(Op::Swap)
    } else if tag == 0x04 {
        Some(Op::Pop)
    } else if tag == 0x05 {
        Some(Op::Ret)
    } else if tag == 0x09 {
        Some(Op::Add)
    } else if tag == 0x0B {
        Some(Op::Sub)
    } else if tag == 0x0D {
        Some(Op::Mult)
    } else if tag == 0x0F {
        Some(Op::Div)
    } else {
        None
    }
}

/// Whether `tag` takes one 32-bit operand.
pub open spec fn is_single_tag(tag: u8) -> bool {
    tag == 0x01 || tag == 0x08 || tag == 0x0A || tag == 0x0C || tag == 0x0E || tag == 0x12
}

/// The instruction of a tag with one 32-bit operand.
pub open spec fn single_op(tag: u8, v: i32) -> Op {
    if tag == 0x01 {
        Op::Push(v)
    } else if tag == 0x08 {
        Op::AddS(v)
    } else if tag == 0x0A {
        Op::SubS(v)
    } else if tag == 0x0C {
        Op::MultS(v)
    } else if tag == 0x0E {
        Op::DivS(v)
    } else {
        Op::MemRead(v)
    }
}

/// Whether `tag` takes two 32-bit operands.
pub open spec fn is_pair_tag(tag: u8) -> bool {
    tag == 0x11 || tag == 0x13
}

/// The instruction of a tag with two 32-bit operands.
pub open spec fn pair_op(tag: u8, a: i32, n: i32) -> Op {
    if tag == 0x11 {
        Op::MemWriteS(a, n)
    } else {
        Op::Print(a, n)
    }
}

/// The instruction at the start of `b`, with the number of bytes it takes.
pub open spec fn decode_op(b: Seq<u8>) -> Result<(Op, nat), DecodeError> {
    let tag = b[0];
    if b.len() == 0 {
        Err(DecodeError::Truncated)
    } else if bare_op(tag) is Some {
        Ok((bare_op(tag)->0, 1))
    } else if is_single_tag(tag) {
        if b.len() < 5 {
            Err(DecodeError::Truncated)
        } else {
            Ok((single_op(tag, read_i32(b, 1)), 5))
        }
    } else if is_pair_tag(tag) {
        if b.len() < 9 {
            Err(DecodeError::Truncated)
        } else {
            Ok((pair_op(tag, read_i32(b, 1), read_i32(b, 5)), 9))
        }
    } else if tag == 0x06 || tag == 0x07 {
        match find_zero(b.drop_first()) {
            None => Err(DecodeError::UnterminatedText),
            Some(z) => {
                let raw = b.subrange(1, 1 + z as int);
                if valid_utf8(raw) {
                    let t = decode_utf8(raw);
                    Ok((if tag == 0x06 { Op::Jiz(t) } else { Op::Jnz(t) }, z + 2))
                } else {
                    Err(DecodeError::InvalidText)
                }
            },
        }
    } else if tag == 0x10 {
        if b.len() < 9 {
            Err(DecodeError::Truncated)
        } else {
            let count = read_u32(b, 5) as nat;
            if b.len() < 9 + 4 * count {
                Err(DecodeError::Truncated)
            } else {
                Ok((Op::MemWrite(read_i32(b, 1), values_at(b, 9, count)), 9 + 4 * count))
            }
        }
    } else {
        Err(DecodeError::UnknownOpcode(tag))
    }
}

proof fn lemma_find_zero_bound(s: Seq<u8>)
    ensures
        find_zero(s) matches Some(z) ==> z < s.len() && s[z as int] == 0,
    decreases s.len(),
{
    if s.len() > 0 && s[0] != 0 {
        lemma_find_zero_bound(s.drop_first());
    }
}

/// An instruction that decodes takes at least one byte and at most all of
/// them.
pub proof fn lemma_decode_op_consumes(b: Seq<u8>)
    requires
        b.len() > 0,
    ensures
        decode_op(b) matches Ok((_, n)) ==> 1 <= n <= b.len(),
{
    lemma_find_zero_bound(b.drop_first());
}

/// The program that the bytes `b` encode, or the first reason they do not.
pub open spec fn decode_program(b: Seq<u8>) -> Result<Seq<Op>, DecodeError>
    decreases b.len(),
    via decode_program_decreases
{
    if b.len() == 0 {
        Ok(seq![])
    } else {
        match decode_op(b) {
            Err(e) => Err(e),
            Ok((op, n)) => match decode_program(b.subrange(n as int, b.len() as int)) {
                Err(e) => Err(e),
                Ok(rest) => Ok(seq![op] + rest),
            },
        }
    }
}

#[via_fn]
proof fn decode_program_decreases(b: Seq<u8>) {
    if b.len() > 0 {
        lemma_decode_op_consumes(b);
    }
}

/// No character of `t` is the zero character, so its encoding holds no zero
/// byte.
pub open spec fn nul_free(t: Seq<char>) -> bool {
    forall|i: int| 0 <= i < t.len() ==> (t[i] as u32) != 0
}

/// Every jump target of the program is free of the zero character.
pub open spec fn nul_free_targets(ops: Seq<Op>) -> bool {
    forall|i: int|
        0 <= i < ops.len() ==> match #[trigger] ops[i] {
            Op::Jiz(t) => nul_free(t),
            Op::Jnz(t) => nul_free(t),
            _ => true,
        }
}

proof fn lemma_read_u32_bytes(b: Seq<u8>, at: int, u: u32)
    requires
        0 <= at,
        at + 4 <= b.len(),
        b.subrange(at, at + 4) == u32_bytes(u),
    ensures
        read_u32(b, at) == u,
{
    assert(b[at] == b.subrange(at, at + 4)[0]);
    assert(b[at + 1] == b.subrange(at, at + 4)[1]);
    assert(b[at + 2] == b.subrange(at, at + 4)[2]);
    assert(b[at + 3] == b.subrange(at, at + 4)[3]);
    assert(((u & 0xff) as u8 as u32) | ((((u >> 8) & 0xff) as u8 as u32) << 8) | ((((u >> 16)
        & 0xff) as u8 as u32) << 16) | ((((u >> 24) & 0xff) as u8 as u32) << 24) == u)
        by (bit_vector);
}

proof fn lemma_read_i32_bytes(b: Seq<u8>, at: int, v: i32)
    requires
        0 <= at,
        at + 4 <= b.len(),
        b.subrange(at, at + 4) == i32_bytes(v),
    ensures
        read_i32(b, at) == v,
{
    lemma_read_u32_bytes(b, at, v as u32);
    assert((v as u32) as i32 == v) by (bit_vector);
}

proof fn lemma_values_bytes(vs: Seq<i32>)
    ensures
        values_bytes(vs).len() == 4 * vs.len(),
        forall|k: int|
            0 <= k < vs.len() ==> #[trigger] values_bytes(vs).subrange(4 * k, 4 * k + 4)
                == i32_bytes(vs[k]),
    decreases vs.len(),
{
    if vs.len() > 0 {
        let init = vs.drop_last();
        lemma_values_bytes(init);
        let b = values_bytes(vs);
        assert forall|k: int| 0 <= k < vs.len() implies #[trigger] b.subrange(4 * k, 4 * k + 4)
            == i32_bytes(vs[k]) by {
            if k < init.len() {
                assert(b.subrange(4 * k, 4 * k + 4) =~= values_bytes(init).subrange(
                    4 * k,
                    4 * k + 4,
                ));
                assert(init[k] == vs[k]);
            } else {
                assert(b.subrange(4 * k, 4 * k + 4) =~= i32_bytes(vs.last()));
            }
        }
    }
}

proof fn lemma_encode_utf8_nonzero(t: Seq<char>)
    requires
        nul_free(t),
    ensures
        forall|i: int| 0 <= i < encode_utf8(t).len() ==> #[trigger] encode_utf8(t)[i] != 0,
    decreases t.len(),
{
    if t.len() > 0 {
        lemma_encode_utf8_nonzero(t.drop_first());
        let c = t[0] as u32;
        vstd::utf8::char_is_scalar(t[0]);
        assert(c <= 0x7F && c != 0 ==> (c & 0x7F) as u8 != 0) by (bit_vector);
        assert(0xC0 | ((c >> 6) & 0x1F) as u8 != 0) by (bit_vector);
        assert(0xE0 | ((c >> 12) & 0x0F) as u8 != 0) by (bit_vector);
        assert(0xF0 | ((c >> 18) & 0x7) as u8 != 0) by (bit_vector);
        assert(0x80 | (c & 0x3F) as u8 != 0) by (bit_vector);
        assert(0x80 | ((c >> 6) & 0x3F) as u8 != 0) by (bit_vector);
        assert(0x80 | ((c >> 12) & 0x3F) as u8 != 0) by (bit_vector);
        let head = vstd::utf8::encode_scalar(c);
        let tail = encode_utf8(t.drop_first());
        assert(encode_utf8(t) == head + tail);
        assert forall|i: int| 0 <= i < encode_utf8(t).len() implies #[trigger] encode_utf8(t)[i]
            != 0 by {
            if i >= head.len() {
                assert(encode_utf8(t)[i] == tail[i - head.len()]);
            }
        }
    }
}

proof fn lemma_find_zero_at(s: Seq<u8>, i: int)
    requires
        0 <= i < s.len(),
        s[i] == 0,
        forall|j: int| 0 <= j < i ==> s[j] != 0,
    ensures
        find_zero(s) == Some(i as nat),
    decreases i,
{
    if i > 0 {
        lemma_find_zero_at(s.drop_first(), i - 1);
    }
}

/// Decoding the encoding of one instruction, whatever follows it, gives the
/// instruction back together with the length of its encoding.
pub proof fn lemma_decode_encode_op(op: Op, rest: Seq<u8>)
    requires
        encodable_op(op),
        match op {
            Op::Jiz(t) => nul_free(t),
            Op::Jnz(t) => nul_free(t),
            _ => true,
        },
    ensures
        decode_op(encode_op(op) + rest) == Ok::<(Op, nat), DecodeError>(
            (op, encode_op(op).len()),
        ),
{
    let e = encode_op(op);
    let b = e + rest;
    assert(b[0] == tag_of(op));
    assert(b.subrange(0, e.len() as int) =~= e);
    match op {
        Op::Push(v) => {
            assert(b.subrange(1, 5) =~= i32_bytes(v));
            lemma_read_i32_bytes(b, 1, v);
        },
        Op::AddS(v) => {
            assert(b.subrange(1, 5) =~= i32_bytes(v));
            lemma_read_i32_bytes(b, 1, v);
        },
        Op::SubS(v) => {
            assert(b.subrange(1, 5) =~= i32_bytes(v));
            lemma_read_i32_bytes(b, 1, v);
        },
        Op::MultS(v) => {
            assert(b.subrange(1, 5) =~= i32_bytes(v));
            lemma_read_i32_bytes(b, 1, v);
        },
        Op::DivS(v) => {
            assert(b.subrange(1, 5) =~= i32_bytes(v));
            lemma_read_i32_bytes(b, 1, v);
        },
        Op::MemRead(v) => {
            assert(b.subrange(1, 5) =~= i32_bytes(v));
            lemma_read_i32_bytes(b, 1, v);
        },
        Op::MemWriteS(a, n) => {
            assert(b.subrange(1, 5) =~= i32_bytes(a));
            assert(b.subrange(5, 9) =~= i32_bytes(n));
            lemma_read_i32_bytes(b, 1, a);
            lemma_read_i32_bytes(b, 5, n);
        },
        Op::Print(a, n) => {
            assert(b.subrange(1, 5) =~= i32_bytes(a));
            assert(b.subrange(5, 9) =~= i32_bytes(n));
            lemma_read_i32_bytes(b, 1, a);
            lemma_read_i32_bytes(b, 5, n);
        },
        Op::Jiz(t) => {
            lemma_jump_round_trip(t, 0x06, rest);
        },
        Op::Jnz(t) => {
            lemma_jump_round_trip(t, 0x07, rest);
        },
        Op::MemWrite(a, vs) => {
            lemma_values_bytes(vs);
            let count = vs.len() as u32;
            assert(b.subrange(1, 5) =~= i32_bytes(a));
            assert(b.subrange(5, 9) =~= u32_bytes(count));
            lemma_read_i32_bytes(b, 1, a);
            lemma_read_u32_bytes(b, 5, count);
            let got = values_at(b, 9, count as nat);
            assert forall|k: int| 0 <= k < vs.len() implies got[k] == vs[k] by {
                assert(values_bytes(vs).subrange(4 * k, 4 * k + 4) == i32_bytes(vs[k]));
                assert(b.subrange(9 + 4 * k, 9 + 4 * k + 4) =~= values_bytes(vs).subrange(
                    4 * k,
                    4 * k + 4,
                ));
                lemma_read_i32_bytes(b, 9 + 4 * k, vs[k]);
            }
            assert(got =~= vs);
        },
        _ => {},
    }
}

proof fn lemma_jump_round_trip(t: Seq<char>, tag: u8, rest: Seq<u8>)
    requires
        nul_free(t),
        tag == 0x06 || tag == 0x07,
    ensures
        ({
            let op = if tag == 0x06 {
                Op::Jiz(t)
            } else {
                Op::Jnz(t)
            };
            decode_op(encode_op(op) + rest) == Ok::<(Op, nat), DecodeError>(
                (op, encode_op(op).len()),
            )
        }),
{
    let op = if tag == 0x06 {
        Op::Jiz(t)
    } else {
        Op::Jnz(t)
    };
    let raw = encode_utf8(t);
    let b = encode_op(op) + rest;
    assert(encode_op(op) =~= seq![tag] + raw.push(0));
    lemma_encode_utf8_nonzero(t);
    let s = b.drop_first();
    assert(s[raw.len() as int] == 0);
    assert forall|j: int| 0 <= j < raw.len() implies s[j] != 0 by {
        assert(s[j] == raw[j]);
    }
    lemma_find_zero_at(s, raw.len() as int);
    assert(b.subrange(1, 1 + raw.len() as int) =~= raw);
    vstd::utf8::encode_utf8_valid_utf8(t);
    vstd::utf8::encode_utf8_decode_utf8(t);
}

/// Encoding then decoding gives back every program whose bulk-write counts
/// fit the encoding and whose jump targets hold no zero character; that
/// includes every program whose targets are resolved to decimal addresses.
pub proof fn lemma_round_trip(ops: Seq<Op>)
    requires
        encodable(ops),
        nul_free_targets(ops),
    ensures
        decode_program(encode_program(ops)) == Ok::<Seq<Op>, DecodeError>(ops),
    decreases ops.len(),
{
    if ops.len() > 0 {
        let head = ops[0];
        let tail = ops.drop_first();
        assert(encodable(tail)) by {
            assert forall|i: int| 0 <= i < tail.len() implies encodable_op(#[trigger] tail[i]) by {
                assert(tail[i] == ops[i + 1]);
            }
        }
        assert(nul_free_targets(tail)) by {
            assert forall|i: int| 0 <= i < tail.len() implies match #[trigger] tail[i] {
                Op::Jiz(t) => nul_free(t),
                Op::Jnz(t) => nul_free(t),
                _ => true,
            } by {
                assert(tail[i] == ops[i + 1]);
            }
        }
        lemma_round_trip(tail);
        assert(encodable_op(ops[0]));
        assert(match ops[0] {
            Op::Jiz(t) => nul_free(t),
            Op::Jnz(t) => nul_free(t),
            _ => true,
        });
        let b = encode_program(ops);
        let e = encode_op(head);
        lemma_decode_encode_op(head, encode_program(tail));
        assert(b =~= e + encode_program(tail));
        assert(b.subrange(e.len() as int, b.len() as int) =~= encode_program(tail));
        assert(seq![head] + tail =~= ops);
    } else {
        assert(ops =~= seq![]);
    }
}

/// The character of the hexadecimal digit `d`, upper case.
pub open spec fn hex_char(d: u8) -> char {
    if d < 10 {
        (48 + d) as char
    } else {
        (55 + d) as char
    }
}

/// The text that describes a decoding error.
pub open spec fn message_of(e: DecodeError) -> Seq<char> {
    match e {
        DecodeError::Truncated => "Incomplete instruction in bytecode"@,
        DecodeError::UnknownOpcode(tag) => "Unknown opcode: 0x"@ + seq![
            hex_char(tag / 16),
            hex_char(tag % 16),
        ],
        DecodeError::UnterminatedText => "Unterminated string in bytecode"@,
        DecodeError::InvalidText => "Invalid UTF-8 string in bytecode"@,
    }
}

impl DecodeError {
    /// A sentence that describes the error.
    pub fn message(&self) -> (r: String)
        ensures
            r@ == message_of(*self),
    {
        match self {
            DecodeError::Truncated => string_of(&chars_of("Incomplete instruction in bytecode")),
            DecodeError::UnknownOpcode(tag) => {
                let mut m = chars_of("Unknown opcode: 0x");
                m.push(hex_digit(*tag / 16));
                m.push(hex_digit(*tag % 16));
                assert(m@ =~= message_of(*self));
                string_of(&m)
            },
            DecodeError::UnterminatedText => string_of(&chars_of("Unterminated string in bytecode")),
            DecodeError::InvalidText => string_of(&chars_of("Invalid UTF-8 string in bytecode")),
        }
    }
}

fn hex_digit(d: u8) -> (c: char)
    requires
        d < 16,
    ensures
        c == hex_char(d),
{
    if d < 10 {
        (48u8 + d) as char
    } else {
        (55u8 + d) as char
    }
}

fn push_u32(out: &mut Vec<u8>, u: u32)
    ensures
        final(out)@ == old(out)@ + u32_bytes(u),
{
    out.push((u & 0xff) as u8);
    out.push(((u >> 8) & 0xff) as u8);
    out.push(((u >> 16) & 0xff) as u8);
    out.push(((u >> 24) & 0xff) as u8);
    assert(final(out)@ =~= old(out)@ + u32_bytes(u));
}

fn push_i32(out: &mut Vec<u8>, v: i32)
    ensures
        final(out)@ == old(out)@ + i32_bytes(v),
{
    push_u32(out, v as u32);
}

fn read_u32_at(b: &[u8], at: usize) -> (r: u32)
    requires
        at + 4 <= b@.len(),
    ensures
        r == read_u32(b@, at as int),
{
    (b[at] as u32) | ((b[at + 1] as u32) << 8) | ((b[at + 2] as u32) << 16) | ((b[at + 3] as u32)
        << 24)
}

fn read_i32_at(b: &[u8], at: usize) -> (r: i32)
    requires
        at + 4 <= b@.len(),
    ensures
        r == read_i32(b@, at as int),
{
    read_u32_at(b, at) as i32
}

/// Appends the bytes of `s` and a terminating zero byte.
fn serialize_string(s: &str, output: &mut Vec<u8>)
    ensures
        final(output)@ == old(output)@ + encode_utf8(s@).push(0),
{
    let bytes = s.as_bytes();
    let mut i: usize = 0;
    while i < bytes.len()
        invariant
            i <= bytes@.len(),
            bytes@ == encode_utf8(s@),
            output@ == old(output)@ + bytes@.take(i as int),
        decreases bytes@.len() - i,
    {
        output.push(bytes[i]);
        i = i + 1;
        assert(output@ =~= old(output)@ + bytes@.take(i as int));
    }
    output.push(0);
    assert(output@ =~= old(output)@ + encode_utf8(s@).push(0));
}

/// Appends the encoding of `instruction`. A bulk write whose count does not
/// fit in 32 bits cannot be encoded: then nothing is appended.
pub fn serialize_instruction(instruction: &Instruction, output: &mut Vec<u8>) -> (r: Result<
    (),
    String,
>)
    ensures
        r is Ok <==> encodable_op(instruction@),
        r is Ok ==> final(output)@ == old(output)@ + encode_op(instruction@),
        r is Err ==> final(output)@ == old(output)@,
{
    match instruction {
        Instruction::Null => output.push(0x00),
        Instruction::Push(v) => {
            output.push(0x01);
            push_i32(output, *v);
        },
        Instruction::Dup => output.push(0x02),
        Instruction::Swap => output.push(0x03),
        Instruction::Pop => output.push(0x04),
        Instruction::Ret => output.push(0x05),
        Instruction::Jiz(t) => {
            output.push(0x06);
            serialize_string(t.as_str(), output);
        },
        Instruction::Jnz(t) => {
            output.push(0x07);
            serialize_string(t.as_str(), output);
        },
        Instruction::AddS(n) => {
            output.push(0x08);
            push_i32(output, *n);
        },
        Instruction::Add => output.push(0x09),
        Instruction::SubS(n) => {
            output.push(0x0A);
            push_i32(output, *n);
        },
        Instruction::Sub => output.push(0x0B),
        Instruction::MultS(n) => {
            output.push(0x0C);
            push_i32(output, *n);
        },
        Instruction::Mult => output.push(0x0D),
        Instruction::DivS(n) => {
            output.push(0x0E);
            push_i32(output, *n);
        },
        Instruction::Div => output.push(0x0F),
        Instruction::MemWrite(addr, values) => {
            if values.len() as u64 > 0xFFFF_FFFFu64 {
                return Err(string_of(&chars_of("MemWrite holds more values than a count can express")));
            }
            output.push(0x10);
            push_i32(output, *addr);
            push_u32(output, values.len() as u32);
            let ghost head = output@;
            let mut j: usize = 0;
            while j < values.len()
                invariant
                    j <= values@.len(),
                    output@ == head + values_bytes(values@.take(j as int)),
                decreases values@.len() - j,
            {
                push_i32(output, values[j]);
                assert(values@.take(j + 1).drop_last() =~= values@.take(j as int));
                j = j + 1;
                assert(output@ =~= head + values_bytes(values@.take(j as int)));
            }
            assert(values@.take(values@.len() as int) =~= values@);
        },
        Instruction::MemWriteS(addr, len) => {
            output.push(0x11);
            push_i32(output, *addr);
            push_i32(output, *len);
        },
        Instruction::MemRead(addr) => {
            output.push(0x12);
            push_i32(output, *addr);
        },
        Instruction::Print(addr, len) => {
            output.push(0x13);
            push_i32(output, *addr);
            push_i32(output, *len);
        },
    }
    assert(final(output)@ =~= old(output)@ + encode_op(instruction@));
    Ok(())
}

proof fn lemma_encode_program_push(ops: Seq<Op>, i: int)
    requires
        0 <= i < ops.len(),
    ensures
        encode_program(ops.take(i + 1)) == encode_program(ops.take(i)) + encode_op(ops[i]),
    decreases i,
{
    if i == 0 {
        let empty = ops.take(1).drop_first();
        assert(empty.len() == 0);
        assert(encode_program(empty) =~= Seq::<u8>::empty());
        assert(ops.take(1)[0] == ops[0]);
        assert(encode_program(ops.take(1)) =~= encode_op(ops[0]));
        assert(encode_program(ops.take(0)) =~= seq![]);
    } else {
        let rest = ops.drop_first();
        lemma_encode_program_push(rest, i - 1);
        assert(ops.take(i + 1).drop_first() =~= rest.take(i));
        assert(ops.take(i).drop_first() =~= rest.take(i - 1));
        assert(encode_program(ops.take(i + 1)) =~= encode_op(ops[0]) + encode_program(
            rest.take(i),
        ));
        assert(encode_program(ops.take(i)) =~= encode_op(ops[0]) + encode_program(
            rest.take(i - 1),
        ));
    }
}

/// The encoding of a whole program, or an error where a bulk write's count
/// does not fit in 32 bits.
pub fn serialize_instructions(instructions: &[Instruction]) -> (r: Result<Vec<u8>, String>)
    ensures
        r is Ok <==> encodable(program_view(instructions@)),
        r matches Ok(b) ==> b@ == encode_program(program_view(instructions@)),
{
    let ghost ops = program_view(instructions@);
    let mut bytecode: Vec<u8> = Vec::new();
    let mut i: usize = 0;
    while i < instructions.len()
        invariant
            i <= instructions@.len(),
            ops == program_view(instructions@),
            bytecode@ == encode_program(ops.take(i as int)),
            forall|k: int| 0 <= k < i ==> encodable_op(#[trigger] ops[k]),
        decreases instructions@.len() - i,
    {
        match serialize_instruction(&instructions[i], &mut bytecode) {
            Ok(()) => {},
            Err(e) => {
                assert(!encodable_op(ops[i as int]));
                return Err(e);
            },
        }
        proof {
            lemma_encode_program_push(ops, i as int);
        }
        i = i + 1;
    }
    assert(ops.take(i as int) =~= ops);
    Ok(bytecode)
}

proof fn lemma_find_zero_none(s: Seq<u8>)
    requires
        forall|j: int| 0 <= j < s.len() ==> s[j] != 0,
    ensures
        find_zero(s) is None,
    decreases s.len(),
{
    if s.len() > 0 {
        lemma_find_zero_none(s.drop_first());
    }
}

/// Reads a jump target that starts at `bytes[from]`: its text and the number
/// of bytes it takes with its terminating zero.
fn deserialize_string(bytes: &[u8], from: usize) -> (r: Result<(String, usize), DecodeError>)
    requires
        from <= bytes@.len(),
    ensures
        ({
            let s = bytes@.subrange(from as int, bytes@.len() as int);
            match find_zero(s) {
                None => r == Err::<(String, usize), DecodeError>(DecodeError::UnterminatedText),
                Some(z) => if valid_utf8(s.take(z as int)) {
                    r matches Ok((t, n)) && t@ == decode_utf8(s.take(z as int)) && n == z + 1
                } else {
                    r == Err::<(String, usize), DecodeError>(DecodeError::InvalidText)
                },
            }
        }),
{
    let ghost s = bytes@.subrange(from as int, bytes@.len() as int);
    let mut end = from;
    while end < bytes.len() && bytes[end] != 0
        invariant
            from <= end <= bytes@.len(),
            forall|j: int| from <= j < end ==> bytes@[j] != 0,
        decreases bytes@.len() - end,
    {
        end = end + 1;
    }
    if end >= bytes.len() {
        proof {
            lemma_find_zero_none(s);
        }
        return Err(DecodeError::UnterminatedText);
    }
    proof {
        lemma_find_zero_at(s, end - from);
    }
    let mut raw: Vec<u8> = Vec::new();
    let mut k = from;
    while k < end
        invariant
            from <= k <= end < bytes@.len(),
            raw@ == bytes@.subrange(from as int, k as int),
        decreases end - k,
    {
        raw.push(bytes[k]);
        k = k + 1;
        assert(raw@ =~= bytes@.subrange(from as int, k as int));
    }
    assert(raw@ =~= s.take(end - from));
    match text_from_utf8(raw) {
        Some(t) => Ok((t, end - from + 1)),
        None => Err(DecodeError::InvalidText),
    }
}

fn bare_instruction(tag: u8) -> (r: Option<Instruction>)
    ensures
        r matches Some(i) ==> bare_op(tag) == Some(i@),
        r is None ==> bare_op(tag) is None,
{
    if tag == 0x00 {
        Some(Instruction::Null)
    } else if tag == 0x02 {
        Some(Instruction::Dup)
    } else if tag == 0x03 {
        Some(Instruction::Swap)
    } else if tag == 0x04 {
        Some(Instruction::Pop)
    } else if tag == 0x05 {
        Some(Instruction::Ret)
    } else if tag == 0x09 {
        Some(Instruction::Add)
    } else if tag == 0x0B {
        Some(Instruction::Sub)
    } else if tag == 0x0D {
        Some(Instruction::Mult)
    } else if tag == 0x0F {
        Some(Instruction::Div)
    } else {
        None
    }
}

fn single_instruction(tag: u8, v: i32) -> (r: Instruction)
    ensures
        r@ == single_op(tag, v),
{
    if tag == 0x01 {
        Instruction::Push(v)
    } else if tag == 0x08 {
        Instruction::AddS(v)
    } else if tag == 0x0A {
        Instruction::SubS(v)
    } else if tag == 0x0C {
        Instruction::MultS(v)
    } else if tag == 0x0E {
        Instruction::DivS(v)
    } else {
        Instruction::MemRead(v)
    }
}

/// Reads the instruction that starts at `bytes[at]`, with the number of
/// bytes it takes; an offset at or past the end finds the bytes truncated.
pub fn deserialize_instruction(bytes: &[u8], at: usize) -> (r: Result<
    (Instruction, usize),
    DecodeError,
>)
    ensures
        at >= bytes@.len() ==> r == Err::<(Instruction, usize), DecodeError>(
            DecodeError::Truncated,
        ),
        at < bytes@.len() ==> ({
            let s = bytes@.subrange(at as int, bytes@.len() as int);
            match r {
                Ok((i, n)) => decode_op(s) == Ok::<(Op, nat), DecodeError>((i@, n as nat)),
                Err(e) => decode_op(s) == Err::<(Op, nat), DecodeError>(e),
            }
        }),
{
    if at >= bytes.len() {
        return Err(DecodeError::Truncated);
    }
    let ghost s = bytes@.subrange(at as int, bytes@.len() as int);
    let avail = bytes.len() - at;
    let tag = bytes[at];
    assert(s[0] == tag);
    if let Some(i) = bare_instruction(tag) {
        return Ok((i, 1));
    }
    if tag == 0x01 || tag == 0x08 || tag == 0x0A || tag == 0x0C || tag == 0x0E || tag == 0x12 {
        if avail < 5 {
            return Err(DecodeError::Truncated);
        }
        let v = read_i32_at(bytes, at + 1);
        assert(read_i32(s, 1) == v);
        return Ok((single_instruction(tag, v), 5));
    }
    if tag == 0x11 || tag == 0x13 {
        if avail < 9 {
            return Err(DecodeError::Truncated);
        }
        let a = read_i32_at(bytes, at + 1);
        let n = read_i32_at(bytes, at + 5);
        assert(read_i32(s, 1) == a);
        assert(read_i32(s, 5) == n);
        if tag == 0x11 {
            return Ok((Instruction::MemWriteS(a, n), 9));
        } else {
            return Ok((Instruction::Print(a, n), 9));
        }
    }
    if tag == 0x06 || tag == 0x07 {
        assert(bytes@.subrange(at + 1, bytes@.len() as int) =~= s.drop_first());
        proof {
            lemma_find_zero_bound(s.drop_first());
            if let Some(z) = find_zero(s.drop_first()) {
                assert(s.subrange(1, 1 + z as int) =~= s.drop_first().take(z as int));
            }
        }
        let (t, n) = match deserialize_string(bytes, at + 1) {
            Ok(x) => x,
            Err(e) => {
                return Err(e);
            },
        };
        proof {
            lemma_find_zero_bound(s.drop_first());
            assert(s.drop_first().take(n - 1) =~= s.subrange(1, n as int));
        }
        if tag == 0x06 {
            return Ok((Instruction::Jiz(t), n + 1));
        } else {
            return Ok((Instruction::Jnz(t), n + 1));
        }
    }
    if tag == 0x10 {
        if avail < 9 {
            return Err(DecodeError::Truncated);
        }
        let addr = read_i32_at(bytes, at + 1);
        let count = read_u32_at(bytes, at + 5);
        assert(read_i32(s, 1) == addr);
        assert(read_u32(s, 5) == count);
        if (avail as u64) < 9 + 4 * (count as u64) {
            return Err(DecodeError::Truncated);
        }
        let ghost want = values_at(s, 9, count as nat);
        let n_values = count as usize;
        let mut values: Vec<i32> = Vec::new();
        let mut j: usize = 0;
        while j < n_values
            invariant
                n_values == count,
                avail == bytes@.len() - at,
                bytes@.len() <= usize::MAX,
                j <= count,
                at + 9 + 4 * count <= bytes@.len(),
                s == bytes@.subrange(at as int, bytes@.len() as int),
                want == values_at(s, 9, count as nat),
                values@ == want.take(j as int),
            decreases count - j,
        {
            let v = read_i32_at(bytes, at + 9 + 4 * j);
            assert(read_i32(s, 9 + 4 * j) == v);
            values.push(v);
            j = j + 1;
            assert(values@ =~= want.take(j as int));
        }
        assert(want.take(count as int) =~= want);
        return Ok((Instruction::MemWrite(addr, values), 9 + 4 * count as usize));
    }
    Err(DecodeError::UnknownOpcode(tag))
}

/// The program that `bytecode` encodes, or the first reason it does not.
pub fn decode_instructions(bytecode: &[u8]) -> (r: Result<Vec<Instruction>, DecodeError>)
    ensures
        match r {
            Ok(v) => decode_program(bytecode@) == Ok::<Seq<Op>, DecodeError>(program_view(v@)),
            Err(e) => decode_program(bytecode@) == Err::<Seq<Op>, DecodeError>(e),
        },
{
    let mut instructions: Vec<Instruction> = Vec::new();
    let mut offset: usize = 0;
    assert(bytecode@.subrange(0, bytecode@.len() as int) =~= bytecode@);
    assert(program_view(instructions@) =~= Seq::<Op>::empty());
    proof {
        if let Ok(rest) = decode_program(bytecode@) {
            assert(Seq::<Op>::empty() + rest =~= rest);
        }
    }
    while offset < bytecode.len()
        invariant
            offset <= bytecode@.len(),
            decode_program(bytecode@) == match decode_program(
                bytecode@.subrange(offset as int, bytecode@.len() as int),
            ) {
                Ok(rest) => Ok(program_view(instructions@) + rest),
                Err(e) => Err::<Seq<Op>, DecodeError>(e),
            },
        decreases bytecode@.len() - offset,
    {
        let ghost s = bytecode@.subrange(offset as int, bytecode@.len() as int);
        proof {
            lemma_decode_op_consumes(s);
        }
        let (instruction, consumed) = match deserialize_instruction(bytecode, offset) {
            Ok(x) => x,
            Err(e) => {
                return Err(e);
            },
        };
        let ghost next = bytecode@.subrange(offset + consumed, bytecode@.len() as int);
        assert(s.subrange(consumed as int, s.len() as int) =~= next);
        let ghost before = program_view(instructions@);
        instructions.push(instruction);
        assert(program_view(instructions@) =~= before.push(instruction@));
        proof {
            match decode_program(next) {
                Ok(rest) => {
                    assert(before + (seq![instruction@] + rest) =~= before.push(instruction@)
                        + rest);
                },
                Err(_) => {},
            }
        }
        offset = offset + consumed;
    }
    assert(bytecode@.subrange(offset as int, bytecode@.len() as int) =~= Seq::<u8>::empty());
    assert(program_view(instructions@) + Seq::<Op>::empty() =~= program_view(instructions@));
    Ok(instructions)
}

/// The program that `bytecode` encodes; on failure, a description of the
/// first reason it does not.
pub fn deserialize_instructions(bytecode: &[u8]) -> (r: Result<Vec<Instruction>, String>)
    ensures
        r is Ok <==> decode_program(bytecode@) is Ok,
        r matches Ok(v) ==> decode_program(bytecode@) == Ok::<Seq<Op>, DecodeError>(
            program_view(v@),
        ),
        r matches Err(m) ==> decode_program(bytecode@) matches Err(e) && m@ == message_of(e),
{
    match decode_instructions(bytecode) {
        Ok(v) => Ok(v),
        Err(e) => Err(e.message()),
    }
}

/// Decodes bytecode back into instructions.
pub fn disassemble_bytecode(bytecode: &[u8]) -> (r: Result<Vec<Instruction>, String>)
    ensures
        r is Ok <==> decode_program(bytecode@) is Ok,
        r matches Ok(v) ==> decode_program(bytecode@) == Ok::<Seq<Op>, DecodeError>(
            program_view(v@),
        ),
        r matches Err(m) ==> decode_program(bytecode@) matches Err(e) && m@ == message_of(e),
{
    deserialize_instructions(bytecode)
}

/// Assembles source text into bytecode. Lines that make no instruction are
/// dropped; the one failure is a bulk write with more values than a 32-bit
/// count can express.
pub fn assemble_source(source: &str) -> (r: Result<Vec<u8>, String>)
    ensures
        r is Ok <==> encodable(assemble(source@)),
        r matches Ok(b) ==> b@ == encode_program(assemble(source@)),
{
    let instructions = split_instructions(source);
    serialize_instructions(instructions.as_slice())
}

} // verus!
