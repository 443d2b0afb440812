//! The assembler: from source text to a program with its labels resolved.
//!
//! A line holds one instruction or one label. A `;` starts a comment that
//! runs to the end of the line, blank lines are skipped, and a line that ends
//! in `:` binds the label before the colon to the address of the next
//! instruction line. Mnemonics are matched whatever their case. A line whose
//! mnemonic is unknown, or whose operands do not fit it, yields no
//! instruction; it still counts as an instruction line for the addresses of
//! labels. A jump target that names a label becomes the label's address in
//! decimal; any other target stays as written.
use crate::instruction::{Instruction, Op, option_view, program_view};
use crate::text::{
    chars_of,
    decimal,
    is_address,
    lines,
    parse_i32,
    parse_i32_chars,
    is_index,
    push_decimal,
    split_lines,
    split_words,
    string_of,
    to_upper,
    trim,
    trimmed,
    upper_of,
    words,
};
use vstd::prelude::*;

verus! {

/// The position of the first `c` in `s`.
pub open spec fn first_index(s: Seq<char>, c: char) -> Option<nat>
    decreases s.len(),
{
    if s.len() == 0 {
        None
    } else if s[0] == c {
        Some(0)
    } else {
        match first_index(s.drop_first(), c) {
            Some(k) => Some(k + 1),
            None => None,
        }
    }
}

/// The code of a source line: the line without its comment and without
/// white space at either end.
pub open spec fn code_of(line: Seq<char>) -> Seq<char> {
    let t = trim(line);
    match first_index(t, ';') {
        Some(k) => trim(t.take(k as int)),
        None => t,
    }
}

/// The code of each line of `source`.
pub open spec fn code_lines(source: Seq<char>) -> Seq<Seq<char>> {
    lines(source).map_values(|l: Seq<char>| code_of(l))
}

/// Whether a line of code holds nothing.
pub open spec fn is_blank(c: Seq<char>) -> bool {
    c.len() == 0 || c[0] == ';'
}

/// Whether a line of code defines a label.
pub open spec fn is_label(c: Seq<char>) -> bool {
    c.len() > 0 && c.last() == ':'
}

/// The name that a label line defines.
pub open spec fn label_name(c: Seq<char>) -> Seq<char> {
    trim(c.drop_last())
}

/// Whether a line of code is an instruction line.
pub open spec fn is_instruction_line(c: Seq<char>) -> bool {
    !is_blank(c) && !is_label(c)
}

/// The number of instruction lines among `cs`.
pub open spec fn instruction_count(cs: Seq<Seq<char>>) -> nat
    decreases cs.len(),
{
    if cs.len() == 0 {
        0
    } else {
        instruction_count(cs.drop_last()) + if is_instruction_line(cs.last()) {
            1nat
        } else {
            0nat
        }
    }
}

/// The label definitions among `cs`, in order, each with the number of
/// instruction lines before it.
pub open spec fn label_table(cs: Seq<Seq<char>>) -> Seq<(Seq<char>, nat)>
    decreases cs.len(),
{
    if cs.len() == 0 {
        seq![]
    } else {
        let t = label_table(cs.drop_last());
        let c = cs.last();
        if !is_blank(c) && is_label(c) {
            t.push((label_name(c), instruction_count(cs.drop_last())))
        } else {
            t
        }
    }
}

/// The address bound to `name`: its last definition wins.
pub open spec fn lookup(table: Seq<(Seq<char>, nat)>, name: Seq<char>) -> Option<nat>
    decreases table.len(),
{
    if table.len() == 0 {
        None
    } else if table.last().0 == name {
        Some(table.last().1)
    } else {
        lookup(table.drop_last(), name)
    }
}

/// The single 32-bit operand of a two-word line.
pub open spec fn single_operand(parts: Seq<Seq<char>>) -> Option<i32> {
    if parts.len() == 2 {
        parse_i32(parts[1])
    } else {
        None
    }
}

/// The two 32-bit operands of a three-word line.
pub open spec fn pair_operands(parts: Seq<Seq<char>>) -> Option<(i32, i32)> {
    if parts.len() == 3 {
        match (parse_i32(parts[1]), parse_i32(parts[2])) {
            (Some(a), Some(n)) => Some((a, n)),
            _ => None,
        }
    } else {
        None
    }
}

/// The words that read as 32-bit integers, in order; the others are
/// dropped.
pub open spec fn int_words(ws: Seq<Seq<char>>) -> Seq<i32>
    decreases ws.len(),
{
    if ws.len() == 0 {
        seq![]
    } else {
        match parse_i32(ws.last()) {
            Some(v) => int_words(ws.drop_last()).push(v),
            None => int_words(ws.drop_last()),
        }
    }
}

/// `op`, for a line that holds the mnemonic alone.
pub open spec fn bare(parts: Seq<Seq<char>>, op: Op) -> Option<Op> {
    if parts.len() == 1 {
        Some(op)
    } else {
        None
    }
}

/// The instruction that the words `parts` of a line make, where `mnemonic`
/// is the upper-case form of the first word.
pub open spec fn parse_parts(mnemonic: Seq<char>, parts: Seq<Seq<char>>) -> Option<Op> {
    let m = mnemonic;
    if m == "NULL"@ {
        bare(parts, Op::Null)
    } else if m == "PUSH"@ {
        match single_operand(parts) {
            Some(v) => Some(Op::Push(v)),
            None => None,
        }
    } else if m == "POP"@ {
        bare(parts, Op::Pop)
    } else if m == "DUP"@ {
        bare(parts, Op::Dup)
    } else if m == "SWAP"@ {
        bare(parts, Op::Swap)
    } else if m == "RET"@ {
        bare(parts, Op::Ret)
    } else if m == "JIZ"@ {
        if parts.len() == 2 {
            Some(Op::Jiz(parts[1]))
        } else {
            None
        }
    } else if m == "JNZ"@ {
        if parts.len() == 2 {
            Some(Op::Jnz(parts[1]))
        } else {
            None
        }
    } else if m == "ADD"@ {
        bare(parts, Op::Add)
    } else if m == "ADDS"@ {
        match single_operand(parts) {
            Some(v) => Some(Op::AddS(v)),
            None => None,
        }
    } else if m == "SUB"@ {
        bare(parts, Op::Sub)
    } else if m == "SUBS"@ {
        match single_operand(parts) {
            Some(v) => Some(Op::SubS(v)),
            None => None,
        }
    } else if m == "MULT"@ {
        bare(parts, Op::Mult)
    } else if m == "MULTS"@ {
        match single_operand(parts) {
            Some(v) => Some(Op::MultS(v)),
            None => None,
        }
    } else if m == "DIV"@ {
        bare(parts, Op::Div)
    } else if m == "DIVS"@ {
        match single_operand(parts) {
            Some(v) => Some(Op::DivS(v)),
            None => None,
        }
    } else if m == "MEMWRITE"@ {
        if parts.len() >= 2 {
            match parse_i32(parts[1]) {
                Some(a) => Some(Op::MemWrite(a, int_words(parts.skip(2)))),
                None => None,
            }
        } else {
            None
        }
    } else if m == "MEMWRITES"@ {
        match pair_operands(parts) {
            Some((a, n)) => Some(Op::MemWriteS(a, n)),
            None => None,
        }
    } else if m == "MEMREAD"@ {
        match single_operand(parts) {
            Some(v) => Some(Op::MemRead(v)),
            None => None,
        }
    } else if m == "PRINT"@ {
        match pair_operands(parts) {
            Some((a, n)) => Some(Op::Print(a, n)),
            None => None,
        }
    } else {
        None
    }
}

/// The instruction that a line of code makes, if any.
pub open spec fn parse_line(c: Seq<char>) -> Option<Op> {
    let parts = words(c);
    if parts.len() == 0 {
        None
    } else {
        parse_parts(upper_of(parts[0]), parts)
    }
}

/// The instructions that the instruction lines among `cs` make, in order.
pub open spec fn parsed(cs: Seq<Seq<char>>) -> Seq<Op>
    decreases cs.len(),
{
    if cs.len() == 0 {
        seq![]
    } else {
        let prev = parsed(cs.drop_last());
        let c = cs.last();
        if is_instruction_line(c) {
            match parse_line(c) {
                Some(op) => prev.push(op),
                None => prev,
            }
        } else {
            prev
        }
    }
}

/// `op` with a jump target that names a label replaced by the label's
/// address.
pub open spec fn resolve(op: Op, table: Seq<(Seq<char>, nat)>) -> Op {
    match op {
        Op::Jiz(t) => match lookup(table, t) {
            Some(a) => Op::Jiz(decimal(a)),
            None => op,
        },
        Op::Jnz(t) => match lookup(table, t) {
            Some(a) => Op::Jnz(decimal(a)),
            None => op,
        },
        _ => op,
    }
}

/// The program that `source` assembles to.
pub open spec fn assemble(source: Seq<char>) -> Seq<Op> {
    let cs = code_lines(source);
    let table = label_table(cs);
    parsed(cs).map_values(|op: Op| resolve(op, table))
}

/// A remark on a line or an instruction that the assembler had to pass
/// over.
#[derive(Debug, Clone, Copy, PartialEq, Eq)]
pub enum Diagnostic {
    /// The instruction line with this index (the first line of the source
    /// has index 0) makes no instruction: its mnemonic is unknown, or its
    /// operands do not fit the mnemonic.
    DroppedLine(usize),
    /// The jump at this address of the program names neither a label nor an
    /// address; it is left as written.
    UnresolvedTarget(usize),
}

/// The indices of the instruction lines among `cs` that make no
/// instruction.
pub open spec fn dropped_lines(cs: Seq<Seq<char>>) -> Seq<nat>
    decreases cs.len(),
{
    if cs.len() == 0 {
        seq![]
    } else {
        let prev = dropped_lines(cs.drop_last());
        let c = cs.last();
        if is_instruction_line(c) && parse_line(c) is None {
            prev.push((cs.len() - 1) as nat)
        } else {
            prev
        }
    }
}

/// Whether `op` jumps toward a target that is neither a label of the table
/// nor an address.
pub open spec fn is_unresolved(op: Op, table: Seq<(Seq<char>, nat)>) -> bool {
    match op {
        Op::Jiz(t) => lookup(table, t) is None && !is_index(t),
        Op::Jnz(t) => lookup(table, t) is None && !is_index(t),
        _ => false,
    }
}

/// The addresses of the jumps among `ops` whose targets stay unresolved.
pub open spec fn unresolved_jumps(ops: Seq<Op>, table: Seq<(Seq<char>, nat)>) -> Seq<nat>
    decreases ops.len(),
{
    if ops.len() == 0 {
        seq![]
    } else {
        let prev = unresolved_jumps(ops.drop_last(), table);
        if is_unresolved(ops.last(), table) {
            prev.push((ops.len() - 1) as nat)
        } else {
            prev
        }
    }
}

/// The diagnostics of assembling `source`: first the dropped lines, then the
/// unresolved jumps, each in order.
pub open spec fn assembly_diagnostics(source: Seq<char>) -> Seq<Diagnostic> {
    let cs = code_lines(source);
    dropped_lines(cs).map_values(|k: nat| Diagnostic::DroppedLine(k as usize)) + unresolved_jumps(
        parsed(cs),
        label_table(cs),
    ).map_values(|i: nat| Diagnostic::UnresolvedTarget(i as usize))
}

/// The characters of each word of a list.
pub open spec fn words_view(ws: Seq<Vec<char>>) -> Seq<Seq<char>> {
    ws.map_values(|w: Vec<char>| w@)
}

/// The model of a label table.
pub open spec fn table_view(t: Seq<(Vec<char>, usize)>) -> Seq<(Seq<char>, nat)> {
    t.map_values(|e: (Vec<char>, usize)| (e.0@, e.1 as nat))
}

fn same_chars(a: &Vec<char>, b: &Vec<char>) -> (r: bool)
    ensures
        r == (a@ == b@),
{
    if a.len() != b.len() {
        return false;
    }
    let mut i: usize = 0;
    while i < a.len()
        invariant
            i <= a@.len() == b@.len(),
            a@.take(i as int) == b@.take(i as int),
        decreases a@.len() - i,
    {
        if a[i] != b[i] {
            return false;
        }
        i = i + 1;
        assert(a@.take(i as int) =~= a@.take(i - 1).push(a@[i - 1]));
        assert(b@.take(i as int) =~= b@.take(i - 1).push(b@[i - 1]));
    }
    assert(a@ =~= a@.take(i as int));
    assert(b@ =~= b@.take(i as int));
    true
}

fn is_mnemonic(m: &Vec<char>, word: &str) -> (r: bool)
    ensures
        r == (m@ == word@),
{
    same_chars(m, &chars_of(word))
}

proof fn lemma_first_index_at(s: Seq<char>, c: char, i: int)
    requires
        0 <= i < s.len(),
        s[i] == c,
        forall|j: int| 0 <= j < i ==> s[j] != c,
    ensures
        first_index(s, c) == Some(i as nat),
    decreases i,
{
    if i > 0 {
        lemma_first_index_at(s.drop_first(), c, i - 1);
    }
}

proof fn lemma_first_index_none(s: Seq<char>, c: char)
    requires
        forall|j: int| 0 <= j < s.len() ==> s[j] != c,
    ensures
        first_index(s, c) is None,
    decreases s.len(),
{
    if s.len() > 0 {
        lemma_first_index_none(s.drop_first(), c);
    }
}

/// The code of a line: without its comment and without white space at
/// either end.
fn extract_code_portion(line: &Vec<char>) -> (r: Vec<char>)
    ensures
        r@ == code_of(line@),
{
    let t = trimmed(line, 0, line.len());
    assert(line@.subrange(0, line@.len() as int) =~= line@);
    let mut k: usize = 0;
    while k < t.len() && t[k] != ';'
        invariant
            k <= t@.len(),
            forall|j: int| 0 <= j < k ==> t@[j] != ';',
        decreases t@.len() - k,
    {
        k = k + 1;
    }
    if k < t.len() {
        proof {
            lemma_first_index_at(t@, ';', k as int);
        }
        assert(t@.subrange(0, k as int) =~= t@.take(k as int));
        trimmed(&t, 0, k)
    } else {
        proof {
            lemma_first_index_none(t@, ';');
        }
        t
    }
}

/// Whether a line of code holds nothing.
fn is_comment_line(line: &Vec<char>) -> (r: bool)
    ensures
        r == is_blank(line@),
{
    line.len() == 0 || line[0] == ';'
}

/// Whether a line of code defines a label.
fn is_label_definition(line: &Vec<char>) -> (r: bool)
    ensures
        r == is_label(line@),
{
    line.len() > 0 && line[line.len() - 1] == ':'
}

/// The name that a label line defines.
fn extract_label_name(line: &Vec<char>) -> (r: Vec<char>)
    requires
        is_label(line@),
    ensures
        r@ == label_name(line@),
{
    assert(line@.subrange(0, line@.len() - 1) =~= line@.drop_last());
    trimmed(line, 0, line.len() - 1)
}

/// First pass: the label definitions among the lines of code, each with
/// the number of instruction lines before it.
fn collect_labels(code: &Vec<Vec<char>>) -> (r: Vec<(Vec<char>, usize)>)
    ensures
        table_view(r@) == label_table(words_view(code@)),
{
    let ghost cs = words_view(code@);
    let mut labels: Vec<(Vec<char>, usize)> = Vec::new();
    let mut instruction_index: usize = 0;
    let mut k: usize = 0;
    while k < code.len()
        invariant
            k <= code@.len(),
            cs == words_view(code@),
            instruction_index == instruction_count(cs.take(k as int)),
            instruction_index <= k,
            table_view(labels@) == label_table(cs.take(k as int)),
        decreases code@.len() - k,
    {
        let line = &code[k];
        assert(cs.take(k + 1).drop_last() =~= cs.take(k as int));
        assert(cs.take(k + 1).last() == line@);
        if !is_comment_line(line) {
            if is_label_definition(line) {
                let name = extract_label_name(line);
                let ghost before = table_view(labels@);
                labels.push((name, instruction_index));
                assert(table_view(labels@) =~= before.push((label_name(line@), instruction_index as nat)));
            } else {
                instruction_index = instruction_index + 1;
            }
        }
        k = k + 1;
    }
    assert(cs.take(k as int) =~= cs);
    labels
}

/// The address that the table binds `name` to; the last definition wins.
fn find_label(labels: &Vec<(Vec<char>, usize)>, name: &Vec<char>) -> (r: Option<usize>)
    ensures
        r matches Some(a) ==> lookup(table_view(labels@), name@) == Some(a as nat),
        r is None ==> lookup(table_view(labels@), name@) is None,
{
    let ghost t = table_view(labels@);
    let mut k = labels.len();
    assert(t.take(k as int) =~= t);
    while k > 0
        invariant
            k <= labels@.len(),
            t == table_view(labels@),
            lookup(t, name@) == lookup(t.take(k as int), name@),
        decreases k,
    {
        assert(t.take(k as int).drop_last() =~= t.take(k - 1));
        if same_chars(&labels[k - 1].0, name) {
            return Some(labels[k - 1].1);
        }
        k = k - 1;
    }
    None
}

/// The decimal writing of `a` as a string.
fn address_text(a: usize) -> (r: String)
    ensures
        r@ == decimal(a as nat),
{
    let mut digits: Vec<char> = Vec::new();
    push_decimal(a, &mut digits);
    assert(digits@ =~= decimal(a as nat));
    string_of(&digits)
}

/// The single 32-bit operand of a two-word line.
fn parse_arithmetic_immediate(parts: &Vec<Vec<char>>) -> (r: Option<i32>)
    ensures
        r == single_operand(words_view(parts@)),
{
    if parts.len() == 2 {
        parse_i32_chars(&parts[1])
    } else {
        None
    }
}

/// The two 32-bit operands of a three-word line.
fn parse_operand_pair(parts: &Vec<Vec<char>>) -> (r: Option<(i32, i32)>)
    ensures
        r == pair_operands(words_view(parts@)),
{
    if parts.len() == 3 {
        match (parse_i32_chars(&parts[1]), parse_i32_chars(&parts[2])) {
            (Some(a), Some(n)) => Some((a, n)),
            _ => None,
        }
    } else {
        None
    }
}

fn parse_push_instruction(parts: &Vec<Vec<char>>) -> (r: Option<Instruction>)
    ensures
        option_view(r) == match single_operand(words_view(parts@)) {
            Some(v) => Some(Op::Push(v)),
            None => None,
        },
{
    match parse_arithmetic_immediate(parts) {
        Some(v) => Some(Instruction::Push(v)),
        None => None,
    }
}

fn parse_jump_instruction(parts: &Vec<Vec<char>>, if_zero: bool) -> (r: Option<Instruction>)
    ensures
        option_view(r) == if parts@.len() == 2 {
            let t = parts@[1]@;
            Some(
                if if_zero {
                    Op::Jiz(t)
                } else {
                    Op::Jnz(t)
                },
            )
        } else {
            None
        },
{
    if parts.len() == 2 {
        let target = string_of(&parts[1]);
        if if_zero {
            Some(Instruction::Jiz(target))
        } else {
            Some(Instruction::Jnz(target))
        }
    } else {
        None
    }
}

fn parse_memwrite_instruction(parts: &Vec<Vec<char>>) -> (r: Option<Instruction>)
    ensures
        option_view(r) == if parts@.len() >= 2 {
            match parse_i32(parts@[1]@) {
                Some(a) => Some(Op::MemWrite(a, int_words(words_view(parts@).skip(2)))),
                None => None,
            }
        } else {
            None
        },
{
    let ghost ws = words_view(parts@);
    if parts.len() < 2 {
        return None;
    }
    let addr = match parse_i32_chars(&parts[1]) {
        Some(a) => a,
        None => {
            return None;
        },
    };
    let ghost rest = ws.skip(2);
    let mut values: Vec<i32> = Vec::new();
    let mut j: usize = 2;
    while j < parts.len()
        invariant
            2 <= j <= parts@.len(),
            ws == words_view(parts@),
            rest == ws.skip(2),
            values@ == int_words(rest.take(j - 2)),
        decreases parts@.len() - j,
    {
        assert(rest.take(j - 1).drop_last() =~= rest.take(j - 2));
        assert(rest.take(j - 1).last() == parts@[j as int]@);
        if let Some(v) = parse_i32_chars(&parts[j]) {
            values.push(v);
        }
        j = j + 1;
    }
    assert(rest.take(j - 2) =~= rest);
    Some(Instruction::MemWrite(addr, values))
}

fn parse_memwrites_instruction(parts: &Vec<Vec<char>>) -> (r: Option<Instruction>)
    ensures
        option_view(r) == match pair_operands(words_view(parts@)) {
            Some((a, n)) => Some(Op::MemWriteS(a, n)),
            None => None,
        },
{
    match parse_operand_pair(parts) {
        Some((a, n)) => Some(Instruction::MemWriteS(a, n)),
        None => None,
    }
}

fn parse_memread_instruction(parts: &Vec<Vec<char>>) -> (r: Option<Instruction>)
    ensures
        option_view(r) == match single_operand(words_view(parts@)) {
            Some(v) => Some(Op::MemRead(v)),
            None => None,
        },
{
    match parse_arithmetic_immediate(parts) {
        Some(v) => Some(Instruction::MemRead(v)),
        None => None,
    }
}

fn parse_print_instruction(parts: &Vec<Vec<char>>) -> (r: Option<Instruction>)
    ensures
        option_view(r) == match pair_operands(words_view(parts@)) {
            Some((a, n)) => Some(Op::Print(a, n)),
            None => None,
        },
{
    match parse_operand_pair(parts) {
        Some((a, n)) => Some(Instruction::Print(a, n)),
        None => None,
    }
}

fn bare_instruction(parts: &Vec<Vec<char>>, i: Instruction) -> (r: Option<Instruction>)
    ensures
        option_view(r) == bare(words_view(parts@), i@),
{
    if parts.len() == 1 {
        Some(i)
    } else {
        None
    }
}

/// The instruction that the words `parts` of a line make, where `mnemonic`
/// is the upper-case form of the first word; `None` where the mnemonic is
/// unknown or the operands do not fit it.
pub fn instruction_from_parts(mnemonic: &Vec<char>, parts: &Vec<Vec<char>>) -> (r: Option<
    Instruction,
>)
    ensures
        option_view(r) == parse_parts(mnemonic@, words_view(parts@)),
{
    if is_mnemonic(mnemonic, "NULL") {
        bare_instruction(parts, Instruction::Null)
    } else if is_mnemonic(mnemonic, "PUSH") {
        parse_push_instruction(parts)
    } else if is_mnemonic(mnemonic, "POP") {
        bare_instruction(parts, Instruction::Pop)
    } else if is_mnemonic(mnemonic, "DUP") {
        bare_instruction(parts, Instruction::Dup)
    } else if is_mnemonic(mnemonic, "SWAP") {
        bare_instruction(parts, Instruction::Swap)
    } else if is_mnemonic(mnemonic, "RET") {
        bare_instruction(parts, Instruction::Ret)
    } else if is_mnemonic(mnemonic, "JIZ") {
        parse_jump_instruction(parts, true)
    } else if is_mnemonic(mnemonic, "JNZ") {
        parse_jump_instruction(parts, false)
    } else if is_mnemonic(mnemonic, "ADD") {
        bare_instruction(parts, Instruction::Add)
    } else if is_mnemonic(mnemonic, "ADDS") {
        match parse_arithmetic_immediate(parts) {
            Some(v) => Some(Instruction::AddS(v)),
            None => None,
        }
    } else if is_mnemonic(mnemonic, "SUB") {
        bare_instruction(parts, Instruction::Sub)
    } else if is_mnemonic(mnemonic, "SUBS") {
        match parse_arithmetic_immediate(parts) {
            Some(v) => Some(Instruction::SubS(v)),
            None => None,
        }
    } else if is_mnemonic(mnemonic, "MULT") {
        bare_instruction(parts, Instruction::Mult)
    } else if is_mnemonic(mnemonic, "MULTS") {
        match parse_arithmetic_immediate(parts) {
            Some(v) => Some(Instruction::MultS(v)),
            None => None,
        }
    } else if is_mnemonic(mnemonic, "DIV") {
        bare_instruction(parts, Instruction::Div)
    } else if is_mnemonic(mnemonic, "DIVS") {
        match parse_arithmetic_immediate(parts) {
            Some(v) => Some(Instruction::DivS(v)),
            None => None,
        }
    } else if is_mnemonic(mnemonic, "MEMWRITE") {
        parse_memwrite_instruction(parts)
    } else if is_mnemonic(mnemonic, "MEMWRITES") {
        parse_memwrites_instruction(parts)
    } else if is_mnemonic(mnemonic, "MEMREAD") {
        parse_memread_instruction(parts)
    } else if is_mnemonic(mnemonic, "PRINT") {
        parse_print_instruction(parts)
    } else {
        None
    }
}

/// The instruction that a line of code makes, if any.
fn parse_instruction_line(line: &Vec<char>) -> (r: Option<Instruction>)
    ensures
        option_view(r) == parse_line(line@),
{
    let parts = split_words(line);
    if parts.len() == 0 {
        return None;
    }
    assert(words_view(parts@)[0] == parts@[0]@);
    let mnemonic = to_upper(&parts[0]);
    instruction_from_parts(&mnemonic, &parts)
}

/// Second pass: the instructions of the instruction lines, in order. Each
/// instruction line that makes no instruction is dropped, with a
/// diagnostic.
fn parse_instructions(code: &Vec<Vec<char>>, diagnostics: &mut Vec<Diagnostic>) -> (r: Vec<
    Instruction,
>)
    ensures
        program_view(r@) == parsed(words_view(code@)),
        final(diagnostics)@ == old(diagnostics)@ + dropped_lines(words_view(code@)).map_values(
            |k: nat| Diagnostic::DroppedLine(k as usize),
        ),
{
    let ghost cs = words_view(code@);
    let mut result: Vec<Instruction> = Vec::new();
    let mut k: usize = 0;
    while k < code.len()
        invariant
            k <= code@.len(),
            cs == words_view(code@),
            program_view(result@) == parsed(cs.take(k as int)),
            diagnostics@ == old(diagnostics)@ + dropped_lines(cs.take(k as int)).map_values(
                |k: nat| Diagnostic::DroppedLine(k as usize),
            ),
        decreases code@.len() - k,
    {
        let line = &code[k];
        let ghost seen = cs.take(k + 1);
        assert(seen.drop_last() =~= cs.take(k as int));
        assert(seen.last() == line@);
        let ghost before = dropped_lines(cs.take(k as int)).map_values(
            |k: nat| Diagnostic::DroppedLine(k as usize),
        );
        if !is_comment_line(line) && !is_label_definition(line) {
            match parse_instruction_line(line) {
                Some(instruction) => {
                    let ghost prev = program_view(result@);
                    result.push(instruction);
                    assert(program_view(result@) =~= prev.push(instruction@));
                },
                None => {
                    diagnostics.push(Diagnostic::DroppedLine(k));
                    assert(dropped_lines(seen).map_values(
                        |k: nat| Diagnostic::DroppedLine(k as usize),
                    ) =~= before.push(Diagnostic::DroppedLine(k)));
                },
            }
        }
        k = k + 1;
        assert(diagnostics@ =~= old(diagnostics)@ + dropped_lines(cs.take(k as int)).map_values(
            |k: nat| Diagnostic::DroppedLine(k as usize),
        ));
    }
    assert(cs.take(k as int) =~= cs);
    result
}

/// Third pass: each jump target that names a label becomes the label's
/// address. A target that names neither a label nor an address stays as
/// written, with a diagnostic.
fn resolve_label_references(
    instructions: &mut Vec<Instruction>,
    labels: &Vec<(Vec<char>, usize)>,
    diagnostics: &mut Vec<Diagnostic>,
)
    ensures
        program_view(final(instructions)@) == program_view(old(instructions)@).map_values(
            |op: Op| resolve(op, table_view(labels@)),
        ),
        final(diagnostics)@ == old(diagnostics)@ + unresolved_jumps(
            program_view(old(instructions)@),
            table_view(labels@),
        ).map_values(|i: nat| Diagnostic::UnresolvedTarget(i as usize)),
{
    let ghost table = table_view(labels@);
    let ghost ops = program_view(old(instructions)@);
    let ghost want = ops.map_values(|op: Op| resolve(op, table));
    let mut k: usize = 0;
    while k < instructions.len()
        invariant
            k <= instructions@.len() == old(instructions)@.len(),
            table == table_view(labels@),
            ops == program_view(old(instructions)@),
            want == ops.map_values(|op: Op| resolve(op, table)),
            forall|j: int| 0 <= j < k ==> #[trigger] instructions@[j]@ == want[j],
            forall|j: int|
                k <= j < instructions@.len() ==> #[trigger] instructions@[j] == old(
                    instructions,
                )@[j],
            diagnostics@ == old(diagnostics)@ + unresolved_jumps(
                ops.take(k as int),
                table,
            ).map_values(|i: nat| Diagnostic::UnresolvedTarget(i as usize)),
        decreases instructions@.len() - k,
    {
        let ghost seen = ops.take(k + 1);
        assert(seen.drop_last() =~= ops.take(k as int));
        assert(seen.last() == instructions@[k as int]@);
        let ghost before = unresolved_jumps(ops.take(k as int), table).map_values(
            |i: nat| Diagnostic::UnresolvedTarget(i as usize),
        );
        let (resolved, unresolved) = match &instructions[k] {
            Instruction::Jiz(target) => {
                let name = chars_of(target.as_str());
                match find_label(labels, &name) {
                    Some(a) => (Some(Instruction::Jiz(address_text(a))), false),
                    None => (None, !is_address(&name)),
                }
            },
            Instruction::Jnz(target) => {
                let name = chars_of(target.as_str());
                match find_label(labels, &name) {
                    Some(a) => (Some(Instruction::Jnz(address_text(a))), false),
                    None => (None, !is_address(&name)),
                }
            },
            _ => (None, false),
        };
        assert(unresolved == is_unresolved(ops[k as int], table));
        if unresolved {
            diagnostics.push(Diagnostic::UnresolvedTarget(k));
            assert(unresolved_jumps(seen, table).map_values(
                |i: nat| Diagnostic::UnresolvedTarget(i as usize),
            ) =~= before.push(Diagnostic::UnresolvedTarget(k)));
        }
        if let Some(instruction) = resolved {
            instructions.set(k, instruction);
        }
        k = k + 1;
        assert(diagnostics@ =~= old(diagnostics)@ + unresolved_jumps(
            ops.take(k as int),
            table,
        ).map_values(|i: nat| Diagnostic::UnresolvedTarget(i as usize)));
    }
    assert(program_view(instructions@) =~= want);
    assert(ops.take(k as int) =~= ops);
}

/// Assembles source text into a program, with the diagnostics of the lines
/// and jump targets it had to pass over: labels are collected, each
/// instruction line is parsed, and jump targets that name labels become the
/// labels' addresses.
pub fn assemble_with_diagnostics(source: &str) -> (r: (Vec<Instruction>, Vec<Diagnostic>))
    ensures
        program_view(r.0@) == assemble(source@),
        r.1@ == assembly_diagnostics(source@),
{
    let text = chars_of(source);
    let lines_of_text = split_lines(&text);
    let ghost ls = lines(source@);
    let mut code: Vec<Vec<char>> = Vec::new();
    let mut k: usize = 0;
    while k < lines_of_text.len()
        invariant
            k <= lines_of_text@.len(),
            words_view(lines_of_text@) == ls,
            words_view(code@) == ls.take(k as int).map_values(|l: Seq<char>| code_of(l)),
        decreases lines_of_text@.len() - k,
    {
        assert(ls[k as int] == lines_of_text@[k as int]@);
        let c = extract_code_portion(&lines_of_text[k]);
        let ghost before = words_view(code@);
        code.push(c);
        k = k + 1;
        assert(words_view(code@) =~= before.push(code_of(ls[k - 1])));
        assert(ls.take(k as int).map_values(|l: Seq<char>| code_of(l)) =~= ls.take(k - 1).map_values(
            |l: Seq<char>| code_of(l),
        ).push(code_of(ls[k - 1])));
    }
    assert(ls.take(k as int) =~= ls);
    let labels = collect_labels(&code);
    let mut diagnostics: Vec<Diagnostic> = Vec::new();
    let mut result = parse_instructions(&code, &mut diagnostics);
    resolve_label_references(&mut result, &labels, &mut diagnostics);
    assert(diagnostics@ =~= assembly_diagnostics(source@));
    (result, diagnostics)
}

/// Assembles source text into a program: labels are collected, each
/// instruction line is parsed, and jump targets that name labels become the
/// labels' addresses. Lines that make no instruction are dropped.
pub fn split_instructions(instructions: &str) -> (r: Vec<Instruction>)
    ensures
        program_view(r@) == assemble(instructions@),
{
    assemble_with_diagnostics(instructions).0
}

} // verus!
