//! A deterministic two-pass assembler with labels and line-numbered diagnostics.

use vstd::prelude::*;
use crate::isa::{encode_spec, Instruction};
use crate::syntax::{
    find_char, find_char_exec, in_i64, integer_value, integer_value_exec, is_identifier,
    is_identifier_exec, lines, lines_view, register_number, register_number_exec, slice_chars,
    split_lines, strip_comment, strip_comment_exec, to_lower, to_lower_exec, tokenize, tokens,
    trim, trim_exec, chars_equal,
};
use crate::text::{chars_to_string, decimal, push_decimal, push_str, str_to_chars};

verus! {

/// A fully assembled program: one word per statement, the source line of each word, and the
/// address of every label, ordered by label name (label names are distinct).
#[derive(Clone, Debug, PartialEq, Eq)]
pub struct Program {
    pub words: Vec<u32>,
    pub source_lines: Vec<usize>,
    pub symbols: Vec<(String, u32)>,
}

/// A source-aware assembly failure.
#[derive(Clone, Debug, PartialEq, Eq)]
pub struct AssemblerError {
    pub line: usize,
    pub message: String,
}

impl AssemblerError {
    /// Renders the failure as `line N: message`.
    pub fn to_string(&self) -> (text: String)
        ensures
            text@ == "line "@ + decimal(self.line as nat) + ": "@ + self.message@,
    {
        let mut out: Vec<char> = Vec::new();
        push_str(&mut out, "line ");
        push_decimal(&mut out, self.line as u64);
        push_str(&mut out, ": ");
        push_str(&mut out, self.message.as_str());
        assert(out@ =~= "line "@ + decimal(self.line as nat) + ": "@ + self.message@);
        chars_to_string(&out)
    }
}

/// A symbol table: label names with their addresses.
pub type Symbols = Seq<(Seq<char>, u32)>;

/// The address of the first symbol named `name`.
pub open spec fn symbol_lookup(symbols: Symbols, name: Seq<char>) -> Option<u32>
    decreases symbols.len(),
{
    if symbols.len() == 0 {
        None
    } else if symbols[0].0 == name {
        Some(symbols[0].1)
    } else {
        symbol_lookup(symbols.drop_first(), name)
    }
}

/// Splits an optional `label:` off a comment-free line: the label and the trimmed statement.
pub open spec fn split_label(line: Seq<char>) -> Result<(Option<Seq<char>>, Seq<char>), Seq<char>> {
    match find_char(line, ':') {
        None => Ok((None, line)),
        Some(i) => {
            let remainder = line.skip(i + 1);
            let label = trim(line.take(i));
            if remainder.contains(':') {
                Err("only one label is allowed per line"@)
            } else if !is_identifier(label) {
                Err("invalid label `"@ + label + "`"@)
            } else {
                Ok((Some(label), trim(remainder)))
            }
        },
    }
}

/// The message for a wrong operand count.
pub open spec fn count_message(expected: nat, received: nat) -> Seq<char> {
    "expected "@ + decimal(expected) + " operand(s), received "@ + decimal(received)
}

/// A register operand.
pub open spec fn register_operand(token: Seq<char>) -> Result<u8, Seq<char>> {
    match register_number(token) {
        Some(r) => Ok(r),
        None => Err("invalid register `"@ + token + "`"@),
    }
}

/// An integer operand.
pub open spec fn integer_operand(token: Seq<char>) -> Result<int, Seq<char>> {
    match integer_value(token) {
        Some(v) => Ok(v),
        None => Err("invalid integer `"@ + token + "`"@),
    }
}

/// A signed 16-bit operand.
pub open spec fn i16_operand(token: Seq<char>) -> Result<i16, Seq<char>> {
    match integer_operand(token) {
        Err(m) => Err(m),
        Ok(v) => if -0x8000 <= v <= 0x7fff {
            Ok(v as i16)
        } else {
            Err("`"@ + token + "` is outside the i16 range"@)
        },
    }
}

/// A shift amount operand in `0..32`.
pub open spec fn shift_operand(token: Seq<char>) -> Result<u8, Seq<char>> {
    match integer_operand(token) {
        Err(m) => Err(m),
        Ok(v) => if 0 <= v < 32 {
            Ok(v as u8)
        } else {
            Err("shift amount `"@ + token + "` must be between 0 and 31"@)
        },
    }
}

/// An unsigned 32-bit operand.
pub open spec fn u32_operand(token: Seq<char>) -> Result<u32, Seq<char>> {
    match integer_operand(token) {
        Err(m) => Err(m),
        Ok(v) => if 0 <= v <= u32::MAX {
            Ok(v as u32)
        } else {
            Err("`"@ + token + "` is outside the u32 range"@)
        },
    }
}

/// An address operand: a label's address, else an unsigned 32-bit integer.
pub open spec fn address_operand(token: Seq<char>, symbols: Symbols) -> Result<u32, Seq<char>> {
    match symbol_lookup(symbols, token) {
        Some(a) => Ok(a),
        None => u32_operand(token),
    }
}

/// A three-register arithmetic instruction named by its (lower-case) mnemonic.
pub open spec fn register_instruction(mnemonic: Seq<char>, rd: u8, rs: u8, rt: u8) -> Instruction {
    if mnemonic == "addu"@ {
        Instruction::Addu { rd, rs, rt }
    } else if mnemonic == "subu"@ {
        Instruction::Subu { rd, rs, rt }
    } else if mnemonic == "and"@ {
        Instruction::And { rd, rs, rt }
    } else if mnemonic == "or"@ {
        Instruction::Or { rd, rs, rt }
    } else {
        Instruction::Slt { rd, rs, rt }
    }
}

/// A three-register arithmetic mnemonic.
pub open spec fn is_register_mnemonic(m: Seq<char>) -> bool {
    m == "addu"@ || m == "subu"@ || m == "and"@ || m == "or"@ || m == "slt"@
}

/// The word a statement assembles to at `address`, or the message of its error.
pub open spec fn statement_spec(statement: Seq<char>, address: u32, symbols: Symbols) -> Result<u32, Seq<char>> {
    let toks = tokens(statement);
    if toks.len() == 0 {
        Err("missing instruction"@)
    } else {
        let m = to_lower(toks[0]);
        let ops = toks.skip(1);
        let n = ops.len();
        if m == "nop"@ || m == "halt"@ {
            if n != 0 {
                Err(count_message(0, n))
            } else if m == "nop"@ {
                Ok(encode_spec(Instruction::Nop))
            } else {
                Ok(encode_spec(Instruction::Halt))
            }
        } else if is_register_mnemonic(m) {
            if n != 3 {
                Err(count_message(3, n))
            } else {
                match register_operand(ops[0]) {
                    Err(e) => Err(e),
                    Ok(rd) => match register_operand(ops[1]) {
                        Err(e) => Err(e),
                        Ok(rs) => match register_operand(ops[2]) {
                            Err(e) => Err(e),
                            Ok(rt) => Ok(encode_spec(register_instruction(m, rd, rs, rt))),
                        },
                    },
                }
            }
        } else if m == "sll"@ {
            if n != 3 {
                Err(count_message(3, n))
            } else {
                match register_operand(ops[0]) {
                    Err(e) => Err(e),
                    Ok(rd) => match register_operand(ops[1]) {
                        Err(e) => Err(e),
                        Ok(rt) => match shift_operand(ops[2]) {
                            Err(e) => Err(e),
                            Ok(shamt) => Ok(encode_spec(Instruction::Sll { rd, rt, shamt })),
                        },
                    },
                }
            }
        } else if m == "addiu"@ {
            if n != 3 {
                Err(count_message(3, n))
            } else {
                match register_operand(ops[0]) {
                    Err(e) => Err(e),
                    Ok(rt) => match register_operand(ops[1]) {
                        Err(e) => Err(e),
                        Ok(rs) => match i16_operand(ops[2]) {
                            Err(e) => Err(e),
                            Ok(immediate) => Ok(
                                encode_spec(Instruction::Addiu { rt, rs, immediate }),
                            ),
                        },
                    },
                }
            }
        } else if m == "li"@ {
            if n != 2 {
                Err(count_message(2, n))
            } else {
                match register_operand(ops[0]) {
                    Err(e) => Err(e),
                    Ok(rt) => match i16_operand(ops[1]) {
                        Err(e) => Err(e),
                        Ok(immediate) => Ok(
                            encode_spec(Instruction::Addiu { rt, rs: 0, immediate }),
                        ),
                    },
                }
            }
        } else if m == "move"@ {
            if n != 2 {
                Err(count_message(2, n))
            } else {
                match register_operand(ops[0]) {
                    Err(e) => Err(e),
                    Ok(rd) => match register_operand(ops[1]) {
                        Err(e) => Err(e),
                        Ok(rs) => Ok(encode_spec(Instruction::Addu { rd, rs, rt: 0 })),
                    },
                }
            }
        } else if m == "lw"@ || m == "sw"@ {
            if n != 3 {
                Err(count_message(3, n))
            } else {
                match register_operand(ops[0]) {
                    Err(e) => Err(e),
                    Ok(rt) => match i16_operand(ops[1]) {
                        Err(e) => Err(e),
                        Ok(offset) => match register_operand(ops[2]) {
                            Err(e) => Err(e),
                            Ok(base) => Ok(
                                encode_spec(
                                    if m == "lw"@ {
                                        Instruction::Lw { rt, base, offset }
                                    } else {
                                        Instruction::Sw { rt, base, offset }
                                    },
                                ),
                            ),
                        },
                    },
                }
            }
        } else if m == "beq"@ || m == "bne"@ {
            if n != 3 {
                Err(count_message(3, n))
            } else {
                match register_operand(ops[0]) {
                    Err(e) => Err(e),
                    Ok(rs) => match register_operand(ops[1]) {
                        Err(e) => Err(e),
                        Ok(rt) => match address_operand(ops[2], symbols) {
                            Err(e) => Err(e),
                            Ok(target) => {
                                let delta = target as int - (address as int + 4);
                                if delta % 4 != 0 {
                                    Err("branch target must be word-aligned"@)
                                } else if !(-0x8000 <= delta / 4 <= 0x7fff) {
                                    Err("branch target is outside the signed 16-bit range"@)
                                } else {
                                    let offset = (delta / 4) as i16;
                                    Ok(
                                        encode_spec(
                                            if m == "beq"@ {
                                                Instruction::Beq { rs, rt, offset }
                                            } else {
                                                Instruction::Bne { rs, rt, offset }
                                            },
                                        ),
                                    )
                                }
                            },
                        },
                    },
                }
            }
        } else if m == "j"@ {
            if n != 1 {
                Err(count_message(1, n))
            } else {
                match address_operand(ops[0], symbols) {
                    Err(e) => Err(e),
                    Ok(target) => if target % 4 != 0 {
                        Err("jump target must be word-aligned"@)
                    } else {
                        Ok(encode_spec(Instruction::J { target: target / 4 }))
                    },
                }
            }
        } else if m == ".word"@ {
            if n != 1 {
                Err(count_message(1, n))
            } else {
                u32_operand(ops[0])
            }
        } else {
            Err("unknown instruction `"@ + m + "`"@)
        }
    }
}

/// A line-numbered error.
pub struct ErrorView {
    pub line: int,
    pub message: Seq<char>,
}

/// Pass one from line index `i`: collects label addresses; each non-empty statement takes
/// four bytes.
pub open spec fn symbol_pass(source_lines: Seq<Seq<char>>, i: int, symbols: Symbols, address: u32) -> Result<Symbols, ErrorView>
    decreases source_lines.len() - i,
{
    if i < 0 || i >= source_lines.len() {
        Ok(symbols)
    } else {
        match split_label(strip_comment(source_lines[i])) {
            Err(message) => Err(ErrorView { line: i + 1, message }),
            Ok((label, statement)) => {
                if label is Some && symbol_lookup(symbols, label->0) is Some {
                    Err(ErrorView { line: i + 1, message: "duplicate label `"@ + label->0 + "`"@ })
                } else {
                    let next_symbols = match label {
                        Some(l) => symbols.push((l, address)),
                        None => symbols,
                    };
                    if statement.len() == 0 {
                        symbol_pass(source_lines, i + 1, next_symbols, address)
                    } else if address as int + 4 > u32::MAX {
                        Err(ErrorView { line: i + 1, message: "program exceeds 32-bit address space"@ })
                    } else {
                        symbol_pass(source_lines, i + 1, next_symbols, (address + 4) as u32)
                    }
                }
            },
        }
    }
}

/// Pass two from line index `i`: encodes each non-empty statement.
pub open spec fn encoding_pass(
    source_lines: Seq<Seq<char>>,
    i: int,
    symbols: Symbols,
    address: u32,
    words: Seq<u32>,
    numbers: Seq<usize>,
) -> Result<(Seq<u32>, Seq<usize>), ErrorView>
    decreases source_lines.len() - i,
{
    if i < 0 || i >= source_lines.len() {
        Ok((words, numbers))
    } else {
        match split_label(strip_comment(source_lines[i])) {
            Err(message) => Err(ErrorView { line: i + 1, message }),
            Ok((_, statement)) => if statement.len() == 0 {
                encoding_pass(source_lines, i + 1, symbols, address, words, numbers)
            } else {
                match statement_spec(statement, address, symbols) {
                    Err(message) => Err(ErrorView { line: i + 1, message }),
                    Ok(word) => encoding_pass(
                        source_lines,
                        i + 1,
                        symbols,
                        if address as int + 4 > u32::MAX {
                            u32::MAX
                        } else {
                            (address + 4) as u32
                        },
                        words.push(word),
                        numbers.push((i + 1) as usize),
                    ),
                }
            },
        }
    }
}

/// `a` sorts before `b`: the first differing character is smaller, or `a` is a proper
/// prefix of `b` (the order of `String`, character by character).
pub open spec fn name_less(a: Seq<char>, b: Seq<char>) -> bool
    decreases a.len(),
{
    if a.len() == 0 {
        b.len() > 0
    } else if b.len() == 0 {
        false
    } else if a[0] != b[0] {
        a[0] < b[0]
    } else {
        name_less(a.drop_first(), b.drop_first())
    }
}

/// `entry` inserted into `sorted` before the first entry whose name sorts after its own.
pub open spec fn insert_by_name(sorted: Symbols, entry: (Seq<char>, u32)) -> Symbols
    decreases sorted.len(),
{
    if sorted.len() == 0 {
        seq![entry]
    } else if name_less(entry.0, sorted[0].0) {
        seq![entry] + sorted
    } else {
        seq![sorted[0]] + insert_by_name(sorted.drop_first(), entry)
    }
}

/// The symbols ordered by name (as a map keyed by name iterates).
pub open spec fn sort_by_name(symbols: Symbols) -> Symbols
    decreases symbols.len(),
{
    if symbols.len() == 0 {
        seq![]
    } else {
        insert_by_name(sort_by_name(symbols.drop_last()), symbols.last())
    }
}

/// Every name sorts before the names that follow it.
pub open spec fn sorted_by_name(symbols: Symbols) -> bool {
    forall|i: int, j: int|
        0 <= i < j < symbols.len() ==> name_less(
            (#[trigger] symbols[i]).0,
            (#[trigger] symbols[j]).0,
        )
}

/// The number of non-empty statements on lines `i..`.
pub open spec fn statement_count(source_lines: Seq<Seq<char>>, i: int) -> nat
    decreases source_lines.len() - i,
{
    if i < 0 || i >= source_lines.len() {
        0
    } else {
        (match split_label(strip_comment(source_lines[i])) {
            Ok((_, statement)) => if statement.len() == 0 {
                0nat
            } else {
                1nat
            },
            Err(_) => 0nat,
        }) + statement_count(source_lines, i + 1)
    }
}

/// An assembled program.
pub struct ProgramView {
    pub words: Seq<u32>,
    pub source_lines: Seq<usize>,
    pub symbols: Symbols,
}

/// The result of assembling `source`.
pub open spec fn assemble_spec(source: Seq<char>) -> Result<ProgramView, ErrorView> {
    let ls = lines(source);
    match symbol_pass(ls, 0, seq![], 0) {
        Err(e) => Err(e),
        Ok(symbols) => match encoding_pass(ls, 0, symbols, 0, seq![], seq![]) {
            Err(e) => Err(e),
            Ok((words, numbers)) => Ok(
                ProgramView { words, source_lines: numbers, symbols: sort_by_name(symbols) },
            ),
        },
    }
}

pub(crate) proof fn lemma_lookup_none(symbols: Symbols, name: Seq<char>)
    ensures
        symbol_lookup(symbols, name) is None <==> forall|i: int|
            0 <= i < symbols.len() ==> (#[trigger] symbols[i]).0 != name,
    decreases symbols.len(),
{
    if symbols.len() > 0 {
        lemma_lookup_none(symbols.drop_first(), name);
        if symbol_lookup(symbols, name) is None {
            assert forall|i: int| 0 <= i < symbols.len() implies (#[trigger] symbols[i]).0 != name by {
                if i > 0 {
                    assert(symbols[i] == symbols.drop_first()[i - 1]);
                }
            }
        } else if symbols[0].0 != name {
            let k = choose|k: int| 0 <= k < symbols.drop_first().len() && (#[trigger] symbols.drop_first()[k]).0 == name;
            assert(symbols[k + 1] == symbols.drop_first()[k]);
        }
    }
}

/// A well-formed symbol table: distinct identifiers at word-aligned addresses.
pub open spec fn symbols_well_formed(symbols: Symbols) -> bool {
    &&& forall|i: int, j: int|
        0 <= i < j < symbols.len() ==> (#[trigger] symbols[i]).0 != (#[trigger] symbols[j]).0
    &&& forall|i: int| 0 <= i < symbols.len() ==> is_identifier((#[trigger] symbols[i]).0)
    &&& forall|i: int| 0 <= i < symbols.len() ==> (#[trigger] symbols[i]).1 % 4 == 0
}

proof fn lemma_symbol_pass(source_lines: Seq<Seq<char>>, i: int, symbols: Symbols, address: u32)
    requires
        0 <= i,
        symbols_well_formed(symbols),
        address % 4 == 0,
    ensures
        symbol_pass(source_lines, i, symbols, address) matches Ok(table) ==> symbols_well_formed(
            table,
        ),
    decreases source_lines.len() - i,
{
    if i < source_lines.len() {
        if let Ok((label, statement)) = split_label(strip_comment(source_lines[i])) {
            if label is Some {
                lemma_lookup_none(symbols, label->0);
            }
            let next_symbols = match label {
                Some(l) => symbols.push((l, address)),
                None => symbols,
            };
            if !(label is Some && symbol_lookup(symbols, label->0) is Some) {
                assert(symbols_well_formed(next_symbols)) by {
                    if label is Some {
                        assert forall|a: int, b: int|
                            0 <= a < b < next_symbols.len() implies (#[trigger] next_symbols[a]).0
                            != (#[trigger] next_symbols[b]).0 by {
                            if b == symbols.len() {
                                assert(symbols[a] == next_symbols[a]);
                            } else {
                                assert(symbols[a] == next_symbols[a]);
                                assert(symbols[b] == next_symbols[b]);
                            }
                        }
                        assert forall|a: int| 0 <= a < next_symbols.len() implies is_identifier(
                            (#[trigger] next_symbols[a]).0,
                        ) && next_symbols[a].1 % 4 == 0 by {
                            if a < symbols.len() {
                                assert(symbols[a] == next_symbols[a]);
                            }
                        }
                    }
                }
                if statement.len() == 0 {
                    lemma_symbol_pass(source_lines, i + 1, next_symbols, address);
                } else if address as int + 4 <= u32::MAX {
                    lemma_symbol_pass(source_lines, i + 1, next_symbols, (address + 4) as u32);
                }
            }
        }
    }
}

proof fn lemma_encoding_pass(
    source_lines: Seq<Seq<char>>,
    i: int,
    symbols: Symbols,
    address: u32,
    words: Seq<u32>,
    numbers: Seq<usize>,
)
    requires
        0 <= i <= source_lines.len(),
        source_lines.len() < usize::MAX,
        words.len() == numbers.len(),
        forall|a: int, b: int| 0 <= a < b < numbers.len() ==> numbers[a] < numbers[b],
        forall|a: int| 0 <= a < numbers.len() ==> 1 <= #[trigger] numbers[a] <= i,
    ensures
        encoding_pass(source_lines, i, symbols, address, words, numbers) matches Ok((w, n)) ==> {
            &&& w.len() == n.len()
            &&& forall|a: int, b: int| 0 <= a < b < n.len() ==> n[a] < n[b]
            &&& forall|a: int| 0 <= a < n.len() ==> 1 <= #[trigger] n[a] <= source_lines.len()
        },
    decreases source_lines.len() - i,
{
    if i < source_lines.len() {
        if let Ok((_, statement)) = split_label(strip_comment(source_lines[i])) {
            if statement.len() == 0 {
                lemma_encoding_pass(source_lines, i + 1, symbols, address, words, numbers);
            } else if let Ok(word) = statement_spec(statement, address, symbols) {
                let next_address = if address as int + 4 > u32::MAX {
                    u32::MAX
                } else {
                    (address + 4) as u32
                };
                let next_numbers = numbers.push((i + 1) as usize);
                assert forall|a: int| 0 <= a < next_numbers.len() implies 1 <= #[trigger] next_numbers[a]
                    <= i + 1 by {
                    if a < numbers.len() {
                        assert(next_numbers[a] == numbers[a]);
                    }
                }
                assert forall|a: int, b: int| 0 <= a < b < next_numbers.len() implies next_numbers[a]
                    < next_numbers[b] by {
                    assert(next_numbers[a] == numbers[a]);
                    if b < numbers.len() {
                        assert(next_numbers[b] == numbers[b]);
                    }
                }
                lemma_encoding_pass(
                    source_lines,
                    i + 1,
                    symbols,
                    next_address,
                    words.push(word),
                    next_numbers,
                );
            }
        }
    }
}

/// Two distinct names are ordered one way or the other, and never both ways.
proof fn lemma_name_less_total(a: Seq<char>, b: Seq<char>)
    ensures
        a != b ==> name_less(a, b) || name_less(b, a),
        name_less(a, b) ==> !name_less(b, a),
    decreases a.len(),
{
    if a.len() == 0 && b.len() == 0 {
        assert(a =~= b);
    }
    if a.len() > 0 && b.len() > 0 && a[0] == b[0] {
        lemma_name_less_total(a.drop_first(), b.drop_first());
        if a.drop_first() == b.drop_first() {
            assert(a =~= seq![a[0]] + a.drop_first());
            assert(b =~= seq![b[0]] + b.drop_first());
        }
    }
}

/// The name order is transitive.
proof fn lemma_name_less_transitive(a: Seq<char>, b: Seq<char>, c: Seq<char>)
    requires
        name_less(a, b),
        name_less(b, c),
    ensures
        name_less(a, c),
    decreases a.len(),
{
    if a.len() > 0 && a[0] == b[0] && b[0] == c[0] {
        lemma_name_less_transitive(a.drop_first(), b.drop_first(), c.drop_first());
    }
}

/// `insert_by_name` puts the entry at the first position whose name sorts after it.
proof fn lemma_insert_by_name(sorted: Symbols, entry: (Seq<char>, u32)) -> (k: int)
    ensures
        0 <= k <= sorted.len(),
        insert_by_name(sorted, entry) == sorted.insert(k, entry),
        forall|i: int| 0 <= i < k ==> !name_less(entry.0, (#[trigger] sorted[i]).0),
        k < sorted.len() ==> name_less(entry.0, sorted[k].0),
    decreases sorted.len(),
{
    if sorted.len() == 0 {
        assert(sorted.insert(0, entry) =~= seq![entry]);
        0
    } else if name_less(entry.0, sorted[0].0) {
        assert(sorted.insert(0, entry) =~= seq![entry] + sorted);
        0
    } else {
        let rest = sorted.drop_first();
        let j = lemma_insert_by_name(rest, entry);
        assert(sorted.insert(j + 1, entry) =~= seq![sorted[0]] + rest.insert(j, entry));
        assert forall|i: int| 0 <= i < j + 1 implies !name_less(entry.0, (#[trigger] sorted[i]).0) by {
            if i > 0 {
                assert(sorted[i] == rest[i - 1]);
            }
        }
        if j < rest.len() {
            assert(sorted[j + 1] == rest[j]);
        }
        j + 1
    }
}

/// Sorting keeps the entries, and turns a well-formed table into a well-formed table ordered
/// by name.
proof fn lemma_sort_by_name(t: Symbols)
    ensures
        sort_by_name(t).len() == t.len(),
        forall|i: int| 0 <= i < t.len() ==> t.contains(#[trigger] sort_by_name(t)[i]),
        symbols_well_formed(t) ==> symbols_well_formed(sort_by_name(t)) && sorted_by_name(
            sort_by_name(t),
        ),
    decreases t.len(),
{
    if t.len() > 0 {
        let rest = t.drop_last();
        let e = t.last();
        lemma_sort_by_name(rest);
        let s = sort_by_name(rest);
        let k = lemma_insert_by_name(s, e);
        let r = s.insert(k, e);
        assert(sort_by_name(t) == r);
        assert forall|i: int| 0 <= i < r.len() implies t.contains(#[trigger] r[i]) by {
            if i == k {
                assert(t[t.len() - 1] == e);
            } else {
                let m = if i < k {
                    i
                } else {
                    i - 1
                };
                assert(r[i] == s[m]);
                assert(rest.contains(s[m]));
                let j = choose|j: int| 0 <= j < rest.len() && rest[j] == s[m];
                assert(t[j] == rest[j]);
            }
        }
        if symbols_well_formed(t) {
            assert(symbols_well_formed(rest)) by {
                assert forall|a: int, b: int| 0 <= a < b < rest.len() implies (#[trigger] rest[a]).0
                    != (#[trigger] rest[b]).0 by {
                    assert(rest[a] == t[a] && rest[b] == t[b]);
                }
                assert forall|a: int| 0 <= a < rest.len() implies is_identifier(
                    (#[trigger] rest[a]).0,
                ) && rest[a].1 % 4 == 0 by {
                    assert(rest[a] == t[a]);
                }
            }
            assert forall|a: int| 0 <= a < s.len() implies (#[trigger] s[a]).0 != e.0 by {
                assert(rest.contains(s[a]));
                let j = choose|j: int| 0 <= j < rest.len() && rest[j] == s[a];
                assert(t[j] == rest[j]);
                assert(t[t.len() - 1] == e);
            }
            assert forall|a: int, b: int| 0 <= a < b < r.len() implies (#[trigger] r[a]).0 != (
            #[trigger] r[b]).0 && name_less(r[a].0, r[b].0) by {
                if a == k {
                    assert(r[b] == s[b - 1]);
                    if b - 1 > k {
                        assert(name_less(s[k].0, s[b - 1].0));
                        lemma_name_less_transitive(e.0, s[k].0, s[b - 1].0);
                    }
                } else if b == k {
                    assert(r[a] == s[a]);
                    lemma_name_less_total(s[a].0, e.0);
                } else {
                    let ma = if a < k {
                        a
                    } else {
                        a - 1
                    };
                    let mb = if b < k {
                        b
                    } else {
                        b - 1
                    };
                    assert(r[a] == s[ma] && r[b] == s[mb]);
                    lemma_name_less_total(s[ma].0, s[mb].0);
                }
            }
            assert forall|a: int| 0 <= a < r.len() implies is_identifier((#[trigger] r[a]).0)
                && r[a].1 % 4 == 0 by {
                assert(t.contains(r[a]));
                let j = choose|j: int| 0 <= j < t.len() && t[j] == r[a];
            }
        }
    }
}

proof fn lemma_symbol_pass_count(source_lines: Seq<Seq<char>>, i: int, symbols: Symbols, address: u32)
    requires
        0 <= i,
    ensures
        symbol_pass(source_lines, i, symbols, address) is Ok ==> address + 4 * statement_count(
            source_lines,
            i,
        ) <= 0x1_0000_0000,
    decreases source_lines.len() - i,
{
    if i < source_lines.len() {
        if let Ok((label, statement)) = split_label(strip_comment(source_lines[i])) {
            let next_symbols = match label {
                Some(l) => symbols.push((l, address)),
                None => symbols,
            };
            if statement.len() == 0 {
                lemma_symbol_pass_count(source_lines, i + 1, next_symbols, address);
            } else if address as int + 4 <= u32::MAX {
                lemma_symbol_pass_count(source_lines, i + 1, next_symbols, (address + 4) as u32);
            }
        }
    }
}

proof fn lemma_encoding_pass_count(
    source_lines: Seq<Seq<char>>,
    i: int,
    symbols: Symbols,
    address: u32,
    words: Seq<u32>,
    numbers: Seq<usize>,
)
    requires
        0 <= i,
    ensures
        encoding_pass(source_lines, i, symbols, address, words, numbers) matches Ok((w, _))
            ==> w.len() == words.len() + statement_count(source_lines, i),
    decreases source_lines.len() - i,
{
    if i < source_lines.len() {
        if let Ok((_, statement)) = split_label(strip_comment(source_lines[i])) {
            if statement.len() == 0 {
                lemma_encoding_pass_count(source_lines, i + 1, symbols, address, words, numbers);
            } else if let Ok(word) = statement_spec(statement, address, symbols) {
                lemma_encoding_pass_count(
                    source_lines,
                    i + 1,
                    symbols,
                    if address as int + 4 > u32::MAX {
                        u32::MAX
                    } else {
                        (address + 4) as u32
                    },
                    words.push(word),
                    numbers.push((i + 1) as usize),
                );
            }
        }
    }
}

/// Every statement takes one four-byte word of the 32-bit address space, so an assembled
/// program has at most 2^30 words.
pub proof fn lemma_assemble_word_count(source: Seq<char>)
    ensures
        assemble_spec(source) matches Ok(p) ==> p.words.len() <= 0x4000_0000,
{
    let ls = lines(source);
    lemma_symbol_pass_count(ls, 0, seq![], 0);
    if let Ok(symbols) = symbol_pass(ls, 0, seq![], 0) {
        lemma_encoding_pass_count(ls, 0, symbols, 0, seq![], seq![]);
    }
}

/// Each accepted statement emits exactly one word: an assembled program has one source line
/// per word, in increasing order and within the source; its labels are distinct identifiers at
/// word-aligned addresses, listed in name order.
pub proof fn lemma_assemble_shape(source: Seq<char>)
    requires
        lines(source).len() < usize::MAX,
    ensures
        assemble_spec(source) matches Ok(p) ==> {
            &&& p.words.len() == p.source_lines.len()
            &&& forall|a: int, b: int|
                0 <= a < b < p.source_lines.len() ==> p.source_lines[a] < p.source_lines[b]
            &&& forall|a: int|
                0 <= a < p.source_lines.len() ==> 1 <= #[trigger] p.source_lines[a] <= lines(
                    source,
                ).len()
            &&& symbols_well_formed(p.symbols)
            &&& sorted_by_name(p.symbols)
        },
{
    let ls = lines(source);
    lemma_symbol_pass(ls, 0, seq![], 0);
    if let Ok(symbols) = symbol_pass(ls, 0, seq![], 0) {
        lemma_encoding_pass(ls, 0, symbols, 0, seq![], seq![]);
        lemma_sort_by_name(symbols);
    }
}

/// The symbol table of a program.
pub open spec fn program_symbols(symbols: Seq<(String, u32)>) -> Symbols {
    Seq::new(symbols.len(), |i: int| (symbols[i].0@, symbols[i].1))
}

impl View for Program {
    type V = ProgramView;

    open spec fn view(&self) -> ProgramView {
        ProgramView {
            words: self.words@,
            source_lines: self.source_lines@,
            symbols: program_symbols(self.symbols@),
        }
    }
}

/// The symbol table of the assembler's working copy.
pub open spec fn symbols_view(symbols: Seq<(Vec<char>, u32)>) -> Symbols {
    Seq::new(symbols.len(), |i: int| (symbols[i].0@, symbols[i].1))
}

fn vec_equal(a: &Vec<char>, b: &Vec<char>) -> (result: bool)
    ensures
        result == (a@ == b@),
{
    if a.len() != b.len() {
        return false;
    }
    let n = a.len();
    let mut i: usize = 0;
    while i < n
        invariant
            n == a@.len(),
            n == b@.len(),
            i <= n,
            forall|k: int| 0 <= k < i ==> a@[k] == b@[k],
        decreases n - i,
    {
        if a[i] != b[i] {
            assert(a@[i as int] != b@[i as int]);
            return false;
        }
        i = i + 1;
    }
    assert(a@ =~= b@);
    true
}

fn find_symbol(symbols: &Vec<(Vec<char>, u32)>, name: &Vec<char>) -> (address: Option<u32>)
    ensures
        address == symbol_lookup(symbols_view(symbols@), name@),
{
    let n = symbols.len();
    let mut i: usize = 0;
    assert(symbols_view(symbols@).skip(0) =~= symbols_view(symbols@));
    while i < n
        invariant
            n == symbols@.len(),
            i <= n,
            symbol_lookup(symbols_view(symbols@), name@) == symbol_lookup(
                symbols_view(symbols@).skip(i as int),
                name@,
            ),
        decreases n - i,
    {
        let ghost rest = symbols_view(symbols@).skip(i as int);
        assert(rest[0] == (symbols@[i as int].0@, symbols@[i as int].1));
        if vec_equal(&symbols[i].0, name) {
            return Some(symbols[i].1);
        }
        assert(rest.drop_first() =~= symbols_view(symbols@).skip(i + 1));
        i = i + 1;
    }
    assert(symbols_view(symbols@).skip(n as int).len() == 0);
    None
}

/// `prefix`, then `token`, then `suffix`.
fn quoted(prefix: &str, token: &Vec<char>, suffix: &str) -> (message: Vec<char>)
    ensures
        message@ == prefix@ + token@ + suffix@,
{
    let mut out: Vec<char> = Vec::new();
    push_str(&mut out, prefix);
    let ghost start = out@;
    let n = token.len();
    let mut i: usize = 0;
    while i < n
        invariant
            n == token@.len(),
            i <= n,
            out@ == start + token@.take(i as int),
        decreases n - i,
    {
        out.push(token[i]);
        i = i + 1;
        assert(out@ =~= start + token@.take(i as int));
    }
    assert(token@.take(n as int) =~= token@);
    push_str(&mut out, suffix);
    assert(out@ =~= prefix@ + token@ + suffix@);
    out
}

fn text(message: &str) -> (chars: Vec<char>)
    ensures
        chars@ == message@,
{
    str_to_chars(message)
}

fn split_label_exec(line: &Vec<char>) -> (result: Result<(Option<Vec<char>>, Vec<char>), Vec<char>>)
    ensures
        match split_label(line@) {
            Ok((label, statement)) => result matches Ok((l, st)) && st@ == statement && match label {
                Some(name) => l matches Some(x) && x@ == name,
                None => l is None,
            },
            Err(m) => result matches Err(e) && e@ == m,
        },
{
    match find_char_exec(line, ':') {
        None => Ok((None, slice_chars(line, 0, line.len()))),
        Some(i) => {
            assert(i < line.len());
            let remainder = slice_chars(line, i + 1, line.len());
            assert(remainder@ =~= line@.skip(i + 1));
            let candidate = slice_chars(line, 0, i);
            assert(candidate@ =~= line@.take(i as int));
            let label = trim_exec(&candidate);
            match find_char_exec(&remainder, ':') {
                Some(_) => Err(text("only one label is allowed per line")),
                None => {
                    if !is_identifier_exec(&label) {
                        Err(quoted("invalid label `", &label, "`"))
                    } else {
                        Ok((Some(label), trim_exec(&remainder)))
                    }
                },
            }
        },
    }
}

/// An executable outcome carrying a message agrees with a specified one.
pub open spec fn agrees<T>(result: Result<T, Vec<char>>, expected: Result<T, Seq<char>>) -> bool {
    match expected {
        Ok(v) => result == Ok::<T, Vec<char>>(v),
        Err(m) => result matches Err(e) && e@ == m,
    }
}

fn count_message_exec(expected: u64, received: usize) -> (message: Vec<char>)
    ensures
        message@ == count_message(expected as nat, received as nat),
{
    let mut out: Vec<char> = Vec::new();
    push_str(&mut out, "expected ");
    push_decimal(&mut out, expected);
    push_str(&mut out, " operand(s), received ");
    push_decimal(&mut out, received as u64);
    assert(out@ =~= count_message(expected as nat, received as nat));
    out
}

fn register_operand_exec(token: &Vec<char>) -> (result: Result<u8, Vec<char>>)
    ensures
        agrees(result, register_operand(token@)),
{
    match register_number_exec(token) {
        Some(r) => Ok(r),
        None => Err(quoted("invalid register `", token, "`")),
    }
}

fn integer_operand_exec(token: &Vec<char>) -> (result: Result<i64, Vec<char>>)
    ensures
        match integer_operand(token@) {
            Ok(v) => result == Ok::<i64, Vec<char>>(v as i64) && in_i64(v),
            Err(m) => result matches Err(e) && e@ == m,
        },
{
    proof {
        crate::syntax::lemma_integer_value_range(token@);
    }
    match integer_value_exec(token) {
        Some(v) => Ok(v),
        None => Err(quoted("invalid integer `", token, "`")),
    }
}

fn i16_operand_exec(token: &Vec<char>) -> (result: Result<i16, Vec<char>>)
    ensures
        agrees(result, i16_operand(token@)),
{
    let v = integer_operand_exec(token)?;
    if -0x8000 <= v && v <= 0x7fff {
        Ok(v as i16)
    } else {
        Err(quoted("`", token, "` is outside the i16 range"))
    }
}

fn shift_operand_exec(token: &Vec<char>) -> (result: Result<u8, Vec<char>>)
    ensures
        agrees(result, shift_operand(token@)),
{
    let v = integer_operand_exec(token)?;
    if 0 <= v && v < 32 {
        Ok(v as u8)
    } else {
        Err(quoted("shift amount `", token, "` must be between 0 and 31"))
    }
}

fn u32_operand_exec(token: &Vec<char>) -> (result: Result<u32, Vec<char>>)
    ensures
        agrees(result, u32_operand(token@)),
{
    let v = integer_operand_exec(token)?;
    if 0 <= v && v <= 0xffff_ffff {
        Ok(v as u32)
    } else {
        Err(quoted("`", token, "` is outside the u32 range"))
    }
}

fn address_operand_exec(token: &Vec<char>, symbols: &Vec<(Vec<char>, u32)>) -> (result: Result<
    u32,
    Vec<char>,
>)
    ensures
        agrees(result, address_operand(token@, symbols_view(symbols@))),
{
    match find_symbol(symbols, token) {
        Some(a) => Ok(a),
        None => u32_operand_exec(token),
    }
}

fn assemble_statement(statement: &Vec<char>, address: u32, symbols: &Vec<(Vec<char>, u32)>) -> (result: Result<
    u32,
    Vec<char>,
>)
    ensures
        agrees(result, statement_spec(statement@, address, symbols_view(symbols@))),
{
    let toks = tokenize(statement);
    let ghost tv = tokens(statement@);
    if toks.len() == 0 {
        return Err(text("missing instruction"));
    }
    assert(tv[0] == toks@[0]@);
    let m = to_lower_exec(&toks[0]);
    let n: usize = toks.len() - 1;
    let ghost ops = tv.skip(1);
    assert(ops.len() == n);
    assert forall|k: int| 0 <= k < n implies ops[k] == (#[trigger] toks@[k + 1])@ by {}
    if chars_equal(&m, "nop") || chars_equal(&m, "halt") {
        if n != 0 {
            return Err(count_message_exec(0, n));
        }
        if chars_equal(&m, "nop") {
            Ok(Instruction::Nop.encode())
        } else {
            Ok(Instruction::Halt.encode())
        }
    } else if chars_equal(&m, "addu") || chars_equal(&m, "subu") || chars_equal(&m, "and")
        || chars_equal(&m, "or") || chars_equal(&m, "slt") {
        if n != 3 {
            return Err(count_message_exec(3, n));
        }
        let rd = register_operand_exec(&toks[1])?;
        let rs = register_operand_exec(&toks[2])?;
        let rt = register_operand_exec(&toks[3])?;
        let instruction = if chars_equal(&m, "addu") {
            Instruction::Addu { rd, rs, rt }
        } else if chars_equal(&m, "subu") {
            Instruction::Subu { rd, rs, rt }
        } else if chars_equal(&m, "and") {
            Instruction::And { rd, rs, rt }
        } else if chars_equal(&m, "or") {
            Instruction::Or { rd, rs, rt }
        } else {
            Instruction::Slt { rd, rs, rt }
        };
        Ok(instruction.encode())
    } else if chars_equal(&m, "sll") {
        if n != 3 {
            return Err(count_message_exec(3, n));
        }
        let rd = register_operand_exec(&toks[1])?;
        let rt = register_operand_exec(&toks[2])?;
        let shamt = shift_operand_exec(&toks[3])?;
        Ok(Instruction::Sll { rd, rt, shamt }.encode())
    } else if chars_equal(&m, "addiu") {
        if n != 3 {
            return Err(count_message_exec(3, n));
        }
        let rt = register_operand_exec(&toks[1])?;
        let rs = register_operand_exec(&toks[2])?;
        let immediate = i16_operand_exec(&toks[3])?;
        Ok(Instruction::Addiu { rt, rs, immediate }.encode())
    } else if chars_equal(&m, "li") {
        if n != 2 {
            return Err(count_message_exec(2, n));
        }
        let rt = register_operand_exec(&toks[1])?;
        let immediate = i16_operand_exec(&toks[2])?;
        Ok(Instruction::Addiu { rt, rs: 0, immediate }.encode())
    } else if chars_equal(&m, "move") {
        if n != 2 {
            return Err(count_message_exec(2, n));
        }
        let rd = register_operand_exec(&toks[1])?;
        let rs = register_operand_exec(&toks[2])?;
        Ok(Instruction::Addu { rd, rs, rt: 0 }.encode())
    } else if chars_equal(&m, "lw") || chars_equal(&m, "sw") {
        if n != 3 {
            return Err(count_message_exec(3, n));
        }
        let rt = register_operand_exec(&toks[1])?;
        let offset = i16_operand_exec(&toks[2])?;
        let base = register_operand_exec(&toks[3])?;
        if chars_equal(&m, "lw") {
            Ok(Instruction::Lw { rt, base, offset }.encode())
        } else {
            Ok(Instruction::Sw { rt, base, offset }.encode())
        }
    } else if chars_equal(&m, "beq") || chars_equal(&m, "bne") {
        if n != 3 {
            return Err(count_message_exec(3, n));
        }
        let rs = register_operand_exec(&toks[1])?;
        let rt = register_operand_exec(&toks[2])?;
        let target = address_operand_exec(&toks[3], symbols)?;
        let delta: i64 = (target as i64) - ((address as i64) + 4);
        if delta % 4 != 0 {
            return Err(text("branch target must be word-aligned"));
        }
        let scaled: i64 = delta / 4;
        proof {
            assert(delta as int % 4 == 0);
        }
        if scaled < -0x8000 || scaled > 0x7fff {
            return Err(text("branch target is outside the signed 16-bit range"));
        }
        let offset = scaled as i16;
        assert(offset as int == (delta as int) / 4);
        if chars_equal(&m, "beq") {
            Ok(Instruction::Beq { rs, rt, offset }.encode())
        } else {
            Ok(Instruction::Bne { rs, rt, offset }.encode())
        }
    } else if chars_equal(&m, "j") {
        if n != 1 {
            return Err(count_message_exec(1, n));
        }
        let target = address_operand_exec(&toks[1], symbols)?;
        if target % 4 != 0 {
            return Err(text("jump target must be word-aligned"));
        }
        assert(target >> 2u32 == target / 4) by (bit_vector);
        Ok(Instruction::J { target: target >> 2u32 }.encode())
    } else if chars_equal(&m, ".word") {
        if n != 1 {
            return Err(count_message_exec(1, n));
        }
        u32_operand_exec(&toks[1])
    } else {
        Err(quoted("unknown instruction `", &m, "`"))
    }
}

fn line_statement(line: &Vec<char>) -> (result: Result<(Option<Vec<char>>, Vec<char>), Vec<char>>)
    ensures
        match split_label(strip_comment(line@)) {
            Ok((label, statement)) => result matches Ok((l, st)) && st@ == statement && match label {
                Some(name) => l matches Some(x) && x@ == name,
                None => l is None,
            },
            Err(m) => result matches Err(e) && e@ == m,
        },
{
    let stripped = strip_comment_exec(line);
    split_label_exec(&stripped)
}

fn error_at(index: usize, message: Vec<char>) -> (error: AssemblerError)
    requires
        index < usize::MAX,
    ensures
        error.line == index + 1,
        error.message@ == message@,
{
    AssemblerError { line: index + 1, message: chars_to_string(&message) }
}

fn name_less_exec(a: &Vec<char>, b: &Vec<char>) -> (result: bool)
    ensures
        result == name_less(a@, b@),
{
    let mut i: usize = 0;
    assert(a@.skip(0) =~= a@ && b@.skip(0) =~= b@);
    loop
        invariant
            i <= a@.len(),
            i <= b@.len(),
            name_less(a@, b@) == name_less(a@.skip(i as int), b@.skip(i as int)),
        decreases a@.len() - i,
    {
        if i == a.len() {
            return i < b.len();
        }
        if i == b.len() {
            return false;
        }
        assert(a@.skip(i as int)[0] == a@[i as int] && b@.skip(i as int)[0] == b@[i as int]);
        if a[i] != b[i] {
            return a[i] < b[i];
        }
        assert(a@.skip(i as int).drop_first() =~= a@.skip(i + 1));
        assert(b@.skip(i as int).drop_first() =~= b@.skip(i + 1));
        i = i + 1;
    }
}

/// Inserts `entry` into `sorted` at the position `insert_by_name` gives it.
fn insert_symbol(sorted: &mut Vec<(Vec<char>, u32)>, entry: (Vec<char>, u32))
    ensures
        symbols_view(final(sorted)@) == insert_by_name(symbols_view(old(sorted)@), (entry.0@, entry.1)),
{
    let ghost e = (entry.0@, entry.1);
    let ghost v = symbols_view(sorted@);
    let n = sorted.len();
    let mut j: usize = 0;
    assert(v.take(0) + v.skip(0) =~= v);
    while j < n && !name_less_exec(&entry.0, &sorted[j].0)
        invariant
            n == sorted@.len(),
            v == symbols_view(sorted@),
            e == (entry.0@, entry.1),
            j <= n,
            insert_by_name(v, e) == v.take(j as int) + insert_by_name(v.skip(j as int), e),
        decreases n - j,
    {
        proof {
            let rest = v.skip(j as int);
            assert(rest[0] == v[j as int]);
            assert(rest.drop_first() =~= v.skip(j + 1));
            assert(v.take(j as int) + seq![v[j as int]] =~= v.take(j + 1));
            assert(v.take(j as int) + (seq![rest[0]] + insert_by_name(rest.drop_first(), e))
                =~= v.take(j + 1) + insert_by_name(v.skip(j + 1), e));
        }
        j = j + 1;
    }
    proof {
        if j < n {
            assert(v.skip(j as int)[0] == v[j as int]);
        } else {
            assert(v.skip(j as int) =~= seq![]);
        }
        assert(v.take(j as int) + insert_by_name(v.skip(j as int), e) =~= v.insert(j as int, e));
    }
    sorted.insert(j, entry);
    assert(symbols_view(sorted@) =~= v.insert(j as int, e));
}

/// The outcome of `assemble` agrees with the specified one.
pub open spec fn assembled(result: Result<Program, AssemblerError>, expected: Result<ProgramView, ErrorView>) -> bool {
    match expected {
        Ok(p) => result matches Ok(program) && program@ == p,
        Err(e) => result matches Err(error) && error.line as int == e.line && error.message@
            == e.message,
    }
}

/// Assembles source text in two passes: symbol discovery, then encoding.
pub fn assemble(source: &str) -> (result: Result<Program, AssemblerError>)
    ensures
        assembled(result, assemble_spec(source@)),
        result matches Ok(program) ==> program.words@.len() <= 0x4000_0000,
{
    proof {
        lemma_assemble_word_count(source@);
    }
    let chars = str_to_chars(source);
    let source_lines = split_lines(&chars);
    let ghost ls = lines(source@);
    assert(lines_view(source_lines@) == ls);
    let count = source_lines.len();
    let mut symbols: Vec<(Vec<char>, u32)> = Vec::new();
    let mut address: u32 = 0;
    let mut i: usize = 0;
    assert(symbols_view(symbols@) =~= seq![]);
    while i < count
        invariant
            count == source_lines@.len(),
            ls == lines_view(source_lines@),
            ls == lines(source@),
            i <= count,
            symbol_pass(ls, 0, seq![], 0) == symbol_pass(ls, i as int, symbols_view(symbols@), address),
        decreases count - i,
    {
        assert(source_lines@[i as int]@ == ls[i as int]);
        match line_statement(&source_lines[i]) {
            Err(message) => {
                return Err(error_at(i, message));
            },
            Ok((label, statement)) => {
                let ghost before = symbols_view(symbols@);
                match label {
                    Some(name) => {
                        if find_symbol(&symbols, &name).is_some() {
                            let message = quoted("duplicate label `", &name, "`");
                            return Err(error_at(i, message));
                        }
                        let ghost entry = (name@, address);
                        symbols.push((name, address));
                        assert(symbols_view(symbols@) =~= before.push(entry));
                    },
                    None => {},
                }
                if statement.len() > 0 {
                    if address > 0xffff_fffb {
                        return Err(error_at(i, text("program exceeds 32-bit address space")));
                    }
                    address = address + 4;
                }
            },
        }
        i = i + 1;
    }
    let ghost table = symbols_view(symbols@);
    let mut words: Vec<u32> = Vec::new();
    let mut numbers: Vec<usize> = Vec::new();
    address = 0;
    i = 0;
    while i < count
        invariant
            count == source_lines@.len(),
            ls == lines_view(source_lines@),
            ls == lines(source@),
            symbol_pass(ls, 0, seq![], 0) == Ok::<Symbols, ErrorView>(table),
            i <= count,
            table == symbols_view(symbols@),
            encoding_pass(ls, 0, table, 0, seq![], seq![]) == encoding_pass(
                ls,
                i as int,
                table,
                address,
                words@,
                numbers@,
            ),
        decreases count - i,
    {
        assert(source_lines@[i as int]@ == ls[i as int]);
        match line_statement(&source_lines[i]) {
            Err(message) => {
                return Err(error_at(i, message));
            },
            Ok((_, statement)) => {
                if statement.len() > 0 {
                    match assemble_statement(&statement, address, &symbols) {
                        Err(message) => {
                            return Err(error_at(i, message));
                        },
                        Ok(word) => {
                            words.push(word);
                            numbers.push(i + 1);
                            address = address.saturating_add(4);
                        },
                    }
                }
            },
        }
        i = i + 1;
    }
    let total = symbols.len();
    let mut sorted: Vec<(Vec<char>, u32)> = Vec::new();
    let mut k: usize = 0;
    assert(table.take(0) =~= seq![]);
    assert(symbols_view(sorted@) =~= seq![]);
    while k < total
        invariant
            total == symbols@.len(),
            table == symbols_view(symbols@),
            k <= total,
            symbols_view(sorted@) == sort_by_name(table.take(k as int)),
        decreases total - k,
    {
        let name = slice_chars(&symbols[k].0, 0, symbols[k].0.len());
        assert(name@ =~= symbols@[k as int].0@);
        insert_symbol(&mut sorted, (name, symbols[k].1));
        assert(table.take(k + 1).drop_last() =~= table.take(k as int));
        assert(table.take(k + 1).last() == table[k as int]);
        k = k + 1;
    }
    assert(table.take(total as int) =~= table);
    let mut named: Vec<(String, u32)> = Vec::new();
    let count_sorted = sorted.len();
    let mut m: usize = 0;
    while m < count_sorted
        invariant
            count_sorted == sorted@.len(),
            m <= count_sorted,
            named@.len() == m,
            program_symbols(named@) =~= symbols_view(sorted@).take(m as int),
        decreases count_sorted - m,
    {
        let name = chars_to_string(&sorted[m].0);
        let ghost before = named@;
        named.push((name, sorted[m].1));
        proof {
            assert(named@[m as int].0@ == sorted@[m as int].0@);
            assert(program_symbols(named@) =~= program_symbols(before).push(
                (sorted@[m as int].0@, sorted@[m as int].1),
            ));
            assert(symbols_view(sorted@).take(m + 1) =~= symbols_view(sorted@).take(
                m as int,
            ).push((sorted@[m as int].0@, sorted@[m as int].1)));
        }
        m = m + 1;
    }
    assert(symbols_view(sorted@).take(count_sorted as int) =~= sort_by_name(table));
    Ok(Program { words, source_lines: numbers, symbols: named })
}

impl Program {
    /// The address of the label `name`, if the program defines it.
    pub fn symbol(&self, name: &str) -> (address: Option<u32>)
        ensures
            address == symbol_lookup(self@.symbols, name@),
    {
        let target = str_to_chars(name);
        let n = self.symbols.len();
        let mut i: usize = 0;
        let ghost table = self@.symbols;
        assert(table.skip(0) =~= table);
        while i < n
            invariant
                n == self.symbols@.len(),
                table == self@.symbols,
                target@ == name@,
                i <= n,
                symbol_lookup(table, name@) == symbol_lookup(table.skip(i as int), name@),
            decreases n - i,
        {
            let ghost rest = table.skip(i as int);
            assert(rest[0] == (self.symbols@[i as int].0@, self.symbols@[i as int].1));
            let candidate = str_to_chars(self.symbols[i].0.as_str());
            if vec_equal(&candidate, &target) {
                return Some(self.symbols[i].1);
            }
            assert(rest.drop_first() =~= table.skip(i + 1));
            i = i + 1;
        }
        None
    }
}

} // verus!
