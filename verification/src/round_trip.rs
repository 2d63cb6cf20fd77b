//! Assembling the disassembly of an instruction gives back its encoding: the text that
//! `Instruction::disassemble` writes is source the assembler reads.

use vstd::prelude::*;
use crate::syntax::{
    digit_value, digits_valid, digits_value, integer_value, is_separator, parse_i64,
    parse_signed, parse_unsigned, starts_with, tokens, tokens_from,
};
use crate::assembler::{lemma_lookup_none, statement_spec, symbol_lookup, Symbols};
use crate::isa::{disassemble_spec, encode_spec, register_name_spec, three_register_text, Instruction};
use crate::syntax::{is_identifier, lemma_register_names_parse, register_number, to_lower};
use crate::text::{decimal, digit_char, hex_char, hex_digits, signed_decimal};

verus! {

/// No character of `s` ends a token.
pub open spec fn separator_free(s: Seq<char>) -> bool {
    forall|k: int| 0 <= k < s.len() ==> !is_separator(#[trigger] s[k])
}

/// Reading past a prefix: the tokens of `x + y` from inside `y` are those of `y`.
proof fn lemma_tokens_shift(x: Seq<char>, y: Seq<char>, j: int, current: Seq<char>)
    requires
        0 <= j,
    ensures
        tokens_from(x + y, x.len() + j, current) == tokens_from(y, j, current),
    decreases y.len() - j,
{
    if j < y.len() {
        assert((x + y)[x.len() + j] == y[j]);
        lemma_tokens_shift(x, y, j + 1, seq![]);
        lemma_tokens_shift(x, y, j + 1, current.push(y[j]));
    }
}

/// Reading a run of characters that are not separators adds them to the current token.
proof fn lemma_tokens_word(p: Seq<char>, q: Seq<char>, i: int, current: Seq<char>)
    requires
        separator_free(p),
        0 <= i <= p.len(),
    ensures
        tokens_from(p + q, i, current) == tokens_from(p + q, p.len() as int, current + p.skip(i)),
    decreases p.len() - i,
{
    if i < p.len() {
        assert((p + q)[i] == p[i]);
        lemma_tokens_word(p, q, i + 1, current.push(p[i]));
        assert(current.push(p[i]) + p.skip(i + 1) =~= current + p.skip(i));
    } else {
        assert(current + p.skip(i) =~= current);
    }
}

/// A separator-free word followed by a separator is one token.
pub proof fn lemma_tokens_cons(p: Seq<char>, c: char, r: Seq<char>)
    requires
        p.len() > 0,
        separator_free(p),
        is_separator(c),
    ensures
        tokens(p + (seq![c] + r)) == seq![p] + tokens(r),
{
    let q = seq![c] + r;
    lemma_tokens_word(p, q, 0, seq![]);
    assert(seq![] + p.skip(0) =~= p);
    lemma_tokens_shift(p, q, 0, p);
    lemma_tokens_shift(p, q, 1, seq![]);
    lemma_tokens_shift(seq![c], r, 0, seq![]);
    assert(q[0] == c);
}

/// A leading separator is skipped.
pub proof fn lemma_tokens_skip(c: char, r: Seq<char>)
    requires
        is_separator(c),
    ensures
        tokens(seq![c] + r) == tokens(r),
{
    let s = seq![c] + r;
    assert(s[0] == c);
    lemma_tokens_shift(seq![c], r, 0, seq![]);
    assert(seq![] + tokens_from(s, 1, seq![]) =~= tokens_from(s, 1, seq![]));
}

/// A separator-free word is one token.
pub proof fn lemma_tokens_last(p: Seq<char>)
    requires
        p.len() > 0,
        separator_free(p),
    ensures
        tokens(p) == seq![p],
{
    lemma_tokens_word(p, seq![], 0, seq![]);
    assert(p + Seq::<char>::empty() =~= p);
    assert(seq![] + p.skip(0) =~= p);
}

/// A decimal digit character reads back as its value.
proof fn lemma_digit_char(d: nat)
    requires
        d < 10,
    ensures
        digit_value(digit_char(d), false) == Some(d),
        digit_value(digit_char(d), true) == Some(d),
        '0' <= digit_char(d) <= '9',
{
}

/// A hexadecimal digit character reads back as its value.
proof fn lemma_hex_char(d: nat)
    requires
        d < 16,
    ensures
        digit_value(hex_char(d), true) == Some(d),
        ('0' <= hex_char(d) <= '9') || ('a' <= hex_char(d) <= 'f'),
{
    if d < 10 {
        lemma_digit_char(d);
    }
}

/// The decimal rendering of `n` is a run of digits whose value is `n`.
pub proof fn lemma_decimal_digits(n: nat)
    ensures
        decimal(n).len() > 0,
        digits_valid(decimal(n), false),
        digits_value(decimal(n), false) == n,
        forall|k: int| 0 <= k < decimal(n).len() ==> '0' <= #[trigger] decimal(n)[k] <= '9',
    decreases n,
{
    if n < 10 {
        lemma_digit_char(n);
        let s = decimal(n);
        assert(s.drop_last() =~= Seq::<char>::empty());
        assert(digits_value(Seq::<char>::empty(), false) == 0);
    } else {
        lemma_decimal_digits(n / 10);
        lemma_digit_char(n % 10);
        let s = decimal(n);
        assert(s.drop_last() =~= decimal(n / 10));
        assert forall|k: int| 0 <= k < s.len() implies (#[trigger] digit_value(s[k], false)) is Some by {
            if k < s.len() - 1 {
                assert(s[k] == decimal(n / 10)[k]);
            }
        }
        assert forall|k: int| 0 <= k < s.len() implies '0' <= #[trigger] s[k] <= '9' by {
            if k < s.len() - 1 {
                assert(s[k] == decimal(n / 10)[k]);
            }
        }
    }
}

/// `16^w`.
pub open spec fn pow16(w: nat) -> nat
    decreases w,
{
    if w == 0 {
        1
    } else {
        16 * pow16((w - 1) as nat)
    }
}

/// `w` hexadecimal digits of an `n` below `16^w` are a run of digits whose value is `n`.
pub proof fn lemma_hex_digits(n: nat, w: nat)
    requires
        n < pow16(w),
    ensures
        hex_digits(n, w).len() == w,
        digits_value(hex_digits(n, w), true) == n,
        forall|k: int| 0 <= k < w ==> (#[trigger] digit_value(hex_digits(n, w)[k], true)) is Some,
        forall|k: int|
            0 <= k < w ==> ('0' <= #[trigger] hex_digits(n, w)[k] <= '9') || ('a' <= hex_digits(n, w)[k]
                <= 'f'),
    decreases w,
{
    if w > 0 {
        let p = pow16((w - 1) as nat);
        assert(n / 16 < p) by (nonlinear_arith)
            requires
                n < 16 * p,
        ;
        lemma_hex_digits(n / 16, (w - 1) as nat);
        lemma_hex_char(n % 16);
        let s = hex_digits(n, w);
        assert(s.drop_last() =~= hex_digits(n / 16, (w - 1) as nat));
        assert forall|k: int| 0 <= k < w implies (#[trigger] digit_value(s[k], true)) is Some && (('0'
            <= s[k] <= '9') || ('a' <= s[k] <= 'f')) by {
            if k < w - 1 {
                assert(s[k] == hex_digits(n / 16, (w - 1) as nat)[k]);
            }
        }
    }
}

/// A decimal rendering with an optional minus sign reads back as the integer.
pub proof fn lemma_signed_decimal_reads_back(v: int)
    requires
        i64::MIN < v <= i64::MAX,
    ensures
        integer_value(signed_decimal(v)) == Some(v),
        signed_decimal(v).len() > 0,
        separator_free(signed_decimal(v)),
{
    let magnitude: nat = if v < 0 {
        (-v) as nat
    } else {
        v as nat
    };
    lemma_decimal_digits(magnitude);
    let d = decimal(magnitude);
    let t = signed_decimal(v);
    if v < 0 {
        assert(t =~= seq!['-'] + d);
        assert(t.skip(1) =~= d);
        assert(!starts_with(t, seq!['0', 'x'])) by {
            assert(t[0] == '-');
            if starts_with(t, seq!['0', 'x']) {
                assert(t.take(2)[0] == t[0]);
            }
        }
        assert(!starts_with(t, seq!['-', '0', 'x'])) by {
            if starts_with(t, seq!['-', '0', 'x']) {
                assert(t.take(3)[2] == t[2]);
                assert(t[2] == d[1]);
            }
        }
        assert(parse_signed(t, false) == Some(v));
        assert forall|k: int| 0 <= k < t.len() implies !is_separator(#[trigger] t[k]) by {
            if k > 0 {
                assert(t[k] == d[k - 1]);
            }
        }
    } else {
        assert(t == d);
        assert(!starts_with(t, seq!['0', 'x'])) by {
            if starts_with(t, seq!['0', 'x']) {
                assert(t.take(2)[1] == t[1]);
            }
        }
        assert(!starts_with(t, seq!['-', '0', 'x'])) by {
            if starts_with(t, seq!['-', '0', 'x']) {
                assert(t.take(3)[0] == t[0]);
            }
        }
        assert(t[0] != '+' && t[0] != '-');
        assert(parse_unsigned(t, false) == Some(magnitude));
        assert(parse_signed(t, false) == Some(v));
    }
    assert(parse_i64(t, false) == Some(v));
}

/// `0x` followed by eight hexadecimal digits of an `n` below 2^32 reads back as `n`.
pub proof fn lemma_hex_word_reads_back(n: nat)
    requires
        n < 0x1_0000_0000,
    ensures
        integer_value(seq!['0', 'x'] + hex_digits(n, 8)) == Some(n as int),
        separator_free(seq!['0', 'x'] + hex_digits(n, 8)),
{
    assert(pow16(8) == 0x1_0000_0000) by {
        reveal_with_fuel(pow16, 9);
    }
    lemma_hex_digits(n, 8);
    let h = hex_digits(n, 8);
    let t = seq!['0', 'x'] + h;
    assert(t.take(2) =~= seq!['0', 'x']);
    assert(t.skip(2) =~= h);
    assert(h[0] != '+' && h[0] != '-');
    assert(digits_valid(h, true));
    assert(parse_unsigned(h, true) == Some(n));
    assert(parse_signed(h, true) == Some(n as int));
    assert forall|k: int| 0 <= k < t.len() implies !is_separator(#[trigger] t[k]) by {
        if k >= 2 {
            assert(t[k] == h[k - 2]);
        }
    }
}

/// `$`, a lower-case ASCII letter or a decimal digit.
pub open spec fn register_name_char(c: char) -> bool {
    c == '$' || ('a' <= c <= 'z') || ('0' <= c <= '9')
}

/// The names of registers 0 to 7 are `$` and lower-case letters and digits.
proof fn lemma_register_name_chars_0(index: u8)
    requires
        0 <= index < 8,
    ensures
        register_name_spec(index).len() > 0,
        forall|k: int|
            0 <= k < register_name_spec(index).len() ==> register_name_char(
                #[trigger] register_name_spec(index)[k],
            ),
{
    reveal_strlit("$zero");
    reveal_strlit("$at");
    reveal_strlit("$v0");
    reveal_strlit("$v1");
    reveal_strlit("$a0");
    reveal_strlit("$a1");
    reveal_strlit("$a2");
    reveal_strlit("$a3");
}

/// The names of registers 8 to 15 are `$` and lower-case letters and digits.
proof fn lemma_register_name_chars_1(index: u8)
    requires
        8 <= index < 16,
    ensures
        register_name_spec(index).len() > 0,
        forall|k: int|
            0 <= k < register_name_spec(index).len() ==> register_name_char(
                #[trigger] register_name_spec(index)[k],
            ),
{
    reveal_strlit("$t0");
    reveal_strlit("$t1");
    reveal_strlit("$t2");
    reveal_strlit("$t3");
    reveal_strlit("$t4");
    reveal_strlit("$t5");
    reveal_strlit("$t6");
    reveal_strlit("$t7");
}

/// The names of registers 16 to 23 are `$` and lower-case letters and digits.
proof fn lemma_register_name_chars_2(index: u8)
    requires
        16 <= index < 24,
    ensures
        register_name_spec(index).len() > 0,
        forall|k: int|
            0 <= k < register_name_spec(index).len() ==> register_name_char(
                #[trigger] register_name_spec(index)[k],
            ),
{
    reveal_strlit("$s0");
    reveal_strlit("$s1");
    reveal_strlit("$s2");
    reveal_strlit("$s3");
    reveal_strlit("$s4");
    reveal_strlit("$s5");
    reveal_strlit("$s6");
    reveal_strlit("$s7");
}

/// The names of registers 24 to 31 are `$` and lower-case letters and digits.
proof fn lemma_register_name_chars_3(index: u8)
    requires
        24 <= index < 32,
    ensures
        register_name_spec(index).len() > 0,
        forall|k: int|
            0 <= k < register_name_spec(index).len() ==> register_name_char(
                #[trigger] register_name_spec(index)[k],
            ),
{
    reveal_strlit("$t8");
    reveal_strlit("$t9");
    reveal_strlit("$k0");
    reveal_strlit("$k1");
    reveal_strlit("$gp");
    reveal_strlit("$sp");
    reveal_strlit("$fp");
    reveal_strlit("$ra");
}

/// A register's conventional name is one token that reads back as the register.
pub proof fn lemma_register_name_token(index: u8)
    requires
        index < 32,
    ensures
        register_name_spec(index).len() > 0,
        separator_free(register_name_spec(index)),
        register_number(register_name_spec(index)) == Some(index),
{
    if index < 8 {
        lemma_register_name_chars_0(index);
    } else if index < 16 {
        lemma_register_name_chars_1(index);
    } else if index < 24 {
        lemma_register_name_chars_2(index);
    } else {
        lemma_register_name_chars_3(index);
    }
    lemma_register_names_parse(index);
    let name = register_name_spec(index);
    assert forall|k: int| 0 <= k < name.len() implies !is_separator(#[trigger] name[k]) by {
        assert(register_name_char(name[k]));
    }
}

/// A word, a space, and three words separated by `, ` are four tokens.
proof fn lemma_tokens_three_operands(m: Seq<char>, a: Seq<char>, b: Seq<char>, c: Seq<char>)
    requires
        m.len() > 0 && separator_free(m),
        a.len() > 0 && separator_free(a),
        b.len() > 0 && separator_free(b),
        c.len() > 0 && separator_free(c),
    ensures
        tokens(m + " "@ + a + ", "@ + b + ", "@ + c) == seq![m, a, b, c],
{
    reveal_strlit(" ");
    reveal_strlit(", ");
    let tail_c = seq![' '] + c;
    let tail_b = seq![' '] + (b + (seq![','] + tail_c));
    let tail_a = seq![' '] + (a + (seq![','] + tail_b));
    assert(m + " "@ + a + ", "@ + b + ", "@ + c =~= m + tail_a);
    lemma_tokens_cons(m, ' ', a + (seq![','] + tail_b));
    lemma_tokens_cons(a, ',', tail_b);
    lemma_tokens_skip(' ', b + (seq![','] + tail_c));
    lemma_tokens_cons(b, ',', tail_c);
    lemma_tokens_skip(' ', c);
    lemma_tokens_last(c);
    assert(seq![m] + (seq![a] + (seq![b] + seq![c])) =~= seq![m, a, b, c]);
}

/// The text of a load or store, `m a, b(c)`, is four tokens.
proof fn lemma_tokens_memory(m: Seq<char>, a: Seq<char>, b: Seq<char>, c: Seq<char>)
    requires
        m.len() > 0 && separator_free(m),
        a.len() > 0 && separator_free(a),
        b.len() > 0 && separator_free(b),
        c.len() > 0 && separator_free(c),
    ensures
        tokens(m + " "@ + a + ", "@ + b + "("@ + c + ")"@) == seq![m, a, b, c],
{
    reveal_strlit(" ");
    reveal_strlit(", ");
    reveal_strlit("(");
    reveal_strlit(")");
    let tail_c = c + (seq![')'] + Seq::<char>::empty());
    let tail_b = seq![' '] + (b + (seq!['('] + tail_c));
    assert(m + " "@ + a + ", "@ + b + "("@ + c + ")"@ =~= m + (seq![' '] + (a + (seq![','] + tail_b))));
    lemma_tokens_cons(m, ' ', a + (seq![','] + tail_b));
    lemma_tokens_cons(a, ',', tail_b);
    lemma_tokens_skip(' ', b + (seq!['('] + tail_c));
    lemma_tokens_cons(b, '(', tail_c);
    lemma_tokens_cons(c, ')', Seq::<char>::empty());
    assert(tokens(Seq::<char>::empty()) =~= Seq::<Seq<char>>::empty());
    assert(seq![m] + (seq![a] + (seq![b] + (seq![c] + Seq::<Seq<char>>::empty()))) =~= seq![m, a, b, c]);
}

/// A word, a space and one more word are two tokens.
proof fn lemma_tokens_one_operand(m: Seq<char>, a: Seq<char>)
    requires
        m.len() > 0 && separator_free(m),
        a.len() > 0 && separator_free(a),
    ensures
        tokens(m + " "@ + a) == seq![m, a],
{
    reveal_strlit(" ");
    assert(m + " "@ + a =~= m + (seq![' '] + a));
    lemma_tokens_cons(m, ' ', a);
    lemma_tokens_last(a);
    assert(seq![m] + seq![a] =~= seq![m, a]);
}

/// A lower-case mnemonic is one token and is its own lower-case form.
proof fn lemma_mnemonic(m: Seq<char>)
    requires
        m.len() > 0,
        forall|k: int| 0 <= k < m.len() ==> 'a' <= #[trigger] m[k] <= 'z',
    ensures
        separator_free(m),
        crate::syntax::to_lower(m) == m,
{
    assert(crate::syntax::to_lower(m) =~= m);
}

/// A statement whose tokens are a three-register mnemonic and three register names
/// assembles to that instruction.
#[verifier::spinoff_prover]
proof fn lemma_register_statement(text: Seq<char>, m: Seq<char>, rd: u8, rs: u8, rt: u8, address: u32, symbols: Symbols)
    requires
        crate::assembler::is_register_mnemonic(m),
        crate::syntax::to_lower(m) == m,
        rd < 32 && rs < 32 && rt < 32,
        tokens(text) == seq![m, register_name_spec(rd), register_name_spec(rs), register_name_spec(rt)],
        register_number(register_name_spec(rd)) == Some(rd),
        register_number(register_name_spec(rs)) == Some(rs),
        register_number(register_name_spec(rt)) == Some(rt),
    ensures
        statement_spec(text, address, symbols) == Ok::<u32, Seq<char>>(
            encode_spec(crate::assembler::register_instruction(m, rd, rs, rt)),
        ),
{
    reveal_strlit("nop");
    reveal_strlit("halt");
    reveal_strlit("addu");
    reveal_strlit("subu");
    reveal_strlit("and");
    reveal_strlit("or");
    reveal_strlit("slt");
    let toks = tokens(text);
    let ops = toks.skip(1);
    assert(ops =~= seq![register_name_spec(rd), register_name_spec(rs), register_name_spec(rt)]);
    assert(toks.len() == 4);
    assert(to_lower(toks[0]) == m);
    assert("addu"@[0] != "halt"@[0]);
    assert("subu"@[0] != "halt"@[0]);
    assert("and"@[0] != "nop"@[0]);
    assert("slt"@[0] != "nop"@[0]);
    assert(m != "nop"@ && m != "halt"@);
    assert(crate::assembler::register_operand(ops[0]) == Ok::<u8, Seq<char>>(rd));
    assert(crate::assembler::register_operand(ops[1]) == Ok::<u8, Seq<char>>(rs));
    assert(crate::assembler::register_operand(ops[2]) == Ok::<u8, Seq<char>>(rt));
}

/// `addu`, `subu`, `and`, `or` and `slt` assemble back from their disassembly.
#[verifier::spinoff_prover]
proof fn lemma_three_register_round_trip(instruction: Instruction, address: u32, symbols: Symbols)
    requires
        instruction.well_formed(),
        instruction is Addu || instruction is Subu || instruction is And || instruction is Or
            || instruction is Slt,
    ensures
        statement_spec(disassemble_spec(instruction), address, symbols) == Ok::<u32, Seq<char>>(
            encode_spec(instruction),
        ),
{
    reveal_strlit("addu");
    reveal_strlit("subu");
    reveal_strlit("and");
    reveal_strlit("or");
    reveal_strlit("slt");
    let (m, rd, rs, rt): (Seq<char>, u8, u8, u8) = match instruction {
        Instruction::Addu { rd, rs, rt } => ("addu"@, rd, rs, rt),
        Instruction::Subu { rd, rs, rt } => ("subu"@, rd, rs, rt),
        Instruction::And { rd, rs, rt } => ("and"@, rd, rs, rt),
        Instruction::Or { rd, rs, rt } => ("or"@, rd, rs, rt),
        Instruction::Slt { rd, rs, rt } => ("slt"@, rd, rs, rt),
        _ => arbitrary(),
    };
    assert(disassemble_spec(instruction) == three_register_text(m, rd, rs, rt));
    assert(crate::assembler::register_instruction(m, rd, rs, rt) == instruction);
    lemma_mnemonic(m);
    lemma_register_name_token(rd);
    lemma_register_name_token(rs);
    lemma_register_name_token(rt);
    lemma_tokens_three_operands(m, register_name_spec(rd), register_name_spec(rs), register_name_spec(rt));
    lemma_register_statement(disassemble_spec(instruction), m, rd, rs, rt, address, symbols);
}

/// `sll` assembles back from its disassembly.
#[verifier::spinoff_prover]
proof fn lemma_shift_round_trip(instruction: Instruction, address: u32, symbols: Symbols)
    requires
        instruction.well_formed(),
        instruction is Sll,
    ensures
        statement_spec(disassemble_spec(instruction), address, symbols) == Ok::<u32, Seq<char>>(
            encode_spec(instruction),
        ),
{
    let (rd, rt, shamt) = match instruction {
        Instruction::Sll { rd, rt, shamt } => (rd, rt, shamt),
        _ => arbitrary(),
    };
    reveal_strlit("sll ");
    reveal_strlit("sll");
    reveal_strlit(" ");
    reveal_strlit("nop");
    reveal_strlit("halt");
    reveal_strlit("addu");
    reveal_strlit("subu");
    reveal_strlit("and");
    reveal_strlit("or");
    reveal_strlit("slt");
    let m = "sll"@;
    let a = register_name_spec(rd);
    let b = register_name_spec(rt);
    let c = decimal(shamt as nat);
    assert(c == signed_decimal(shamt as int));
    let text = disassemble_spec(instruction);
    assert(text =~= m + " "@ + a + ", "@ + b + ", "@ + c);
    lemma_mnemonic(m);
    lemma_register_name_token(rd);
    lemma_register_name_token(rt);
    lemma_signed_decimal_reads_back(shamt as int);
    lemma_tokens_three_operands(m, a, b, c);
    let toks = tokens(text);
    let ops = toks.skip(1);
    assert(ops =~= seq![a, b, c]);
    assert("sll"@[0] != "nop"@[0]);
    assert("sll"@[0] != "and"@[0]);
    assert("sll"@[2] != "slt"@[2]);
    assert(to_lower(toks[0]) == m);
    assert(!crate::assembler::is_register_mnemonic(m));
}

/// `addiu` assembles back from its disassembly.
#[verifier::spinoff_prover]
proof fn lemma_immediate_round_trip(instruction: Instruction, address: u32, symbols: Symbols)
    requires
        instruction.well_formed(),
        instruction is Addiu,
    ensures
        statement_spec(disassemble_spec(instruction), address, symbols) == Ok::<u32, Seq<char>>(
            encode_spec(instruction),
        ),
{
    let (rt, rs, immediate) = match instruction {
        Instruction::Addiu { rt, rs, immediate } => (rt, rs, immediate),
        _ => arbitrary(),
    };
    reveal_strlit("addiu ");
    reveal_strlit("addiu");
    reveal_strlit(" ");
    reveal_strlit("nop");
    reveal_strlit("halt");
    reveal_strlit("addu");
    reveal_strlit("subu");
    reveal_strlit("and");
    reveal_strlit("or");
    reveal_strlit("slt");
    reveal_strlit("sll");
    let m = "addiu"@;
    let a = register_name_spec(rt);
    let b = register_name_spec(rs);
    let c = signed_decimal(immediate as int);
    let text = disassemble_spec(instruction);
    assert(text =~= m + " "@ + a + ", "@ + b + ", "@ + c);
    lemma_mnemonic(m);
    lemma_register_name_token(rt);
    lemma_register_name_token(rs);
    lemma_signed_decimal_reads_back(immediate as int);
    lemma_tokens_three_operands(m, a, b, c);
    let toks = tokens(text);
    let ops = toks.skip(1);
    assert(ops =~= seq![a, b, c]);
    assert(to_lower(toks[0]) == m);
    assert(!crate::assembler::is_register_mnemonic(m));
}

/// A statement whose tokens are `lw` or `sw`, a register name, an offset and a base register
/// name assembles to that load or store.
#[verifier::spinoff_prover]
proof fn lemma_memory_statement(
    text: Seq<char>,
    m: Seq<char>,
    rt: u8,
    base: u8,
    offset: i16,
    address: u32,
    symbols: Symbols,
)
    requires
        m == "lw"@ || m == "sw"@,
        to_lower(m) == m,
        tokens(text) == seq![m, register_name_spec(rt), signed_decimal(offset as int), register_name_spec(base)],
        register_number(register_name_spec(rt)) == Some(rt),
        register_number(register_name_spec(base)) == Some(base),
        integer_value(signed_decimal(offset as int)) == Some(offset as int),
    ensures
        statement_spec(text, address, symbols) == Ok::<u32, Seq<char>>(
            encode_spec(
                if m == "lw"@ {
                    Instruction::Lw { rt, base, offset }
                } else {
                    Instruction::Sw { rt, base, offset }
                },
            ),
        ),
{
    reveal_strlit("lw");
    reveal_strlit("sw");
    reveal_strlit("nop");
    reveal_strlit("halt");
    reveal_strlit("addu");
    reveal_strlit("subu");
    reveal_strlit("and");
    reveal_strlit("or");
    reveal_strlit("slt");
    reveal_strlit("sll");
    reveal_strlit("addiu");
    reveal_strlit("li");
    reveal_strlit("move");
    let toks = tokens(text);
    let ops = toks.skip(1);
    assert(ops =~= seq![register_name_spec(rt), signed_decimal(offset as int), register_name_spec(base)]);
    assert("lw"@[0] != "or"@[0] && "sw"@[0] != "or"@[0]);
    assert("lw"@[1] != "li"@[1] && "sw"@[0] != "li"@[0]);
    assert("sw"@[0] != "lw"@[0]);
    assert(!crate::assembler::is_register_mnemonic(m));
}

/// `lw` and `sw` assemble back from their disassembly.
#[verifier::spinoff_prover]
proof fn lemma_memory_round_trip(instruction: Instruction, address: u32, symbols: Symbols)
    requires
        instruction.well_formed(),
        instruction is Lw || instruction is Sw,
    ensures
        statement_spec(disassemble_spec(instruction), address, symbols) == Ok::<u32, Seq<char>>(
            encode_spec(instruction),
        ),
{
    let (m, rt, base, offset): (Seq<char>, u8, u8, i16) = match instruction {
        Instruction::Lw { rt, base, offset } => ("lw"@, rt, base, offset),
        Instruction::Sw { rt, base, offset } => ("sw"@, rt, base, offset),
        _ => arbitrary(),
    };
    reveal_strlit("lw ");
    reveal_strlit("sw ");
    reveal_strlit("lw");
    reveal_strlit("sw");
    reveal_strlit(" ");
    let a = register_name_spec(rt);
    let b = signed_decimal(offset as int);
    let c = register_name_spec(base);
    let text = disassemble_spec(instruction);
    assert(text =~= m + " "@ + a + ", "@ + b + "("@ + c + ")"@);
    lemma_mnemonic(m);
    lemma_register_name_token(rt);
    lemma_register_name_token(base);
    lemma_signed_decimal_reads_back(offset as int);
    lemma_tokens_memory(m, a, b, c);
    assert("sw"@[0] != "lw"@[0]);
    lemma_memory_statement(text, m, rt, base, offset, address, symbols);
}

/// `j` assembles back from its disassembly, whatever labels are defined.
#[verifier::spinoff_prover]
proof fn lemma_jump_round_trip(instruction: Instruction, address: u32, symbols: Symbols)
    requires
        instruction.well_formed(),
        instruction is J,
        forall|k: int| 0 <= k < symbols.len() ==> is_identifier(#[trigger] symbols[k].0),
    ensures
        statement_spec(disassemble_spec(instruction), address, symbols) == Ok::<u32, Seq<char>>(
            encode_spec(instruction),
        ),
{
    let target = match instruction {
        Instruction::J { target } => target,
        _ => arbitrary(),
    };
    reveal_strlit("j 0x");
    reveal_strlit("j");
    reveal_strlit(" ");
    let shifted = target << 2u32;
    assert((target << 2u32) as int == target * 4 && (target << 2u32) / 4 == target) by (bit_vector)
        requires
            target < 0x0400_0000u32,
    ;
    let a = seq!['0', 'x'] + hex_digits(shifted as nat, 8);
    let text = disassemble_spec(instruction);
    assert(text =~= "j"@ + " "@ + a);
    lemma_mnemonic("j"@);
    lemma_hex_word_reads_back(shifted as nat);
    lemma_tokens_one_operand("j"@, a);
    let toks = tokens(text);
    let ops = toks.skip(1);
    assert(ops =~= seq![a]);
    assert(to_lower(toks[0]) == "j"@);
    lemma_number_is_no_label(symbols, a);
    lemma_jump_statement(text, a, shifted, address, symbols);
    assert(Instruction::J { target: shifted / 4 } == instruction);
}

/// A statement whose tokens are `j` and an address that no label names assembles to a jump
/// to that address.
#[verifier::spinoff_prover]
proof fn lemma_jump_statement(text: Seq<char>, a: Seq<char>, target: u32, address: u32, symbols: Symbols)
    requires
        tokens(text) == seq!["j"@, a],
        to_lower("j"@) == "j"@,
        symbol_lookup(symbols, a) is None,
        integer_value(a) == Some(target as int),
        target % 4 == 0,
    ensures
        statement_spec(text, address, symbols) == Ok::<u32, Seq<char>>(
            encode_spec(Instruction::J { target: target / 4 }),
        ),
{
    reveal_strlit("j");
    reveal_strlit("nop");
    reveal_strlit("halt");
    reveal_strlit("addu");
    reveal_strlit("subu");
    reveal_strlit("and");
    reveal_strlit("or");
    reveal_strlit("slt");
    reveal_strlit("sll");
    reveal_strlit("addiu");
    reveal_strlit("li");
    reveal_strlit("move");
    reveal_strlit("lw");
    reveal_strlit("sw");
    reveal_strlit("beq");
    reveal_strlit("bne");
    let toks = tokens(text);
    let ops = toks.skip(1);
    assert(ops =~= seq![a]);
    assert(!crate::assembler::is_register_mnemonic("j"@));
    assert(crate::assembler::address_operand(a, symbols) == Ok::<u32, Seq<char>>(target));
}

/// `nop` and `halt` assemble back from their disassembly.
proof fn lemma_bare_round_trip(instruction: Instruction, address: u32, symbols: Symbols)
    requires
        instruction is Nop || instruction is Halt,
    ensures
        statement_spec(disassemble_spec(instruction), address, symbols) == Ok::<u32, Seq<char>>(
            encode_spec(instruction),
        ),
{
    reveal_strlit("nop");
    reveal_strlit("halt");
    let m = disassemble_spec(instruction);
    lemma_mnemonic(m);
    lemma_tokens_last(m);
    assert(tokens(m).skip(1) =~= Seq::<Seq<char>>::empty());
}

/// Assembling the disassembly of an instruction gives back its encoding, for every
/// well-formed instruction but a branch (whose text gives a relative offset where the
/// assembler reads a target address), at any address and with any labels defined.
pub proof fn lemma_assemble_disassembly(instruction: Instruction, address: u32, symbols: Symbols)
    requires
        instruction.well_formed(),
        !(instruction is Beq),
        !(instruction is Bne),
        forall|k: int| 0 <= k < symbols.len() ==> is_identifier(#[trigger] symbols[k].0),
    ensures
        statement_spec(disassemble_spec(instruction), address, symbols) == Ok::<u32, Seq<char>>(
            encode_spec(instruction),
        ),
{
    match instruction {
        Instruction::Nop | Instruction::Halt => lemma_bare_round_trip(instruction, address, symbols),
        Instruction::Addu { .. } | Instruction::Subu { .. } | Instruction::And { .. }
        | Instruction::Or { .. } | Instruction::Slt { .. } => lemma_three_register_round_trip(
            instruction,
            address,
            symbols,
        ),
        Instruction::Sll { .. } => lemma_shift_round_trip(instruction, address, symbols),
        Instruction::Addiu { .. } => lemma_immediate_round_trip(instruction, address, symbols),
        Instruction::Lw { .. } | Instruction::Sw { .. } => lemma_memory_round_trip(
            instruction,
            address,
            symbols,
        ),
        Instruction::J { .. } => lemma_jump_round_trip(instruction, address, symbols),
        _ => {},
    }
}

/// A token that starts with a digit names no label.
proof fn lemma_number_is_no_label(symbols: Symbols, a: Seq<char>)
    requires
        a.len() > 0,
        a[0] == '0',
        forall|k: int| 0 <= k < symbols.len() ==> is_identifier(#[trigger] symbols[k].0),
    ensures
        symbol_lookup(symbols, a) is None,
{
    assert(!is_identifier(a));
    lemma_lookup_none(symbols, a);
}

/// A statement whose tokens are `beq` or `bne`, two register names and an address operand
/// that names `target` assembles to the branch whose offset counts the words from the next
/// instruction to `target`, when that distance is whole words within 16 bits, and is refused
/// otherwise.
#[verifier::spinoff_prover]
proof fn lemma_branch_statement(
    text: Seq<char>,
    m: Seq<char>,
    rs: u8,
    rt: u8,
    operand: Seq<char>,
    target: u32,
    address: u32,
    symbols: Symbols,
)
    requires
        m == "beq"@ || m == "bne"@,
        to_lower(m) == m,
        tokens(text) == seq![m, register_name_spec(rs), register_name_spec(rt), operand],
        register_number(register_name_spec(rs)) == Some(rs),
        register_number(register_name_spec(rt)) == Some(rt),
        crate::assembler::address_operand(operand, symbols) == Ok::<u32, Seq<char>>(target),
    ensures
        ({
            let distance = target as int - (address as int + 4);
            statement_spec(text, address, symbols) == if distance % 4 != 0 {
                Err::<u32, Seq<char>>("branch target must be word-aligned"@)
            } else if !(-0x8000 <= distance / 4 <= 0x7fff) {
                Err::<u32, Seq<char>>("branch target is outside the signed 16-bit range"@)
            } else if m == "beq"@ {
                Ok(encode_spec(Instruction::Beq { rs, rt, offset: (distance / 4) as i16 }))
            } else {
                Ok(encode_spec(Instruction::Bne { rs, rt, offset: (distance / 4) as i16 }))
            }
        }),
{
    reveal_strlit("beq");
    reveal_strlit("bne");
    reveal_strlit("nop");
    reveal_strlit("halt");
    reveal_strlit("addu");
    reveal_strlit("subu");
    reveal_strlit("and");
    reveal_strlit("or");
    reveal_strlit("slt");
    reveal_strlit("sll");
    reveal_strlit("addiu");
    reveal_strlit("li");
    reveal_strlit("move");
    reveal_strlit("lw");
    reveal_strlit("sw");
    let toks = tokens(text);
    let ops = toks.skip(1);
    assert(ops =~= seq![register_name_spec(rs), register_name_spec(rt), operand]);
    assert("beq"@[0] != "and"@[0] && "bne"@[0] != "and"@[0]);
    assert("beq"@[0] != "nop"@[0] && "bne"@[0] != "nop"@[0]);
    assert("beq"@[0] != "slt"@[0] && "bne"@[0] != "slt"@[0]);
    assert("beq"@[0] != "sll"@[0] && "bne"@[0] != "sll"@[0]);
    assert("bne"@[1] != "beq"@[1]);
    assert(!crate::assembler::is_register_mnemonic(m));
}

/// Branches assemble from source: `beq rs, rt, operand` (and `bne`), whose operand is a label
/// or an address, at `address` becomes the branch whose offset is the number of words from the
/// next instruction to the target, when that is a whole number of words within 16 bits; the
/// statement is refused otherwise.
pub proof fn lemma_branch_assembles(
    is_beq: bool,
    rs: u8,
    rt: u8,
    operand: Seq<char>,
    target: u32,
    address: u32,
    symbols: Symbols,
)
    requires
        rs < 32,
        rt < 32,
        operand.len() > 0,
        separator_free(operand),
        crate::assembler::address_operand(operand, symbols) == Ok::<u32, Seq<char>>(target),
    ensures
        ({
            let m = if is_beq { "beq"@ } else { "bne"@ };
            let text = m + " "@ + register_name_spec(rs) + ", "@ + register_name_spec(rt) + ", "@
                + operand;
            let distance = target as int - (address as int + 4);
            statement_spec(text, address, symbols) == if distance % 4 != 0 {
                Err::<u32, Seq<char>>("branch target must be word-aligned"@)
            } else if !(-0x8000 <= distance / 4 <= 0x7fff) {
                Err::<u32, Seq<char>>("branch target is outside the signed 16-bit range"@)
            } else if is_beq {
                Ok(encode_spec(Instruction::Beq { rs, rt, offset: (distance / 4) as i16 }))
            } else {
                Ok(encode_spec(Instruction::Bne { rs, rt, offset: (distance / 4) as i16 }))
            }
        }),
{
    reveal_strlit("beq");
    reveal_strlit("bne");
    let m = if is_beq { "beq"@ } else { "bne"@ };
    let text = m + " "@ + register_name_spec(rs) + ", "@ + register_name_spec(rt) + ", "@ + operand;
    lemma_mnemonic(m);
    lemma_register_name_token(rs);
    lemma_register_name_token(rt);
    lemma_tokens_three_operands(m, register_name_spec(rs), register_name_spec(rt), operand);
    assert("bne"@[1] != "beq"@[1]);
    lemma_branch_statement(text, m, rs, rt, operand, target, address, symbols);
}

/// A word, a space, and two words separated by `, ` are three tokens.
proof fn lemma_tokens_two_operands(m: Seq<char>, a: Seq<char>, b: Seq<char>)
    requires
        m.len() > 0 && separator_free(m),
        a.len() > 0 && separator_free(a),
        b.len() > 0 && separator_free(b),
    ensures
        tokens(m + " "@ + a + ", "@ + b) == seq![m, a, b],
{
    reveal_strlit(" ");
    reveal_strlit(", ");
    let tail_b = seq![' '] + b;
    assert(m + " "@ + a + ", "@ + b =~= m + (seq![' '] + (a + (seq![','] + tail_b))));
    lemma_tokens_cons(m, ' ', a + (seq![','] + tail_b));
    lemma_tokens_cons(a, ',', tail_b);
    lemma_tokens_skip(' ', b);
    lemma_tokens_last(b);
    assert(seq![m] + (seq![a] + seq![b]) =~= seq![m, a, b]);
}

#[verifier::spinoff_prover]
proof fn lemma_pseudo_statement(text: Seq<char>, m: Seq<char>, a: Seq<char>, b: Seq<char>, address: u32, symbols: Symbols)
    requires
        m == "li"@ || m == "move"@,
        to_lower(m) == m,
        tokens(text) == seq![m, a, b],
    ensures
        statement_spec(text, address, symbols) == if m == "li"@ {
            match crate::assembler::register_operand(a) {
                Err(e) => Err(e),
                Ok(rt) => match crate::assembler::i16_operand(b) {
                    Err(e) => Err(e),
                    Ok(immediate) => Ok(encode_spec(Instruction::Addiu { rt, rs: 0, immediate })),
                },
            }
        } else {
            match crate::assembler::register_operand(a) {
                Err(e) => Err(e),
                Ok(rd) => match crate::assembler::register_operand(b) {
                    Err(e) => Err(e),
                    Ok(rs) => Ok(encode_spec(Instruction::Addu { rd, rs, rt: 0 })),
                },
            }
        },
{
    reveal_strlit("li");
    reveal_strlit("move");
    reveal_strlit("nop");
    reveal_strlit("halt");
    reveal_strlit("addu");
    reveal_strlit("subu");
    reveal_strlit("and");
    reveal_strlit("or");
    reveal_strlit("slt");
    reveal_strlit("sll");
    reveal_strlit("addiu");
    let toks = tokens(text);
    assert(toks.skip(1) =~= seq![a, b]);
    assert("li"@[0] != "or"@[0]);
    assert("move"@[0] != "halt"@[0] && "move"@[0] != "addu"@[0] && "move"@[0] != "subu"@[0]);
    assert("li"@ != "move"@);
    assert(!crate::assembler::is_register_mnemonic(m));
}

/// The one-word conveniences: `li rt, value` assembles as `addiu rt, $zero, value`, and
/// `move rd, rs` as `addu rd, rs, $zero`, for every register and every 16-bit value.
pub proof fn lemma_pseudo_instructions(rt: u8, rs: u8, value: i16, address: u32, symbols: Symbols)
    requires
        rt < 32,
        rs < 32,
    ensures
        statement_spec(
            "li"@ + " "@ + register_name_spec(rt) + ", "@ + signed_decimal(value as int),
            address,
            symbols,
        ) == Ok::<u32, Seq<char>>(encode_spec(Instruction::Addiu { rt, rs: 0, immediate: value })),
        statement_spec(
            "move"@ + " "@ + register_name_spec(rt) + ", "@ + register_name_spec(rs),
            address,
            symbols,
        ) == Ok::<u32, Seq<char>>(encode_spec(Instruction::Addu { rd: rt, rs, rt: 0 })),
{
    reveal_strlit("li");
    reveal_strlit("move");
    lemma_mnemonic("li"@);
    lemma_mnemonic("move"@);
    lemma_register_name_token(rt);
    lemma_register_name_token(rs);
    lemma_signed_decimal_reads_back(value as int);
    let a = register_name_spec(rt);
    let b = signed_decimal(value as int);
    let c = register_name_spec(rs);
    lemma_tokens_two_operands("li"@, a, b);
    lemma_tokens_two_operands("move"@, a, c);
    lemma_pseudo_statement("li"@ + " "@ + a + ", "@ + b, "li"@, a, b, address, symbols);
    lemma_pseudo_statement("move"@ + " "@ + a + ", "@ + c, "move"@, a, c, address, symbols);
    assert("li"@ != "move"@);
}

/// The source forms of the instructions assemble to what they name, operands in written
/// order: `addu rd, rs, rt` (and `subu`, `and`, `or`, `slt`), `sll rd, rt, shamt`,
/// `addiu rt, rs, value`, and `lw rt, offset(base)` / `sw rt, offset(base)`, for every register,
/// shift amount and 16-bit value, at any address and with any labels defined.
pub proof fn lemma_source_forms(rd: u8, rs: u8, rt: u8, shamt: u8, value: i16, address: u32, symbols: Symbols)
    requires
        rd < 32,
        rs < 32,
        rt < 32,
        shamt < 32,
    ensures
        statement_spec("addu"@ + " "@ + register_name_spec(rd) + ", "@ + register_name_spec(rs) + ", "@
            + register_name_spec(rt), address, symbols) == Ok::<u32, Seq<char>>(
            encode_spec(Instruction::Addu { rd, rs, rt }),
        ),
        statement_spec("subu"@ + " "@ + register_name_spec(rd) + ", "@ + register_name_spec(rs) + ", "@
            + register_name_spec(rt), address, symbols) == Ok::<u32, Seq<char>>(
            encode_spec(Instruction::Subu { rd, rs, rt }),
        ),
        statement_spec("and"@ + " "@ + register_name_spec(rd) + ", "@ + register_name_spec(rs) + ", "@
            + register_name_spec(rt), address, symbols) == Ok::<u32, Seq<char>>(
            encode_spec(Instruction::And { rd, rs, rt }),
        ),
        statement_spec("or"@ + " "@ + register_name_spec(rd) + ", "@ + register_name_spec(rs) + ", "@
            + register_name_spec(rt), address, symbols) == Ok::<u32, Seq<char>>(
            encode_spec(Instruction::Or { rd, rs, rt }),
        ),
        statement_spec("slt"@ + " "@ + register_name_spec(rd) + ", "@ + register_name_spec(rs) + ", "@
            + register_name_spec(rt), address, symbols) == Ok::<u32, Seq<char>>(
            encode_spec(Instruction::Slt { rd, rs, rt }),
        ),
        statement_spec("sll "@ + register_name_spec(rd) + ", "@ + register_name_spec(rt) + ", "@
            + decimal(shamt as nat), address, symbols) == Ok::<u32, Seq<char>>(
            encode_spec(Instruction::Sll { rd, rt, shamt }),
        ),
        statement_spec("addiu "@ + register_name_spec(rt) + ", "@ + register_name_spec(rs) + ", "@
            + signed_decimal(value as int), address, symbols) == Ok::<u32, Seq<char>>(
            encode_spec(Instruction::Addiu { rt, rs, immediate: value }),
        ),
        statement_spec("lw "@ + register_name_spec(rt) + ", "@ + signed_decimal(value as int) + "("@
            + register_name_spec(rs) + ")"@, address, symbols) == Ok::<u32, Seq<char>>(
            encode_spec(Instruction::Lw { rt, base: rs, offset: value }),
        ),
        statement_spec("sw "@ + register_name_spec(rt) + ", "@ + signed_decimal(value as int) + "("@
            + register_name_spec(rs) + ")"@, address, symbols) == Ok::<u32, Seq<char>>(
            encode_spec(Instruction::Sw { rt, base: rs, offset: value }),
        ),
{
    lemma_three_register_round_trip(Instruction::Addu { rd, rs, rt }, address, symbols);
    lemma_three_register_round_trip(Instruction::Subu { rd, rs, rt }, address, symbols);
    lemma_three_register_round_trip(Instruction::And { rd, rs, rt }, address, symbols);
    lemma_three_register_round_trip(Instruction::Or { rd, rs, rt }, address, symbols);
    lemma_three_register_round_trip(Instruction::Slt { rd, rs, rt }, address, symbols);
    lemma_shift_round_trip(Instruction::Sll { rd, rt, shamt }, address, symbols);
    lemma_immediate_round_trip(Instruction::Addiu { rt, rs, immediate: value }, address, symbols);
    lemma_memory_round_trip(Instruction::Lw { rt, base: rs, offset: value }, address, symbols);
    lemma_memory_round_trip(Instruction::Sw { rt, base: rs, offset: value }, address, symbols);
}

} // verus!
