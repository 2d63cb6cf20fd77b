//! Character-level scanning used by the assembler: whitespace, lines, comments, tokens,
//! identifiers and integer literals.

use vstd::prelude::*;
use crate::isa::register_name_spec;
use crate::text::{decimal, digit_char};

verus! {

/// Unicode `White_Space`, as `char::is_whitespace` defines it.
pub open spec fn is_whitespace(c: char) -> bool {
    let v = c as u32;
    (0x09 <= v && v <= 0x0d) || v == 0x20 || v == 0x85 || v == 0xa0 || v == 0x1680 || (0x2000
        <= v && v <= 0x200a) || v == 0x2028 || v == 0x2029 || v == 0x202f || v == 0x205f || v
        == 0x3000
}

pub fn is_whitespace_exec(c: char) -> (result: bool)
    ensures
        result == is_whitespace(c),
{
    let v = c as u32;
    (0x09 <= v && v <= 0x0d) || v == 0x20 || v == 0x85 || v == 0xa0 || v == 0x1680 || (0x2000
        <= v && v <= 0x200a) || v == 0x2028 || v == 0x2029 || v == 0x202f || v == 0x205f || v
        == 0x3000
}

/// The text without leading whitespace.
pub open spec fn trim_start(s: Seq<char>) -> Seq<char>
    decreases s.len(),
{
    if s.len() > 0 && is_whitespace(s[0]) {
        trim_start(s.drop_first())
    } else {
        s
    }
}

/// The text without trailing whitespace.
pub open spec fn trim_end(s: Seq<char>) -> Seq<char>
    decreases s.len(),
{
    if s.len() > 0 && is_whitespace(s.last()) {
        trim_end(s.drop_last())
    } else {
        s
    }
}

/// The text without leading and trailing whitespace (as `str::trim`).
pub open spec fn trim(s: Seq<char>) -> Seq<char> {
    trim_end(trim_start(s))
}

proof fn lemma_trim_start_skip(s: Seq<char>, i: int)
    requires
        0 <= i < s.len(),
        is_whitespace(s[i]),
        trim_start(s) == trim_start(s.skip(i)),
    ensures
        trim_start(s) == trim_start(s.skip(i + 1)),
{
    assert(s.skip(i).drop_first() =~= s.skip(i + 1));
}

proof fn lemma_trim_end_take(s: Seq<char>, j: int)
    requires
        0 < j <= s.len(),
        is_whitespace(s[j - 1]),
        trim_end(s) == trim_end(s.take(j)),
    ensures
        trim_end(s) == trim_end(s.take(j - 1)),
{
    assert(s.take(j).drop_last() =~= s.take(j - 1));
}

/// `s` without leading and trailing whitespace.
pub fn trim_exec(s: &Vec<char>) -> (result: Vec<char>)
    ensures
        result@ == trim(s@),
{
    let n = s.len();
    let mut i: usize = 0;
    assert(s@.skip(0) =~= s@);
    while i < n && is_whitespace_exec(s[i])
        invariant
            n == s@.len(),
            i <= n,
            trim_start(s@) == trim_start(s@.skip(i as int)),
        decreases n - i,
    {
        proof {
            lemma_trim_start_skip(s@, i as int);
        }
        i = i + 1;
    }
    let ghost start = s@.skip(i as int);
    assert(trim_start(s@) == start) by {
        if i < n {
            assert(start[0] == s@[i as int]);
        } else {
            assert(start.len() == 0);
        }
    }
    let mut j: usize = n;
    assert(start.take(start.len() as int) =~= start);
    while j > i && is_whitespace_exec(s[j - 1])
        invariant
            n == s@.len(),
            i <= j <= n,
            start == s@.skip(i as int),
            trim_end(start) == trim_end(start.take(j - i)),
        decreases j,
    {
        proof {
            lemma_trim_end_take(start, j - i);
        }
        j = j - 1;
    }
    let mut result: Vec<char> = Vec::new();
    let mut k: usize = i;
    while k < j
        invariant
            n == s@.len(),
            i <= k <= j <= n,
            result@ == s@.subrange(i as int, k as int),
        decreases j - k,
    {
        result.push(s[k]);
        k = k + 1;
        assert(result@ =~= s@.subrange(i as int, k as int));
    }
    assert(start.take(j - i) =~= s@.subrange(i as int, j as int));
    assert(trim_end(start.take(j - i)) == start.take(j - i)) by {
        if j > i {
            assert(start.take(j - i).last() == s@[j - 1]);
        }
    }
    result
}

/// The index of the first occurrence of `c`, if any.
pub open spec fn find_char(s: Seq<char>, c: char) -> Option<int> {
    if s.contains(c) {
        Some(choose|i: int| 0 <= i < s.len() && s[i] == c && forall|j: int| 0 <= j < i ==> s[j] != c)
    } else {
        None
    }
}

/// The index of the first occurrence of `c` in `s`.
pub fn find_char_exec(s: &Vec<char>, c: char) -> (result: Option<usize>)
    ensures
        match result {
            Some(i) => i < s@.len() && s@[i as int] == c && forall|j: int|
                0 <= j < i ==> s@[j] != c,
            None => !s@.contains(c),
        },
        result matches Some(i) ==> find_char(s@, c) == Some(i as int),
        result is None ==> find_char(s@, c) is None,
{
    let n = s.len();
    let mut i: usize = 0;
    while i < n
        invariant
            n == s@.len(),
            i <= n,
            forall|j: int| 0 <= j < i ==> s@[j] != c,
        decreases n - i,
    {
        if s[i] == c {
            proof {
                assert(s@.contains(c));
                let k = choose|k: int| 0 <= k < s@.len() && s@[k] == c && forall|j: int|
                    0 <= j < k ==> s@[j] != c;
                if k < i {
                } else if k > i {
                    assert(s@[i as int] != c);
                }
            }
            return Some(i);
        }
        i = i + 1;
    }
    proof {
        if s@.contains(c) {
            let k = choose|k: int| 0 <= k < s@.len() && s@[k] == c;
            assert(s@[k] != c);
        }
    }
    None
}

/// The text before the first occurrence of `c` (all of it when `c` does not occur).
pub open spec fn before_char(s: Seq<char>, c: char) -> Seq<char> {
    match find_char(s, c) {
        Some(i) => s.take(i),
        None => s,
    }
}

/// A copy of `s[from..to]`.
pub fn slice_chars(s: &Vec<char>, from: usize, to: usize) -> (result: Vec<char>)
    requires
        from <= to <= s@.len(),
    ensures
        result@ == s@.subrange(from as int, to as int),
{
    let mut result: Vec<char> = Vec::new();
    let mut k: usize = from;
    while k < to
        invariant
            from <= k <= to <= s@.len(),
            result@ == s@.subrange(from as int, k as int),
        decreases to - k,
    {
        result.push(s[k]);
        k = k + 1;
        assert(result@ =~= s@.subrange(from as int, k as int));
    }
    result
}

/// A line with its `#` comment removed and surrounding whitespace trimmed.
pub open spec fn strip_comment(line: Seq<char>) -> Seq<char> {
    trim(before_char(line, '#'))
}

pub fn strip_comment_exec(line: &Vec<char>) -> (result: Vec<char>)
    ensures
        result@ == strip_comment(line@),
{
    let code = match find_char_exec(line, '#') {
        Some(i) => slice_chars(line, 0, i),
        None => slice_chars(line, 0, line.len()),
    };
    assert(line@.subrange(0, line@.len() as int) =~= line@);
    trim_exec(&code)
}

/// The lines of a text, split at `\n`; a final line ending does not start another line.
/// (A carriage return before `\n` stays in the line; the assembler trims it as whitespace.)
pub open spec fn lines_from(s: Seq<char>, i: int, current: Seq<char>) -> Seq<Seq<char>>
    decreases s.len() - i,
{
    if i < 0 || i >= s.len() {
        if current.len() > 0 {
            seq![current]
        } else {
            seq![]
        }
    } else if s[i] == '\n' {
        seq![current] + lines_from(s, i + 1, seq![])
    } else {
        lines_from(s, i + 1, current.push(s[i]))
    }
}

/// The lines of a text.
pub open spec fn lines(s: Seq<char>) -> Seq<Seq<char>> {
    lines_from(s, 0, seq![])
}

/// The views of a vector of lines.
pub open spec fn lines_view(v: Seq<Vec<char>>) -> Seq<Seq<char>> {
    Seq::new(v.len(), |i: int| v[i]@)
}

pub fn split_lines(s: &Vec<char>) -> (result: Vec<Vec<char>>)
    ensures
        lines_view(result@) == lines(s@),
{
    let mut result: Vec<Vec<char>> = Vec::new();
    let mut current: Vec<char> = Vec::new();
    let n = s.len();
    let mut i: usize = 0;
    while i < n
        invariant
            n == s@.len(),
            i <= n,
            lines(s@) == lines_view(result@) + lines_from(s@, i as int, current@),
        decreases n - i,
    {
        if s[i] == '\n' {
            let ghost before = result@;
            let ghost cur = current@;
            result.push(current);
            current = Vec::new();
            proof {
                assert(lines_view(result@) =~= lines_view(before).push(cur));
                assert(lines_view(result@) + lines_from(s@, i + 1, current@) =~= lines_view(before)
                    + (seq![cur] + lines_from(s@, i + 1, seq![])));
                assert(current@ =~= seq![]);
            }
        } else {
            current.push(s[i]);
        }
        i = i + 1;
    }
    if current.len() > 0 {
        let ghost before = result@;
        let ghost cur = current@;
        result.push(current);
        assert(lines_view(result@) =~= lines_view(before) + seq![cur]);
    }
    result
}

/// An ASCII letter.
pub open spec fn is_ascii_alpha(c: char) -> bool {
    ('a' <= c && c <= 'z') || ('A' <= c && c <= 'Z')
}

/// An ASCII decimal digit.
pub open spec fn is_ascii_digit(c: char) -> bool {
    '0' <= c && c <= '9'
}

/// A label: an ASCII letter or underscore, then ASCII letters, digits or underscores.
pub open spec fn is_identifier(s: Seq<char>) -> bool {
    &&& s.len() > 0
    &&& (s[0] == '_' || is_ascii_alpha(s[0]))
    &&& forall|i: int|
        1 <= i < s.len() ==> (#[trigger] s[i] == '_' || is_ascii_alpha(s[i]) || is_ascii_digit(
            s[i],
        ))
}

/// A character a label may continue with: `_`, an ASCII letter or an ASCII digit.
pub open spec fn label_char(c: char) -> bool {
    c == '_' || ('a' <= c && c <= 'z') || ('A' <= c && c <= 'Z') || ('0' <= c && c <= '9')
}

/// Labels are exactly the non-empty words that start with `_` or an ASCII letter and go on
/// with `_`, ASCII letters and ASCII digits (so `loop1` and `_x9` are labels, `1a`, `a-b` and
/// the empty word are not).
pub proof fn lemma_identifier_characters(s: Seq<char>)
    ensures
        is_identifier(s) <==> {
            &&& s.len() > 0
            &&& label_char(s[0]) && !('0' <= s[0] && s[0] <= '9')
            &&& forall|i: int| 1 <= i < s.len() ==> label_char(#[trigger] s[i])
        },
{
    if s.len() > 0 && label_char(s[0]) && !('0' <= s[0] && s[0] <= '9') && (forall|i: int|
        1 <= i < s.len() ==> label_char(#[trigger] s[i])) {
        assert forall|i: int| 1 <= i < s.len() implies (#[trigger] s[i] == '_' || is_ascii_alpha(s[i])
            || is_ascii_digit(s[i])) by {
            assert(label_char(s[i]));
        }
    }
    if is_identifier(s) {
        assert forall|i: int| 1 <= i < s.len() implies label_char(#[trigger] s[i]) by {
            assert(s[i] == '_' || is_ascii_alpha(s[i]) || is_ascii_digit(s[i]));
        }
    }
}

pub fn is_identifier_exec(s: &Vec<char>) -> (result: bool)
    ensures
        result == is_identifier(s@),
{
    let n = s.len();
    if n == 0 {
        return false;
    }
    let first = s[0];
    if !(first == '_' || ('a' <= first && first <= 'z') || ('A' <= first && first <= 'Z')) {
        return false;
    }
    let mut i: usize = 1;
    while i < n
        invariant
            n == s@.len(),
            1 <= i <= n,
            forall|k: int|
                1 <= k < i ==> (#[trigger] s@[k] == '_' || is_ascii_alpha(s@[k]) || is_ascii_digit(
                    s@[k],
                )),
        decreases n - i,
    {
        let c = s[i];
        if !(c == '_' || ('a' <= c && c <= 'z') || ('A' <= c && c <= 'Z') || ('0' <= c && c
            <= '9')) {
            return false;
        }
        i = i + 1;
    }
    true
}

/// ASCII upper-case letters mapped to lower case; everything else unchanged.
pub open spec fn lower_char(c: char) -> char {
    if 'A' <= c && c <= 'Z' {
        ((c as u32) + 32) as char
    } else {
        c
    }
}

/// The text with ASCII letters lower-cased (as `str::to_ascii_lowercase`).
pub open spec fn to_lower(s: Seq<char>) -> Seq<char> {
    Seq::new(s.len(), |i: int| lower_char(s[i]))
}

pub fn to_lower_exec(s: &Vec<char>) -> (result: Vec<char>)
    ensures
        result@ == to_lower(s@),
{
    let mut result: Vec<char> = Vec::new();
    let n = s.len();
    let mut i: usize = 0;
    while i < n
        invariant
            n == s@.len(),
            i <= n,
            result@ == to_lower(s@).take(i as int),
        decreases n - i,
    {
        let c = s[i];
        let lower = if 'A' <= c && c <= 'Z' {
            let code: u8 = (c as u32 as u8) + 32;
            code as char
        } else {
            c
        };
        result.push(lower);
        i = i + 1;
        assert(result@ =~= to_lower(s@).take(i as int));
    }
    assert(to_lower(s@).take(n as int) =~= to_lower(s@));
    result
}

/// Whether `s` equals the characters of `t`.
pub fn chars_equal(s: &Vec<char>, t: &str) -> (result: bool)
    ensures
        result == (s@ == t@),
{
    let other = crate::text::str_to_chars(t);
    if s.len() != other.len() {
        return false;
    }
    let n = s.len();
    let mut i: usize = 0;
    while i < n
        invariant
            n == s@.len(),
            n == other@.len(),
            other@ == t@,
            i <= n,
            forall|k: int| 0 <= k < i ==> s@[k] == other@[k],
        decreases n - i,
    {
        if s[i] != other[i] {
            assert(s@[i as int] != other@[i as int]);
            assert(s@ != other@);
            return false;
        }
        i = i + 1;
    }
    assert(s@ =~= other@);
    true
}

/// Characters that end a token: whitespace and the operand punctuation `,`, `(` and `)`.
pub open spec fn is_separator(c: char) -> bool {
    is_whitespace(c) || c == ',' || c == '(' || c == ')'
}

/// The tokens of `s[i..]`, with `current` the token being read.
pub open spec fn tokens_from(s: Seq<char>, i: int, current: Seq<char>) -> Seq<Seq<char>>
    decreases s.len() - i,
{
    if i < 0 || i >= s.len() {
        if current.len() > 0 {
            seq![current]
        } else {
            seq![]
        }
    } else if is_separator(s[i]) {
        (if current.len() > 0 {
            seq![current]
        } else {
            seq![]
        }) + tokens_from(s, i + 1, seq![])
    } else {
        tokens_from(s, i + 1, current.push(s[i]))
    }
}

/// The non-empty runs of non-separator characters of a statement, in order.
pub open spec fn tokens(s: Seq<char>) -> Seq<Seq<char>> {
    tokens_from(s, 0, seq![])
}

pub fn tokenize(s: &Vec<char>) -> (result: Vec<Vec<char>>)
    ensures
        lines_view(result@) == tokens(s@),
{
    let mut result: Vec<Vec<char>> = Vec::new();
    let mut current: Vec<char> = Vec::new();
    let n = s.len();
    let mut i: usize = 0;
    while i < n
        invariant
            n == s@.len(),
            i <= n,
            tokens(s@) == lines_view(result@) + tokens_from(s@, i as int, current@),
        decreases n - i,
    {
        let c = s[i];
        if is_whitespace_exec(c) || c == ',' || c == '(' || c == ')' {
            let ghost before = result@;
            let ghost cur = current@;
            if current.len() > 0 {
                result.push(current);
                assert(lines_view(result@) =~= lines_view(before) + seq![cur]);
            } else {
                assert(lines_view(result@) =~= lines_view(before) + seq![]);
            }
            current = Vec::new();
            proof {
                assert(current@ =~= seq![]);
                let piece: Seq<Seq<char>> = if cur.len() > 0 {
                    seq![cur]
                } else {
                    seq![]
                };
                assert(lines_view(result@) + tokens_from(s@, i + 1, current@) =~= lines_view(before)
                    + (piece + tokens_from(s@, i + 1, seq![])));
            }
        } else {
            current.push(c);
        }
        i = i + 1;
    }
    if current.len() > 0 {
        let ghost before = result@;
        let ghost cur = current@;
        result.push(current);
        assert(lines_view(result@) =~= lines_view(before) + seq![cur]);
    }
    result
}

/// The value of a digit in base 10 or 16 (either letter case), if it is one.
pub open spec fn digit_value(c: char, hex: bool) -> Option<nat> {
    if '0' <= c && c <= '9' {
        Some((c as u32 - '0' as u32) as nat)
    } else if hex && 'a' <= c && c <= 'f' {
        Some((c as u32 - 'a' as u32 + 10) as nat)
    } else if hex && 'A' <= c && c <= 'F' {
        Some((c as u32 - 'A' as u32 + 10) as nat)
    } else {
        None
    }
}

/// The base (10 or 16).
pub open spec fn radix(hex: bool) -> nat {
    if hex {
        16
    } else {
        10
    }
}

/// At least one digit, and nothing but digits.
pub open spec fn digits_valid(s: Seq<char>, hex: bool) -> bool {
    s.len() > 0 && forall|i: int| 0 <= i < s.len() ==> (#[trigger] digit_value(s[i], hex)) is Some
}

/// The number the digits denote.
pub open spec fn digits_value(s: Seq<char>, hex: bool) -> nat
    decreases s.len(),
{
    if s.len() == 0 {
        0
    } else {
        digits_value(s.drop_last(), hex) * radix(hex) + match digit_value(s.last(), hex) {
            Some(d) => d,
            None => 0,
        }
    }
}

/// An optional `+` followed by digits (as `from_str_radix` reads an unsigned integer).
pub open spec fn parse_unsigned(s: Seq<char>, hex: bool) -> Option<nat> {
    let body = if s.len() > 0 && s[0] == '+' {
        s.skip(1)
    } else {
        s
    };
    if digits_valid(body, hex) {
        Some(digits_value(body, hex))
    } else {
        None
    }
}

/// An optional `+` or `-` followed by digits (as `from_str_radix` reads a signed integer,
/// before the range check).
pub open spec fn parse_signed(s: Seq<char>, hex: bool) -> Option<int> {
    if s.len() > 0 && s[0] == '-' {
        if digits_valid(s.skip(1), hex) {
            Some(-(digits_value(s.skip(1), hex) as int))
        } else {
            None
        }
    } else {
        match parse_unsigned(s, hex) {
            Some(v) => Some(v as int),
            None => None,
        }
    }
}

/// Within the range of `i64`.
pub open spec fn in_i64(v: int) -> bool {
    i64::MIN <= v <= i64::MAX
}

/// An `i64` read by `from_str_radix`: the signed parse, if it fits.
pub open spec fn parse_i64(s: Seq<char>, hex: bool) -> Option<int> {
    match parse_signed(s, hex) {
        Some(v) => if in_i64(v) {
            Some(v)
        } else {
            None
        },
        None => None,
    }
}

/// `s` starts with `prefix`.
pub open spec fn starts_with(s: Seq<char>, prefix: Seq<char>) -> bool {
    prefix.len() <= s.len() && s.take(prefix.len() as int) == prefix
}

/// An integer literal of the assembler: `0x` followed by a signed hexadecimal `i64`, `-0x`
/// followed by one (negated, wrapping at `i64::MIN`), or a signed decimal `i64`.
pub open spec fn integer_value(token: Seq<char>) -> Option<int> {
    if starts_with(token, seq!['0', 'x']) {
        parse_i64(token.skip(2), true)
    } else if starts_with(token, seq!['-', '0', 'x']) {
        match parse_i64(token.skip(3), true) {
            Some(v) => Some(
                if v == i64::MIN {
                    v
                } else {
                    -v
                },
            ),
            None => None,
        }
    } else {
        parse_i64(token, false)
    }
}

proof fn lemma_digits_value_step(s: Seq<char>, hex: bool, k: int)
    requires
        0 <= k < s.len(),
    ensures
        digits_value(s.take(k + 1), hex) == digits_value(s.take(k), hex) * radix(hex) + match digit_value(
            s[k],
            hex,
        ) {
            Some(d) => d,
            None => 0,
        },
{
    assert(s.take(k + 1).drop_last() =~= s.take(k));
}

proof fn lemma_digits_value_monotone(s: Seq<char>, hex: bool, k: int, j: int)
    requires
        0 <= k <= j <= s.len(),
    ensures
        digits_value(s.take(k), hex) <= digits_value(s.take(j), hex),
    decreases j - k,
{
    if k < j {
        lemma_digits_value_monotone(s, hex, k, j - 1);
        lemma_digits_value_step(s, hex, j - 1);
        let x = digits_value(s.take(j - 1), hex);
        let r = radix(hex);
        assert(x * r >= x) by (nonlinear_arith)
            requires
                r >= 1,
        ;
    }
}

fn digit_value_exec(c: char, hex: bool) -> (result: Option<u64>)
    ensures
        match digit_value(c, hex) {
            Some(d) => result == Some(d as u64),
            None => result is None,
        },
{
    if '0' <= c && c <= '9' {
        Some((c as u32 - '0' as u32) as u64)
    } else if hex && 'a' <= c && c <= 'f' {
        Some((c as u32 - 'a' as u32 + 10) as u64)
    } else if hex && 'A' <= c && c <= 'F' {
        Some((c as u32 - 'A' as u32 + 10) as u64)
    } else {
        None
    }
}

/// The value of the digits of `s[from..]`, when they are all digits and the value is at most
/// `2^63`.
fn parse_digits(s: &Vec<char>, from: usize, hex: bool) -> (result: Option<u64>)
    requires
        from <= s@.len(),
    ensures
        ({
            let body = s@.skip(from as int);
            match result {
                Some(v) => digits_valid(body, hex) && v == digits_value(body, hex) && v
                    <= 0x8000_0000_0000_0000,
                None => !digits_valid(body, hex) || digits_value(body, hex)
                    > 0x8000_0000_0000_0000,
            }
        }),
{
    let ghost body = s@.skip(from as int);
    let n = s.len();
    if from >= n {
        return None;
    }
    let mut value: u64 = 0;
    let mut i: usize = from;
    while i < n
        invariant
            n == s@.len(),
            from <= i <= n,
            body == s@.skip(from as int),
            value == digits_value(body.take(i - from), hex),
            value <= 0x8000_0000_0000_0000,
            forall|k: int| 0 <= k < i - from ==> (#[trigger] digit_value(body[k], hex)) is Some,
        decreases n - i,
    {
        let d = match digit_value_exec(s[i], hex) {
            Some(d) => d,
            None => {
                assert(body[i - from] == s@[i as int]);
                return None;
            },
        };
        proof {
            assert(body[i - from] == s@[i as int]);
            lemma_digits_value_step(body, hex, i - from);
        }
        let next: u128 = if hex {
            (value as u128) * 16 + (d as u128)
        } else {
            (value as u128) * 10 + (d as u128)
        };
        if next > 0x8000_0000_0000_0000 {
            proof {
                assert forall|k: int| 0 <= k < i - from + 1 implies (#[trigger] digit_value(
                    body[k],
                    hex,
                )) is Some by {
                    if k == i - from {
                        assert(body[k] == s@[i as int]);
                    }
                }
                lemma_digits_value_monotone(body, hex, i - from + 1, body.len() as int);
                assert(body.take(body.len() as int) =~= body);
            }
            return None;
        }
        value = next as u64;
        i = i + 1;
    }
    assert(body.take(n - from) =~= body);
    Some(value)
}

/// The `i64` that `s[from..]` denotes as a signed integer in base 10 or 16.
fn parse_i64_exec(s: &Vec<char>, from: usize, hex: bool) -> (result: Option<i64>)
    requires
        from <= s@.len(),
    ensures
        match parse_i64(s@.skip(from as int), hex) {
            Some(v) => result == Some(v as i64),
            None => result is None,
        },
{
    let ghost body = s@.skip(from as int);
    let n = s.len();
    if from < n && s[from] == '-' {
        assert(body[0] == s@[from as int]);
        assert(body.skip(1) =~= s@.skip(from + 1));
        match parse_digits(s, from + 1, hex) {
            Some(v) => {
                if v == 0x8000_0000_0000_0000 {
                    Some(i64::MIN)
                } else {
                    Some(0i64 - (v as i64))
                }
            },
            None => None,
        }
    } else {
        let start = if from < n && s[from] == '+' {
            assert(body[0] == s@[from as int]);
            assert(body.skip(1) =~= s@.skip(from + 1));
            from + 1
        } else {
            from
        };
        match parse_digits(s, start, hex) {
            Some(v) => {
                if v <= 0x7fff_ffff_ffff_ffff {
                    Some(v as i64)
                } else {
                    None
                }
            },
            None => None,
        }
    }
}

/// The value of an assembler integer literal, if it is one.
pub fn integer_value_exec(token: &Vec<char>) -> (result: Option<i64>)
    ensures
        match integer_value(token@) {
            Some(v) => result == Some(v as i64),
            None => result is None,
        },
{
    let n = token.len();
    if n >= 2 && token[0] == '0' && token[1] == 'x' {
        assert(token@.take(2) =~= seq!['0', 'x']);
        parse_i64_exec(token, 2, true)
    } else if n >= 3 && token[0] == '-' && token[1] == '0' && token[2] == 'x' {
        assert(token@.take(3) =~= seq!['-', '0', 'x']);
        assert(!starts_with(token@, seq!['0', 'x'])) by {
            assert(token@.take(2)[0] == '-');
        }
        match parse_i64_exec(token, 3, true) {
            Some(v) => if v == i64::MIN {
                Some(v)
            } else {
                Some(0i64 - v)
            },
            None => None,
        }
    } else {
        proof {
            if starts_with(token@, seq!['0', 'x']) {
                assert(token@.take(2)[0] == token@[0]);
                assert(token@.take(2)[1] == token@[1]);
            }
            if starts_with(token@, seq!['-', '0', 'x']) {
                assert(token@.take(3)[0] == token@[0]);
                assert(token@.take(3)[1] == token@[1]);
                assert(token@.take(3)[2] == token@[2]);
            }
            assert(token@.skip(0) =~= token@);
        }
        parse_i64_exec(token, 0, false)
    }
}

/// Integer literals fit in `i64`.
pub proof fn lemma_integer_value_range(token: Seq<char>)
    ensures
        integer_value(token) matches Some(v) ==> in_i64(v),
{
}

/// `s` without its leading `$` signs.
pub open spec fn strip_dollars(s: Seq<char>) -> Seq<char>
    decreases s.len(),
{
    if s.len() > 0 && s[0] == '$' {
        strip_dollars(s.drop_first())
    } else {
        s
    }
}

/// The index of a conventional register name (lower case, without `$`).
pub open spec fn named_register(name: Seq<char>) -> Option<u8> {
    if name == "zero"@ {
        Some(0u8)
    } else if name == "at"@ {
        Some(1u8)
    } else if name == "v0"@ {
        Some(2u8)
    } else if name == "v1"@ {
        Some(3u8)
    } else if name == "a0"@ {
        Some(4u8)
    } else if name == "a1"@ {
        Some(5u8)
    } else if name == "a2"@ {
        Some(6u8)
    } else if name == "a3"@ {
        Some(7u8)
    } else if name == "t0"@ {
        Some(8u8)
    } else if name == "t1"@ {
        Some(9u8)
    } else if name == "t2"@ {
        Some(10u8)
    } else if name == "t3"@ {
        Some(11u8)
    } else if name == "t4"@ {
        Some(12u8)
    } else if name == "t5"@ {
        Some(13u8)
    } else if name == "t6"@ {
        Some(14u8)
    } else if name == "t7"@ {
        Some(15u8)
    } else if name == "s0"@ {
        Some(16u8)
    } else if name == "s1"@ {
        Some(17u8)
    } else if name == "s2"@ {
        Some(18u8)
    } else if name == "s3"@ {
        Some(19u8)
    } else if name == "s4"@ {
        Some(20u8)
    } else if name == "s5"@ {
        Some(21u8)
    } else if name == "s6"@ {
        Some(22u8)
    } else if name == "s7"@ {
        Some(23u8)
    } else if name == "t8"@ {
        Some(24u8)
    } else if name == "t9"@ {
        Some(25u8)
    } else if name == "k0"@ {
        Some(26u8)
    } else if name == "k1"@ {
        Some(27u8)
    } else if name == "gp"@ {
        Some(28u8)
    } else if name == "sp"@ {
        Some(29u8)
    } else if name == "fp"@ {
        Some(30u8)
    } else if name == "s8"@ {
        Some(30u8)
    } else if name == "ra"@ {
        Some(31u8)
    } else {
        None
    }
}

fn named_register_exec(name: &Vec<char>) -> (result: Option<u8>)
    ensures
        result == named_register(name@),
{
    if chars_equal(name, "zero") {
        Some(0u8)
    } else if chars_equal(name, "at") {
        Some(1u8)
    } else if chars_equal(name, "v0") {
        Some(2u8)
    } else if chars_equal(name, "v1") {
        Some(3u8)
    } else if chars_equal(name, "a0") {
        Some(4u8)
    } else if chars_equal(name, "a1") {
        Some(5u8)
    } else if chars_equal(name, "a2") {
        Some(6u8)
    } else if chars_equal(name, "a3") {
        Some(7u8)
    } else if chars_equal(name, "t0") {
        Some(8u8)
    } else if chars_equal(name, "t1") {
        Some(9u8)
    } else if chars_equal(name, "t2") {
        Some(10u8)
    } else if chars_equal(name, "t3") {
        Some(11u8)
    } else if chars_equal(name, "t4") {
        Some(12u8)
    } else if chars_equal(name, "t5") {
        Some(13u8)
    } else if chars_equal(name, "t6") {
        Some(14u8)
    } else if chars_equal(name, "t7") {
        Some(15u8)
    } else if chars_equal(name, "s0") {
        Some(16u8)
    } else if chars_equal(name, "s1") {
        Some(17u8)
    } else if chars_equal(name, "s2") {
        Some(18u8)
    } else if chars_equal(name, "s3") {
        Some(19u8)
    } else if chars_equal(name, "s4") {
        Some(20u8)
    } else if chars_equal(name, "s5") {
        Some(21u8)
    } else if chars_equal(name, "s6") {
        Some(22u8)
    } else if chars_equal(name, "s7") {
        Some(23u8)
    } else if chars_equal(name, "t8") {
        Some(24u8)
    } else if chars_equal(name, "t9") {
        Some(25u8)
    } else if chars_equal(name, "k0") {
        Some(26u8)
    } else if chars_equal(name, "k1") {
        Some(27u8)
    } else if chars_equal(name, "gp") {
        Some(28u8)
    } else if chars_equal(name, "sp") {
        Some(29u8)
    } else if chars_equal(name, "fp") {
        Some(30u8)
    } else if chars_equal(name, "s8") {
        Some(30u8)
    } else if chars_equal(name, "ra") {
        Some(31u8)
    } else {
        None
    }
}

/// The register a token names: after removing leading `$` signs and lower-casing, a
/// conventional name or a decimal number below 32 (with an optional `+`).
pub open spec fn register_number(token: Seq<char>) -> Option<u8> {
    let name = to_lower(strip_dollars(token));
    match named_register(name) {
        Some(r) => Some(r),
        None => match parse_unsigned(name, false) {
            Some(v) => if v < 32 {
                Some(v as u8)
            } else {
                None
            },
            None => None,
        },
    }
}

/// `$` followed by a name that holds no `$` and no upper-case letter reads as that name.
proof fn lemma_dollar_name(body: Seq<char>)
    requires
        body.len() > 0,
        body[0] != '$',
        forall|k: int| 0 <= k < body.len() ==> !('A' <= #[trigger] body[k] && body[k] <= 'Z'),
    ensures
        to_lower(strip_dollars(seq!['$'] + body)) == body,
{
    let s = seq!['$'] + body;
    assert(s.drop_first() =~= body);
    assert(strip_dollars(s) == strip_dollars(body));
    assert(to_lower(body) =~= body);
}

/// The decimal digit `d` reads back as `d`.
proof fn lemma_digit_char_value(d: nat)
    requires
        d < 10,
    ensures
        digit_value(digit_char(d), false) == Some(d),
        '0' <= digit_char(d) <= '9',
{
}

/// `$` followed by a register's number in decimal reads back as that register.
proof fn lemma_decimal_register(index: u8)
    requires
        index < 32,
    ensures
        register_number(seq!['$'] + decimal(index as nat)) == Some(index),
{
    let digits = decimal(index as nat);
    if index < 10 {
        lemma_digit_char_value(index as nat);
        let one = seq![digit_char(index as nat)];
        assert(digits =~= one);
        assert(one.drop_last() =~= Seq::<char>::empty());
        assert(digits_value(Seq::<char>::empty(), false) == 0);
        assert(one.last() == digit_char(index as nat));
        assert(digits_value(one, false) == index);
    } else {
        let high = (index / 10) as nat;
        let low = (index % 10) as nat;
        lemma_digit_char_value(high);
        lemma_digit_char_value(low);
        assert(decimal(high) == seq![digit_char(high)]);
        let two = seq![digit_char(high), digit_char(low)];
        assert(digits =~= two);
        assert(two.drop_last() =~= seq![digit_char(high)]);
        assert(two.drop_last().drop_last() =~= Seq::<char>::empty());
        assert(digits_value(Seq::<char>::empty(), false) == 0);
        assert(two.drop_last().last() == digit_char(high));
        assert(two.last() == digit_char(low));
        assert(digits_value(two.drop_last(), false) == high);
        assert(digits_value(two, false) == high * 10 + low);
    }
    lemma_dollar_name(digits);
    assert('0' <= digits[0] <= '9');
    reveal_strlit("zero");
    reveal_strlit("at");
    reveal_strlit("v0");
    reveal_strlit("v1");
    reveal_strlit("a0");
    reveal_strlit("a1");
    reveal_strlit("a2");
    reveal_strlit("a3");
    reveal_strlit("t0");
    reveal_strlit("t1");
    reveal_strlit("t2");
    reveal_strlit("t3");
    reveal_strlit("t4");
    reveal_strlit("t5");
    reveal_strlit("t6");
    reveal_strlit("t7");
    reveal_strlit("s0");
    reveal_strlit("s1");
    reveal_strlit("s2");
    reveal_strlit("s3");
    reveal_strlit("s4");
    reveal_strlit("s5");
    reveal_strlit("s6");
    reveal_strlit("s7");
    reveal_strlit("t8");
    reveal_strlit("t9");
    reveal_strlit("k0");
    reveal_strlit("k1");
    reveal_strlit("gp");
    reveal_strlit("sp");
    reveal_strlit("fp");
    reveal_strlit("ra");
    reveal_strlit("s8");
    assert(named_register(digits) is None);
    assert(digits_valid(digits, false));
    assert(parse_unsigned(digits, false) == Some(index as nat));
}

/// Registers 0 to 7 read back from their conventional names.
proof fn lemma_register_names_0(index: u8)
    requires
        0 <= index < 8,
    ensures
        register_number(register_name_spec(index)) == Some(index),
{
    reveal_strlit("zero");
    reveal_strlit("at");
    reveal_strlit("v0");
    reveal_strlit("v1");
    reveal_strlit("a0");
    reveal_strlit("a1");
    reveal_strlit("a2");
    reveal_strlit("a3");
    reveal_strlit("t0");
    reveal_strlit("t1");
    reveal_strlit("t2");
    reveal_strlit("t3");
    reveal_strlit("t4");
    reveal_strlit("t5");
    reveal_strlit("t6");
    reveal_strlit("t7");
    reveal_strlit("s0");
    reveal_strlit("s1");
    reveal_strlit("s2");
    reveal_strlit("s3");
    reveal_strlit("s4");
    reveal_strlit("s5");
    reveal_strlit("s6");
    reveal_strlit("s7");
    reveal_strlit("t8");
    reveal_strlit("t9");
    reveal_strlit("k0");
    reveal_strlit("k1");
    reveal_strlit("gp");
    reveal_strlit("sp");
    reveal_strlit("fp");
    reveal_strlit("ra");
    reveal_strlit("s8");
    reveal_strlit("$zero");
    reveal_strlit("$at");
    reveal_strlit("$v0");
    reveal_strlit("$v1");
    reveal_strlit("$a0");
    reveal_strlit("$a1");
    reveal_strlit("$a2");
    reveal_strlit("$a3");
    let name = register_name_spec(index);
    if index == 0 {
        assert(name =~= seq!['$'] + "zero"@);
        lemma_dollar_name("zero"@);
    } else if index == 1 {
        assert(name =~= seq!['$'] + "at"@);
        lemma_dollar_name("at"@);
    } else if index == 2 {
        assert(name =~= seq!['$'] + "v0"@);
        lemma_dollar_name("v0"@);
    } else if index == 3 {
        assert(name =~= seq!['$'] + "v1"@);
        lemma_dollar_name("v1"@);
    } else if index == 4 {
        assert(name =~= seq!['$'] + "a0"@);
        lemma_dollar_name("a0"@);
    } else if index == 5 {
        assert(name =~= seq!['$'] + "a1"@);
        lemma_dollar_name("a1"@);
    } else if index == 6 {
        assert(name =~= seq!['$'] + "a2"@);
        lemma_dollar_name("a2"@);
    } else if index == 7 {
        assert(name =~= seq!['$'] + "a3"@);
        lemma_dollar_name("a3"@);
    }
}

/// Registers 8 to 15 read back from their conventional names.
proof fn lemma_register_names_1(index: u8)
    requires
        8 <= index < 16,
    ensures
        register_number(register_name_spec(index)) == Some(index),
{
    reveal_strlit("zero");
    reveal_strlit("at");
    reveal_strlit("v0");
    reveal_strlit("v1");
    reveal_strlit("a0");
    reveal_strlit("a1");
    reveal_strlit("a2");
    reveal_strlit("a3");
    reveal_strlit("t0");
    reveal_strlit("t1");
    reveal_strlit("t2");
    reveal_strlit("t3");
    reveal_strlit("t4");
    reveal_strlit("t5");
    reveal_strlit("t6");
    reveal_strlit("t7");
    reveal_strlit("s0");
    reveal_strlit("s1");
    reveal_strlit("s2");
    reveal_strlit("s3");
    reveal_strlit("s4");
    reveal_strlit("s5");
    reveal_strlit("s6");
    reveal_strlit("s7");
    reveal_strlit("t8");
    reveal_strlit("t9");
    reveal_strlit("k0");
    reveal_strlit("k1");
    reveal_strlit("gp");
    reveal_strlit("sp");
    reveal_strlit("fp");
    reveal_strlit("ra");
    reveal_strlit("s8");
    reveal_strlit("$t0");
    reveal_strlit("$t1");
    reveal_strlit("$t2");
    reveal_strlit("$t3");
    reveal_strlit("$t4");
    reveal_strlit("$t5");
    reveal_strlit("$t6");
    reveal_strlit("$t7");
    let name = register_name_spec(index);
    if index == 8 {
        assert(name =~= seq!['$'] + "t0"@);
        lemma_dollar_name("t0"@);
    } else if index == 9 {
        assert(name =~= seq!['$'] + "t1"@);
        lemma_dollar_name("t1"@);
    } else if index == 10 {
        assert(name =~= seq!['$'] + "t2"@);
        lemma_dollar_name("t2"@);
    } else if index == 11 {
        assert(name =~= seq!['$'] + "t3"@);
        lemma_dollar_name("t3"@);
    } else if index == 12 {
        assert(name =~= seq!['$'] + "t4"@);
        lemma_dollar_name("t4"@);
    } else if index == 13 {
        assert(name =~= seq!['$'] + "t5"@);
        lemma_dollar_name("t5"@);
    } else if index == 14 {
        assert(name =~= seq!['$'] + "t6"@);
        lemma_dollar_name("t6"@);
    } else if index == 15 {
        assert(name =~= seq!['$'] + "t7"@);
        lemma_dollar_name("t7"@);
    }
}

/// Registers 16 to 23 read back from their conventional names.
proof fn lemma_register_names_2(index: u8)
    requires
        16 <= index < 24,
    ensures
        register_number(register_name_spec(index)) == Some(index),
{
    reveal_strlit("zero");
    reveal_strlit("at");
    reveal_strlit("v0");
    reveal_strlit("v1");
    reveal_strlit("a0");
    reveal_strlit("a1");
    reveal_strlit("a2");
    reveal_strlit("a3");
    reveal_strlit("t0");
    reveal_strlit("t1");
    reveal_strlit("t2");
    reveal_strlit("t3");
    reveal_strlit("t4");
    reveal_strlit("t5");
    reveal_strlit("t6");
    reveal_strlit("t7");
    reveal_strlit("s0");
    reveal_strlit("s1");
    reveal_strlit("s2");
    reveal_strlit("s3");
    reveal_strlit("s4");
    reveal_strlit("s5");
    reveal_strlit("s6");
    reveal_strlit("s7");
    reveal_strlit("t8");
    reveal_strlit("t9");
    reveal_strlit("k0");
    reveal_strlit("k1");
    reveal_strlit("gp");
    reveal_strlit("sp");
    reveal_strlit("fp");
    reveal_strlit("ra");
    reveal_strlit("s8");
    reveal_strlit("$s0");
    reveal_strlit("$s1");
    reveal_strlit("$s2");
    reveal_strlit("$s3");
    reveal_strlit("$s4");
    reveal_strlit("$s5");
    reveal_strlit("$s6");
    reveal_strlit("$s7");
    let name = register_name_spec(index);
    if index == 16 {
        assert(name =~= seq!['$'] + "s0"@);
        lemma_dollar_name("s0"@);
    } else if index == 17 {
        assert(name =~= seq!['$'] + "s1"@);
        lemma_dollar_name("s1"@);
    } else if index == 18 {
        assert(name =~= seq!['$'] + "s2"@);
        lemma_dollar_name("s2"@);
    } else if index == 19 {
        assert(name =~= seq!['$'] + "s3"@);
        lemma_dollar_name("s3"@);
    } else if index == 20 {
        assert(name =~= seq!['$'] + "s4"@);
        lemma_dollar_name("s4"@);
    } else if index == 21 {
        assert(name =~= seq!['$'] + "s5"@);
        lemma_dollar_name("s5"@);
    } else if index == 22 {
        assert(name =~= seq!['$'] + "s6"@);
        lemma_dollar_name("s6"@);
    } else if index == 23 {
        assert(name =~= seq!['$'] + "s7"@);
        lemma_dollar_name("s7"@);
    }
}

/// Registers 24 to 31 read back from their conventional names.
proof fn lemma_register_names_3(index: u8)
    requires
        24 <= index < 32,
    ensures
        register_number(register_name_spec(index)) == Some(index),
{
    reveal_strlit("zero");
    reveal_strlit("at");
    reveal_strlit("v0");
    reveal_strlit("v1");
    reveal_strlit("a0");
    reveal_strlit("a1");
    reveal_strlit("a2");
    reveal_strlit("a3");
    reveal_strlit("t0");
    reveal_strlit("t1");
    reveal_strlit("t2");
    reveal_strlit("t3");
    reveal_strlit("t4");
    reveal_strlit("t5");
    reveal_strlit("t6");
    reveal_strlit("t7");
    reveal_strlit("s0");
    reveal_strlit("s1");
    reveal_strlit("s2");
    reveal_strlit("s3");
    reveal_strlit("s4");
    reveal_strlit("s5");
    reveal_strlit("s6");
    reveal_strlit("s7");
    reveal_strlit("t8");
    reveal_strlit("t9");
    reveal_strlit("k0");
    reveal_strlit("k1");
    reveal_strlit("gp");
    reveal_strlit("sp");
    reveal_strlit("fp");
    reveal_strlit("ra");
    reveal_strlit("s8");
    reveal_strlit("$t8");
    reveal_strlit("$t9");
    reveal_strlit("$k0");
    reveal_strlit("$k1");
    reveal_strlit("$gp");
    reveal_strlit("$sp");
    reveal_strlit("$fp");
    reveal_strlit("$ra");
    let name = register_name_spec(index);
    if index == 24 {
        assert(name =~= seq!['$'] + "t8"@);
        lemma_dollar_name("t8"@);
    } else if index == 25 {
        assert(name =~= seq!['$'] + "t9"@);
        lemma_dollar_name("t9"@);
    } else if index == 26 {
        assert(name =~= seq!['$'] + "k0"@);
        lemma_dollar_name("k0"@);
    } else if index == 27 {
        assert(name =~= seq!['$'] + "k1"@);
        lemma_dollar_name("k1"@);
    } else if index == 28 {
        assert(name =~= seq!['$'] + "gp"@);
        lemma_dollar_name("gp"@);
    } else if index == 29 {
        assert(name =~= seq!['$'] + "sp"@);
        lemma_dollar_name("sp"@);
    } else if index == 30 {
        assert(name =~= seq!['$'] + "fp"@);
        lemma_dollar_name("fp"@);
    } else if index == 31 {
        assert(name =~= seq!['$'] + "ra"@);
        lemma_dollar_name("ra"@);
    }
}

/// Every register reads back from its conventional name (`$zero` .. `$ra`) and from `$`
/// followed by its number in decimal.
pub proof fn lemma_register_names_parse(index: u8)
    requires
        index < 32,
    ensures
        register_number(register_name_spec(index)) == Some(index),
        register_number(seq!['$'] + decimal(index as nat)) == Some(index),
{
    if index < 8 {
        lemma_register_names_0(index);
    } else if index < 16 {
        lemma_register_names_1(index);
    } else if index < 24 {
        lemma_register_names_2(index);
    } else {
        lemma_register_names_3(index);
    }
    lemma_decimal_register(index);
}

pub fn register_number_exec(token: &Vec<char>) -> (result: Option<u8>)
    ensures
        result == register_number(token@),
{
    let n = token.len();
    let mut i: usize = 0;
    assert(token@.skip(0) =~= token@);
    while i < n && token[i] == '$'
        invariant
            n == token@.len(),
            i <= n,
            strip_dollars(token@) == strip_dollars(token@.skip(i as int)),
        decreases n - i,
    {
        assert(token@.skip(i as int).drop_first() =~= token@.skip(i + 1));
        i = i + 1;
    }
    let rest = slice_chars(token, i, n);
    assert(rest@ =~= token@.skip(i as int));
    assert(strip_dollars(rest@) == rest@) by {
        if i < n {
            assert(rest@[0] == token@[i as int]);
        }
    }
    let name = to_lower_exec(&rest);
    match named_register_exec(&name) {
        Some(r) => Some(r),
        None => {
            let unsigned_start: usize = if name.len() > 0 && name[0] == '+' {
                1
            } else {
                0
            };
            proof {
                assert(name@.skip(0) =~= name@);
            }
            match parse_digits(&name, unsigned_start, false) {
                Some(v) => if v < 32 {
                    Some(v as u8)
                } else {
                    None
                },
                None => None,
            }
        },
    }
}

} // verus!
