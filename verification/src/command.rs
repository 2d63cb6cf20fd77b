//! The decisions of the command-line front end that do not touch files or the terminal:
//! reading an execution limit and writing the benchmark report.

use vstd::prelude::*;
use crate::syntax::{digit_value, digits_value};
use crate::text::{chars_to_string, decimal, push_decimal, push_str, push_wide_decimal, str_to_chars};

verus! {

/// Why an execution-limit argument was refused.
#[derive(Clone, Copy, Debug, PartialEq, Eq, Structural)]
pub enum LimitError {
    /// The argument is empty.
    Empty,
    /// The argument holds a character that is not a decimal digit.
    InvalidDigit,
    /// The argument denotes a number above `u64::MAX`.
    TooLarge,
    /// The argument denotes zero.
    Zero,
}

/// The diagnostic text of a refused limit.
pub open spec fn limit_error_text(error: LimitError) -> Seq<char> {
    match error {
        LimitError::Empty => "cannot parse integer from empty string"@,
        LimitError::InvalidDigit => "invalid digit found in string"@,
        LimitError::TooLarge => "number too large to fit in target type"@,
        LimitError::Zero => "execution limit must be greater than zero"@,
    }
}

impl LimitError {
    /// Renders the error as the command line reports it.
    pub fn to_string(&self) -> (text: String)
        ensures
            text@ == limit_error_text(*self),
    {
        let mut out: Vec<char> = Vec::new();
        match self {
            LimitError::Empty => push_str(&mut out, "cannot parse integer from empty string"),
            LimitError::InvalidDigit => push_str(&mut out, "invalid digit found in string"),
            LimitError::TooLarge => push_str(&mut out, "number too large to fit in target type"),
            LimitError::Zero => push_str(&mut out, "execution limit must be greater than zero"),
        }
        assert(out@ =~= limit_error_text(*self));
        chars_to_string(&out)
    }
}

/// Reads `digits[i..]` as decimal digits onto the value `value` read so far, from left to
/// right: the first character that is not a digit is an invalid digit, and the first digit
/// that takes the value above `u64::MAX` makes it too large.
pub open spec fn scan_decimal(digits: Seq<char>, i: int, value: nat) -> Result<u64, LimitError>
    decreases digits.len() - i,
{
    if i >= digits.len() {
        Ok(value as u64)
    } else {
        match digit_value(digits[i], false) {
            None => Err(LimitError::InvalidDigit),
            Some(d) => if value * 10 + d > u64::MAX {
                Err(LimitError::TooLarge)
            } else {
                scan_decimal(digits, i + 1, value * 10 + d)
            },
        }
    }
}

/// A `u64` written in decimal with an optional leading `+`, as `str::parse::<u64>` reads it.
pub open spec fn parse_u64_spec(text: Seq<char>) -> Result<u64, LimitError> {
    if text.len() == 0 {
        Err(LimitError::Empty)
    } else if text.len() == 1 && (text[0] == '+' || text[0] == '-') {
        Err(LimitError::InvalidDigit)
    } else if text[0] == '+' {
        scan_decimal(text, 1, 0)
    } else {
        scan_decimal(text, 0, 0)
    }
}

/// The limit that an optional argument gives: the default when it is absent, else its
/// positive value.
pub open spec fn parse_limit_spec(value: Option<Seq<char>>, default: u64) -> Result<u64, LimitError> {
    match value {
        None => Ok(default),
        Some(text) => match parse_u64_spec(text) {
            Ok(limit) => if limit == 0 {
                Err(LimitError::Zero)
            } else {
                Ok(limit)
            },
            Err(e) => Err(e),
        },
    }
}

/// Reads an execution limit: `default` when no argument is given, else the argument as a
/// decimal `u64`, which must not be zero.
pub fn parse_limit(value: Option<&str>, default: u64) -> (result: Result<u64, LimitError>)
    ensures
        result == parse_limit_spec(
            match value {
                Some(text) => Some(text@),
                None => None,
            },
            default,
        ),
{
    let text = match value {
        None => return Ok(default),
        Some(text) => str_to_chars(text),
    };
    let n = text.len();
    if n == 0 {
        return Err(LimitError::Empty);
    }
    if n == 1 && (text[0] == '+' || text[0] == '-') {
        return Err(LimitError::InvalidDigit);
    }
    let start: usize = if text[0] == '+' {
        1
    } else {
        0
    };
    let ghost digits = text@;
    let mut value_so_far: u64 = 0;
    let mut i: usize = start;
    while i < n
        invariant
            n == text@.len(),
            digits == text@,
            start <= i <= n,
            value matches Some(t) && t@ == digits,
            parse_u64_spec(digits) == scan_decimal(digits, i as int, value_so_far as nat),
        decreases n - i,
    {
        let c = text[i];
        assert(digits[i as int] == c);
        if !('0' <= c && c <= '9') {
            assert(scan_decimal(digits, i as int, value_so_far as nat) == Err::<u64, LimitError>(
                LimitError::InvalidDigit,
            ));
            return Err(LimitError::InvalidDigit);
        }
        let d = (c as u32 - '0' as u32) as u64;
        let next: u128 = (value_so_far as u128) * 10 + (d as u128);
        if next > 0xffff_ffff_ffff_ffff {
            assert(scan_decimal(digits, i as int, value_so_far as nat) == Err::<u64, LimitError>(
                LimitError::TooLarge,
            ));
            return Err(LimitError::TooLarge);
        }
        value_so_far = next as u64;
        i = i + 1;
    }
    if value_so_far == 0 {
        Err(LimitError::Zero)
    } else {
        Ok(value_so_far)
    }
}

/// The characters of `text` with every backslash doubled and every double quote preceded by
/// a backslash.
pub open spec fn json_escape_spec(text: Seq<char>) -> Seq<char>
    decreases text.len(),
{
    if text.len() == 0 {
        seq![]
    } else {
        json_escape_spec(text.drop_last()) + if text.last() == '\\' {
            seq!['\\', '\\']
        } else if text.last() == '"' {
            seq!['\\', '"']
        } else {
            seq![text.last()]
        }
    }
}

/// Escapes backslashes and double quotes so that `value` can stand inside a JSON string.
pub fn json_escape(value: &str) -> (escaped: String)
    ensures
        escaped@ == json_escape_spec(value@),
{
    let chars = str_to_chars(value);
    let n = chars.len();
    let mut out: Vec<char> = Vec::new();
    let mut i: usize = 0;
    while i < n
        invariant
            n == chars@.len(),
            chars@ == value@,
            i <= n,
            out@ == json_escape_spec(chars@.take(i as int)),
        decreases n - i,
    {
        let c = chars[i];
        if c == '\\' {
            out.push('\\');
            out.push('\\');
        } else if c == '"' {
            out.push('\\');
            out.push('"');
        } else {
            out.push(c);
        }
        proof {
            assert(chars@.take(i + 1).drop_last() =~= chars@.take(i as int));
        }
        assert(out@ =~= json_escape_spec(chars@.take(i + 1)));
        i = i + 1;
    }
    assert(chars@.take(n as int) =~= chars@);
    chars_to_string(&out)
}

/// The benchmark report: schema version 1, the escaped program path, the iteration count,
/// the mean microseconds per run, the simulated cycles, the retired count and the CPI text.
pub open spec fn benchmark_report_spec(
    program: Seq<char>,
    iterations: u32,
    mean_micros: u128,
    cycles: usize,
    retired: u64,
    cpi: Seq<char>,
) -> Seq<char> {
    "{\n  \"schemaVersion\": 1,\n  \"program\": \""@ + json_escape_spec(program)
        + "\",\n  \"iterations\": "@ + decimal(iterations as nat) + ",\n  \"meanMicroseconds\": "@
        + decimal(mean_micros as nat) + ",\n  \"simulatedCycles\": "@ + decimal(cycles as nat)
        + ",\n  \"retired\": "@ + decimal(retired as nat) + ",\n  \"cpi\": "@ + cpi + "\n}\n"@
}

/// Writes the benchmark report; `cpi` is the cycles-per-instruction figure, already rendered
/// as text by the caller.
pub fn benchmark_report(
    program: &str,
    iterations: u32,
    mean_micros: u128,
    cycles: usize,
    retired: u64,
    cpi: &str,
) -> (report: String)
    ensures
        report@ == benchmark_report_spec(program@, iterations, mean_micros, cycles, retired, cpi@),
{
    let mut out: Vec<char> = Vec::new();
    push_str(&mut out, "{\n  \"schemaVersion\": 1,\n  \"program\": \"");
    let escaped = json_escape(program);
    push_str(&mut out, escaped.as_str());
    push_str(&mut out, "\",\n  \"iterations\": ");
    push_decimal(&mut out, iterations as u64);
    push_str(&mut out, ",\n  \"meanMicroseconds\": ");
    push_wide_decimal(&mut out, mean_micros);
    push_str(&mut out, ",\n  \"simulatedCycles\": ");
    push_decimal(&mut out, cycles as u64);
    push_str(&mut out, ",\n  \"retired\": ");
    push_decimal(&mut out, retired);
    push_str(&mut out, ",\n  \"cpi\": ");
    push_str(&mut out, cpi);
    push_str(&mut out, "\n}\n");
    assert(out@ =~= benchmark_report_spec(program@, iterations, mean_micros, cycles, retired, cpi@));
    chars_to_string(&out)
}

/// Reading digits on from position `i` adds them to the value read so far: when `digits[i..]`
/// are all decimal digits and the whole run's value fits in a `u64`, the scan gives it.
proof fn lemma_scan_digits(digits: Seq<char>, i: int)
    requires
        0 <= i <= digits.len(),
        forall|k: int| 0 <= k < digits.len() ==> '0' <= #[trigger] digits[k] <= '9',
        digits_value(digits, false) <= u64::MAX,
    ensures
        scan_decimal(digits, i, digits_value(digits.take(i), false)) == Ok::<u64, LimitError>(
            digits_value(digits, false) as u64,
        ),
    decreases digits.len() - i,
{
    if i < digits.len() {
        let next = digits.take(i + 1);
        assert(next.drop_last() =~= digits.take(i));
        assert(next.last() == digits[i]);
        lemma_digits_prefix_bound(digits, i + 1);
        lemma_scan_digits(digits, i + 1);
    } else {
        assert(digits.take(i) =~= digits);
    }
}

/// A prefix of a run of decimal digits is worth no more than the whole run.
proof fn lemma_digits_prefix_bound(digits: Seq<char>, i: int)
    requires
        0 <= i <= digits.len(),
        forall|k: int| 0 <= k < digits.len() ==> '0' <= #[trigger] digits[k] <= '9',
    ensures
        digits_value(digits.take(i), false) <= digits_value(digits, false),
    decreases digits.len() - i,
{
    if i < digits.len() {
        lemma_digits_prefix_bound(digits, i + 1);
        let next = digits.take(i + 1);
        assert(next.drop_last() =~= digits.take(i));
        let v = digits_value(digits.take(i), false);
        assert(v * 10 >= v) by (nonlinear_arith);
    } else {
        assert(digits.take(i) =~= digits);
    }
}

/// A limit written as the decimal rendering of `n` (optionally after `+`) reads back as `n`,
/// and is refused as zero when `n` is zero; no argument gives the default.
pub proof fn lemma_limit_reads_back(n: u64, default: u64)
    ensures
        parse_limit_spec(Some(decimal(n as nat)), default) == if n == 0 {
            Err::<u64, LimitError>(LimitError::Zero)
        } else {
            Ok(n)
        },
        parse_limit_spec(Some(seq!['+'] + decimal(n as nat)), default) == if n == 0 {
            Err::<u64, LimitError>(LimitError::Zero)
        } else {
            Ok(n)
        },
        parse_limit_spec(None, default) == Ok::<u64, LimitError>(default),
{
    crate::round_trip::lemma_decimal_digits(n as nat);
    let d = decimal(n as nat);
    assert(d.take(0) =~= Seq::<char>::empty());
    assert(digits_value(Seq::<char>::empty(), false) == 0);
    lemma_scan_digits(d, 0);
    let p = seq!['+'] + d;
    assert(p[0] == '+');
    assert forall|k: int| 1 <= k < p.len() implies p[k] == d[k - 1] by {}
    lemma_scan_shift(d, 0, 0);
}

/// A leading `+` shifts the scan by one position.
proof fn lemma_scan_shift(digits: Seq<char>, i: int, value: nat)
    requires
        0 <= i <= digits.len(),
    ensures
        scan_decimal(seq!['+'] + digits, i + 1, value) == scan_decimal(digits, i, value),
    decreases digits.len() - i,
{
    if i < digits.len() {
        assert((seq!['+'] + digits)[i + 1] == digits[i]);
        if let Some(d) = digit_value(digits[i], false) {
            lemma_scan_shift(digits, i + 1, value * 10 + d);
        }
    }
}

} // verus!
