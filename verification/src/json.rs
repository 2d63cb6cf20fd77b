//! What a JSON reader makes of the escaped strings of the trace document and the benchmark
//! report: it gets back exactly the text that was escaped.

use vstd::prelude::*;
use crate::pipeline::{is_control, json_char, json_escaped};
use crate::command::json_escape_spec;
use crate::text::hex_digits;

verus! {

/// The character a JSON string escape stands for: `\"`, `\\`, `\n`, `\r`, `\t`.
pub open spec fn json_escape_meaning(e: char) -> char {
    if e == 'n' {
        '\n'
    } else if e == 'r' {
        '\r'
    } else if e == 't' {
        '\t'
    } else {
        e
    }
}

/// What a JSON reader makes of the body of a string: `\uXXXX` is the character with that
/// hexadecimal code, `\` and one more character is that escape, anything else stands for
/// itself.
pub open spec fn json_unescape(t: Seq<char>) -> Seq<char>
    decreases t.len(),
{
    if t.len() == 0 {
        seq![]
    } else if t[0] == '\\' && t.len() >= 6 && t[1] == 'u' {
        seq![(crate::syntax::digits_value(t.subrange(2, 6), true) as u32) as char] + json_unescape(t.skip(6))
    } else if t[0] == '\\' && t.len() >= 2 {
        seq![json_escape_meaning(t[1])] + json_unescape(t.skip(2))
    } else {
        seq![t[0]] + json_unescape(t.skip(1))
    }
}

/// Escaping two texts one after the other escapes each.
pub proof fn lemma_json_escaped_append(a: Seq<char>, b: Seq<char>)
    ensures
        json_escaped(a + b) == json_escaped(a) + json_escaped(b),
    decreases b.len(),
{
    if b.len() == 0 {
        assert(a + b =~= a);
        assert(json_escaped(a) + json_escaped(b) =~= json_escaped(a));
    } else {
        lemma_json_escaped_append(a, b.drop_last());
        assert((a + b).drop_last() =~= a + b.drop_last());
        assert(json_escaped(a) + json_escaped(b.drop_last()) + json_char(b.last()) =~= json_escaped(a)
            + (json_escaped(b.drop_last()) + json_char(b.last())));
    }
}

/// Reading the escape of one character, then more text, gives the character, then the rest.
proof fn lemma_json_unescape_char(c: char, rest: Seq<char>)
    ensures
        json_unescape(json_char(c) + rest) == seq![c] + json_unescape(rest),
{
    let t = json_char(c) + rest;
    if is_control(c) && c != '\n' && c != '\r' && c != '\t' {
        let code = c as u32;
        assert(code < 0x1_0000);
        assert(crate::round_trip::pow16(4) == 0x1_0000) by {
            reveal_with_fuel(crate::round_trip::pow16, 5);
        }
        crate::round_trip::lemma_hex_digits(c as nat, 4);
        assert(t.subrange(2, 6) =~= hex_digits(c as nat, 4));
        assert(t.skip(6) =~= rest);
        assert((code as char) == c);
    } else if c == '"' || c == '\\' || c == '\n' || c == '\r' || c == '\t' {
        assert(t.skip(2) =~= rest);
    } else {
        assert(t.skip(1) =~= rest);
    }
}

/// A JSON reader gets back exactly the text that was escaped: the escaping loses nothing
/// and adds nothing.
pub proof fn lemma_json_escaped_reads_back(text: Seq<char>)
    ensures
        json_unescape(json_escaped(text)) == text,
    decreases text.len(),
{
    if text.len() > 0 {
        let rest = text.skip(1);
        assert(text =~= seq![text[0]] + rest);
        lemma_json_escaped_append(seq![text[0]], rest);
        assert(json_escaped(seq![text[0]]) =~= json_char(text[0])) by {
            assert(seq![text[0]].drop_last() =~= Seq::<char>::empty());
            assert(json_escaped(Seq::<char>::empty()) == Seq::<char>::empty());
            assert(Seq::<char>::empty() + json_char(text[0]) =~= json_char(text[0]));
        }
        lemma_json_unescape_char(text[0], json_escaped(rest));
        lemma_json_escaped_reads_back(rest);
    }
}

/// Escaping two texts one after the other for the benchmark report escapes each.
proof fn lemma_report_escape_append(a: Seq<char>, b: Seq<char>)
    ensures
        json_escape_spec(a + b) == json_escape_spec(a) + json_escape_spec(b),
    decreases b.len(),
{
    if b.len() == 0 {
        assert(a + b =~= a);
        assert(json_escape_spec(a) + json_escape_spec(b) =~= json_escape_spec(a));
    } else {
        lemma_report_escape_append(a, b.drop_last());
        assert((a + b).drop_last() =~= a + b.drop_last());
        let tail = if b.last() == '\\' {
            seq!['\\', '\\']
        } else if b.last() == '"' {
            seq!['\\', '"']
        } else {
            seq![b.last()]
        };
        assert(json_escape_spec(a) + json_escape_spec(b.drop_last()) + tail =~= json_escape_spec(a)
            + (json_escape_spec(b.drop_last()) + tail));
    }
}

/// The benchmark report's escaping of a path also reads back as the path.
pub proof fn lemma_report_escape_reads_back(text: Seq<char>)
    ensures
        json_unescape(json_escape_spec(text)) == text,
    decreases text.len(),
{
    if text.len() > 0 {
        let c = text[0];
        let rest = text.skip(1);
        assert(text =~= seq![c] + rest);
        lemma_report_escape_append(seq![c], rest);
        assert(seq![c].drop_last() =~= Seq::<char>::empty());
        assert(json_escape_spec(Seq::<char>::empty()) == Seq::<char>::empty());
        let head = json_escape_spec(seq![c]);
        let t = head + json_escape_spec(rest);
        if c == '\\' || c == '"' {
            assert(head =~= seq!['\\', c]);
            assert(t.skip(2) =~= json_escape_spec(rest));
        } else {
            assert(head =~= seq![c]);
            assert(t.skip(1) =~= json_escape_spec(rest));
        }
        lemma_report_escape_reads_back(rest);
    }
}

} // verus!
