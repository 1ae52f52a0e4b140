use vstd::prelude::*;
use vstd::string::*;

use crate::value::{entries_view, items_view, lemma_view_parts, Json, JsonValue};

verus! {

/// Lower-case hexadecimal digit of `d` (below 16).
pub open spec fn hex_digit(d: u32) -> char {
    if d < 10 {
        digit_char(d as nat)
    } else if d == 10 { 'a' }
    else if d == 11 { 'b' }
    else if d == 12 { 'c' }
    else if d == 13 { 'd' }
    else if d == 14 { 'e' }
    else { 'f' }
}

/// How one character stands inside a JSON string literal: a quote and a
/// backslash are escaped by a backslash; backspace, tab, line feed, form
/// feed and carriage return take their short escapes; other characters
/// below U+0020 become `\u00XX`; everything else stands as it is.
pub open spec fn escape_char(c: char) -> Seq<char> {
    if c == '"' {
        seq!['\\', '"']
    } else if c == '\\' {
        seq!['\\', '\\']
    } else if c == '\u{8}' {
        seq!['\\', 'b']
    } else if c == '\t' {
        seq!['\\', 't']
    } else if c == '\n' {
        seq!['\\', 'n']
    } else if c == '\u{c}' {
        seq!['\\', 'f']
    } else if c == '\r' {
        seq!['\\', 'r']
    } else if (c as u32) < 0x20 {
        seq!['\\', 'u', '0', '0', hex_digit((c as u32) / 16), hex_digit((c as u32) % 16)]
    } else {
        seq![c]
    }
}

/// The characters of `s`, each escaped.
pub open spec fn escaped(s: Seq<char>) -> Seq<char>
    decreases s.len(),
{
    if s.len() == 0 {
        Seq::empty()
    } else {
        escaped(s.drop_last()) + escape_char(s.last())
    }
}

/// The JSON string literal that stands for `s`: its escaped characters
/// between quotes.
#[verifier::opaque]
pub open spec fn json_quoted(s: Seq<char>) -> Seq<char> {
    seq!['"'] + escaped(s) + seq!['"']
}

/// Relies on `serde_json::to_string` of a `str`: the escaped text between
/// quotes, by the table of escapes that `serde_json::ser` writes with.
/// Writing a `str` cannot fail.
#[verifier::external_body]
fn quote(s: &str) -> (r: String)
    ensures
        r@ == json_quoted(s@),
{
    match serde_json::to_string(s) {
        Ok(t) => t,
        Err(_) => String::new(),
    }
}

/// Decimal digits of `n`, most significant first.
pub open spec fn decimal(n: nat) -> Seq<char>
    decreases n,
{
    if n < 10 {
        seq![digit_char(n)]
    } else {
        decimal(n / 10).push(digit_char(n % 10))
    }
}

pub open spec fn digit_char(d: nat) -> char {
    if d == 0 { '0' }
    else if d == 1 { '1' }
    else if d == 2 { '2' }
    else if d == 3 { '3' }
    else if d == 4 { '4' }
    else if d == 5 { '5' }
    else if d == 6 { '6' }
    else if d == 7 { '7' }
    else if d == 8 { '8' }
    else { '9' }
}

fn digit_str(d: usize) -> (r: &'static str)
    requires
        d < 10,
    ensures
        r@ == seq![digit_char(d as nat)],
{
    proof {
        reveal_strlit("0");
        reveal_strlit("1");
        reveal_strlit("2");
        reveal_strlit("3");
        reveal_strlit("4");
        reveal_strlit("5");
        reveal_strlit("6");
        reveal_strlit("7");
        reveal_strlit("8");
        reveal_strlit("9");
    }
    if d == 0 { "0" }
    else if d == 1 { "1" }
    else if d == 2 { "2" }
    else if d == 3 { "3" }
    else if d == 4 { "4" }
    else if d == 5 { "5" }
    else if d == 6 { "6" }
    else if d == 7 { "7" }
    else if d == 8 { "8" }
    else { "9" }
}

/// Appends the decimal digits of `n` to `out`.
pub fn push_decimal(out: &mut String, n: usize)
    ensures
        final(out)@ == old(out)@ + decimal(n as nat),
    decreases n,
{
    if n >= 10 {
        push_decimal(out, n / 10);
    }
    out.append(digit_str(n % 10));
    proof {
        if n >= 10 {
            assert(decimal(n as nat) == decimal((n / 10) as nat).push(digit_char((n % 10) as nat)));
        }
    }
}

/// The compact JSON text of a document, objects with their entries in
/// order.
pub open spec fn text_of(v: Json) -> Seq<char>
    decreases v, 0nat,
{
    match v {
        Json::Null => seq!['n', 'u', 'l', 'l'],
        Json::Bool(b) => if b {
            seq!['t', 'r', 'u', 'e']
        } else {
            seq!['f', 'a', 'l', 's', 'e']
        },
        Json::Number(t) => t,
        Json::Str(s) => json_quoted(s),
        Json::Array(xs) => seq!['['] + items_text(xs, xs.len()) + seq![']'],
        Json::Object(es) => seq!['{'] + entries_text(es, es.len()) + seq!['}'],
    }
}

/// The texts of the first `n` items, between commas.
pub open spec fn items_text(xs: Seq<Json>, n: nat) -> Seq<char>
    decreases xs, n,
{
    if n == 0 || n > xs.len() {
        Seq::empty()
    } else if n == 1 {
        text_of(xs[0])
    } else {
        items_text(xs, (n - 1) as nat) + seq![','] + text_of(xs[n - 1])
    }
}

/// The texts of the first `n` entries, `"key":value`, between commas.
pub open spec fn entries_text(es: Seq<(Seq<char>, Json)>, n: nat) -> Seq<char>
    decreases es, n,
{
    if n == 0 || n > es.len() {
        Seq::empty()
    } else if n == 1 {
        json_quoted(es[0].0) + seq![':'] + text_of(es[0].1)
    } else {
        entries_text(es, (n - 1) as nat) + seq![','] + json_quoted(es[n - 1].0) + seq![':'] + text_of(
            es[n - 1].1,
        )
    }
}

/// Appends the compact JSON text of `v` to `out`.
#[verifier::loop_isolation(false)]
pub fn push_text(out: &mut String, v: &JsonValue)
    ensures
        final(out)@ == old(out)@ + text_of(v@),
    decreases v,
{
    proof {
        lemma_view_parts(*v);
        reveal_strlit("null");
        reveal_strlit("true");
        reveal_strlit("false");
        reveal_strlit("[");
        reveal_strlit("]");
        reveal_strlit("{");
        reveal_strlit("}");
        reveal_strlit(",");
        reveal_strlit(":");
    }
    let ghost start = out@;
    match v {
        JsonValue::Null => out.append("null"),
        JsonValue::Bool(b) => if *b {
            out.append("true")
        } else {
            out.append("false")
        },
        JsonValue::Number(t) => out.append(t.as_str()),
        JsonValue::String(s) => {
            let q = quote(s.as_str());
            out.append(q.as_str());
        },
        JsonValue::Array(xs) => {
            let ghost xv = items_view(xs@);
            out.append("[");
            let mut i: usize = 0;
            while i < xs.len()
                invariant
                    i <= xs.len(),
                    xv == items_view(xs@),
                    out@ == start + seq!['['] + items_text(xv, i as nat),
                decreases xs.len() - i,
            {
                assert(decreases_to!(*v => (*v)->Array_0));
                assert(decreases_to!(*xs => xs[i as int]));
                if i > 0 {
                    out.append(",");
                }
                push_text(out, &xs[i]);
                i += 1;
            }
            out.append("]");
        },
        JsonValue::Object(es) => {
            let ghost ev = entries_view(es@);
            out.append("{");
            let mut i: usize = 0;
            while i < es.len()
                invariant
                    i <= es.len(),
                    ev == entries_view(es@),
                    out@ == start + seq!['{'] + entries_text(ev, i as nat),
                decreases es.len() - i,
            {
                assert(decreases_to!(*v => (*v)->Object_0));
                assert(decreases_to!(*es => es[i as int]));
                if i > 0 {
                    out.append(",");
                }
                let q = quote(es[i].0.as_str());
                out.append(q.as_str());
                out.append(":");
                push_text(out, &es[i].1);
                i += 1;
            }
            out.append("}");
        },
    }
}

/// The compact JSON text of a document.
pub fn value_text(v: &JsonValue) -> (r: String)
    ensures
        r@ == text_of(v@),
{
    let mut out = String::new();
    push_text(&mut out, v);
    proof {
        assert(out@ =~= Seq::<char>::empty() + text_of(v@));
    }
    out
}

} // verus!
