//! JSON text: string literals as serde_json writes them, and the few
//! documents the service answers with.

use vstd::prelude::*;
use crate::numbers::digit_char;
use crate::text::push_char;

verus! {

/// The lowercase hexadecimal digit of a number below sixteen.
pub open spec fn hex_digit(n: nat) -> char
    recommends
        n < 16,
{
    if n < 10 {
        digit_char(n)
    } else {
        ((n - 10) + 'a' as nat) as char
    }
}

/// How serde_json writes one character inside a string literal: `"` and `\`
/// and the control characters below 0x20 escaped (the short forms where JSON
/// has one, `\u00XX` with lowercase hex digits otherwise), all else as is.
pub open spec fn json_escape_char(c: char) -> Seq<char> {
    if c == '"' {
        seq!['\\', '"']
    } else if c == '\\' {
        seq!['\\', '\\']
    } else if c == '\x08' {
        seq!['\\', 'b']
    } else if c == '\t' {
        seq!['\\', 't']
    } else if c == '\n' {
        seq!['\\', 'n']
    } else if c == '\x0c' {
        seq!['\\', 'f']
    } else if c == '\r' {
        seq!['\\', 'r']
    } else if (c as nat) < 0x20 {
        seq!['\\', 'u', '0', '0', hex_digit((c as nat) / 16), hex_digit((c as nat) % 16)]
    } else {
        seq![c]
    }
}

/// The escaped body of a JSON string literal.
pub open spec fn json_escape(s: Seq<char>) -> Seq<char>
    decreases s.len(),
{
    if s.len() == 0 {
        seq![]
    } else {
        json_escape(s.drop_last()) + json_escape_char(s.last())
    }
}

/// A JSON string literal holding `s`.
pub open spec fn json_quoted(s: Seq<char>) -> Seq<char> {
    seq!['"'] + json_escape(s) + seq!['"']
}

/// The pieces joined with `sep` between each two.
pub open spec fn join(pieces: Seq<Seq<char>>, sep: char) -> Seq<char>
    decreases pieces.len(),
{
    if pieces.len() == 0 {
        seq![]
    } else if pieces.len() == 1 {
        pieces[0]
    } else {
        join(pieces.drop_last(), sep) + seq![sep] + pieces.last()
    }
}

/// A compact JSON array of the given strings.
pub open spec fn json_string_array(items: Seq<Seq<char>>) -> Seq<char> {
    seq!['['] + join(items.map_values(|t: Seq<char>| json_quoted(t)), ',') + seq![']']
}

/// A compact JSON object with the single field `message`.
pub open spec fn json_message(msg: Seq<char>) -> Seq<char> {
    "{\"message\":"@ + json_quoted(msg) + seq!['}']
}

/// `serde_json::to_string` on a string slice: the source writes a `"`, each
/// character escaped as `json_escape_char` says (its escape table), and a
/// closing `"`. Writing into memory does not fail, so the call does not panic.
#[verifier::external_body]
fn json_quote(s: &str) -> (r: String)
    ensures
        r@ == json_quoted(s@),
{
    serde_json::to_string(s).expect("writing JSON into memory does not fail")
}

/// Whether serde_json reads the text as a JSON document.
pub uninterp spec fn json_parses(s: Seq<char>) -> bool;

/// `serde_json::from_str::<serde_json::Value>`: whether the text is one JSON
/// value, with nothing but whitespace around it. The grammar is named, not
/// written out.
#[verifier::external_body]
pub(crate) fn is_json(s: &str) -> (r: bool)
    ensures
        r == json_parses(s@),
{
    match serde_json::from_str::<serde_json::Value>(s) {
        Ok(_) => true,
        Err(_) => false,
    }
}

/// The JSON object `{"message": msg}`, as `serde_json::json!` writes it.
pub fn message_json(msg: &str) -> (r: String)
    ensures
        r@ == json_message(msg@),
{
    let mut r = String::from_str("{\"message\":");
    let quoted = json_quote(msg);
    r.append(quoted.as_str());
    push_char(&mut r, '}');
    r
}

/// The JSON array of the given strings, as `serde_json::json!` writes it.
pub fn string_array_json(items: &Vec<String>) -> (r: String)
    ensures
        r@ == json_string_array(items@.map_values(|t: String| t@)),
{
    let ghost views = items@.map_values(|t: String| t@);
    let ghost quoted = views.map_values(|t: Seq<char>| json_quoted(t));
    let n = items.len();
    let mut body = String::new();
    let mut i: usize = 0;
    while i < n
        invariant
            n == items@.len(),
            views == items@.map_values(|t: String| t@),
            quoted == views.map_values(|t: Seq<char>| json_quoted(t)),
            i <= n,
            body@ == join(quoted.take(i as int), ','),
        decreases n - i,
    {
        let q = json_quote(items[i].as_str());
        assert(q@ == quoted[i as int]);
        assert(quoted.take(i + 1).drop_last() =~= quoted.take(i as int));
        if i > 0 {
            push_char(&mut body, ',');
        } else {
            assert(body@ =~= Seq::<char>::empty());
        }
        body.append(q.as_str());
        i = i + 1;
        assert(body@ =~= join(quoted.take(i as int), ','));
    }
    assert(quoted.take(n as int) =~= quoted);
    let mut r = String::new();
    push_char(&mut r, '[');
    r.append(body.as_str());
    push_char(&mut r, ']');
    assert(r@ =~= json_string_array(views));
    r
}

} // verus!
