use vstd::prelude::*;
use vstd::string::*;

verus! {

/// How a single character is written inside a JSON string literal.
pub open spec fn json_escape_char(c: char) -> Seq<char> {
    if c == '"' {
        seq!['\\', '"']
    } else if c == '\\' {
        seq!['\\', '\\']
    } else if c == '\x08' {
        seq!['\\', 'b']
    } else if c == '\t' {
        seq!['\\', 't']
    } else if c == '\n' {
        seq!['\\', 'n']
    } else if c == '\x0c' {
        seq!['\\', 'f']
    } else if c == '\r' {
        seq!['\\', 'r']
    } else if (c as u32) < 0x20 {
        seq!['\\', 'u', '0', '0', hex_digit((c as u32) / 16), hex_digit((c as u32) % 16)]
    } else {
        seq![c]
    }
}

/// A lower-case hexadecimal digit.
pub open spec fn hex_digit(d: u32) -> char {
    if d < 10 {
        (('0' as u32) + d) as char
    } else {
        (('a' as u32) + d - 10) as char
    }
}

/// The characters of `s` with every character escaped for a JSON string literal.
pub open spec fn json_escaped(s: Seq<char>) -> Seq<char>
    decreases s.len(),
{
    if s.len() == 0 {
        Seq::empty()
    } else {
        json_escaped(s.drop_last()) + json_escape_char(s.last())
    }
}

/// `s` written as a JSON string literal, quotes included.
pub open spec fn json_quoted(s: Seq<char>) -> Seq<char> {
    seq!['"'] + json_escaped(s) + seq!['"']
}

/// The decimal digit for `d < 10`.
pub open spec fn decimal_digit(d: nat) -> char {
    (('0' as u32) + d) as char
}

/// The decimal numeral of a natural number, without leading zeros.
pub open spec fn nat_decimal(n: nat) -> Seq<char>
    decreases n,
{
    if n < 10 {
        seq![decimal_digit(n)]
    } else {
        nat_decimal(n / 10) + seq![decimal_digit(n % 10)]
    }
}

/// The decimal numeral of an integer, with a leading `-` when it is negative.
pub open spec fn int_decimal(n: int) -> Seq<char> {
    if n < 0 {
        seq!['-'] + nat_decimal((-n) as nat)
    } else {
        nat_decimal(n as nat)
    }
}

/// What JSON text becomes when it is parsed into a JSON value and written back in
/// compact form (object keys sorted), or `None` where the text is not JSON.
pub uninterp spec fn json_reserialized(text: Seq<char>) -> Option<Seq<char>>;

/// The contents of the JSON string literal that the whole of `text` is (surrounding
/// whitespace allowed), or `None` where `text` is not a JSON string literal.
pub uninterp spec fn json_string_contents(text: Seq<char>) -> Option<Seq<char>>;

/// Writes `s` as a JSON string literal with `serde_json::to_string`.
///
/// Trusted: the contract claims that serde_json quotes the text and escapes `"`, `\`,
/// the five short control escapes and every other character below U+0020 as `\u00xx`
/// in lower-case hex, leaving all other characters as they are (its `ESCAPE` table).
#[verifier::external_body]
pub(crate) fn json_quote(s: &str) -> (r: String)
    ensures
        r@ == json_quoted(s@),
{
    serde_json::to_string(s).unwrap_or_default()
}

/// Writes an integer as JSON with `serde_json::to_string`.
///
/// Trusted: the contract claims that serde_json writes an `i64` as its plain decimal
/// numeral (it uses `itoa`), with `-` for negative numbers.
#[verifier::external_body]
pub(crate) fn json_integer(n: i64) -> (r: String)
    ensures
        r@ == int_decimal(n as int),
{
    serde_json::to_string(&n).unwrap_or_default()
}

/// Parses JSON text into a `serde_json::Value` with `serde_json::from_str` and writes
/// the value back with its `to_string`.
///
/// Trusted: the result is named `json_reserialized` of the text, a function of the
/// text alone; nothing more is claimed of it.
#[verifier::external_body]
pub(crate) fn reserialize_json(text: &str) -> (r: Option<String>)
    ensures
        match r {
            Some(out) => json_reserialized(text@) == Some(out@),
            None => json_reserialized(text@) is None,
        },
{
    match serde_json::from_str::<serde_json::Value>(text) {
        Ok(value) => Some(value.to_string()),
        Err(_) => None,
    }
}

/// Reads JSON text as a string with `serde_json::from_str::<String>`.
///
/// Trusted: the result is named `json_string_contents` of the text, a function of the
/// text alone; nothing more is claimed of it.
#[verifier::external_body]
pub(crate) fn json_as_string(text: &str) -> (r: Option<String>)
    ensures
        match r {
            Some(out) => json_string_contents(text@) == Some(out@),
            None => json_string_contents(text@) is None,
        },
{
    serde_json::from_str::<String>(text).ok()
}

/// The text of the frame that hands a broadcast to a client: an object whose
/// `identifier` is the channel identifier and whose `message` is the broadcast data.
pub open spec fn broadcast_text(identifier: Seq<char>, message: Seq<char>) -> Seq<char> {
    "{\"identifier\":"@ + json_quoted(identifier) + ",\"message\":"@ + message + "}"@
}

/// The text of the ping frame for a Unix timestamp.
pub open spec fn ping_text(timestamp: int) -> Seq<char> {
    "{\"message\":"@ + int_decimal(timestamp) + ",\"type\":\"ping\"}"@
}

/// Builds the frame that forwards broadcast `data` (JSON text) to a client subscribed
/// under `identifier`; `None` where `data` is not JSON.
pub fn broadcast_frame(identifier: &str, data: &str) -> (r: Option<String>)
    ensures
        r is Some <==> json_reserialized(data@) is Some,
        r matches Some(frame) ==> frame@ == broadcast_text(identifier@, json_reserialized(data@)->0),
        r matches Some(frame) ==> frame@ == "{\"identifier\":"@ + json_quoted(identifier@) + ",\"message\":"@
            + json_reserialized(data@)->0 + "}"@,
{
    match reserialize_json(data) {
        None => None,
        Some(message) => {
            let quoted = json_quote(identifier);
            let frame = String::from_str("{\"identifier\":").concat(quoted.as_str()).concat(
                ",\"message\":",
            ).concat(message.as_str()).concat("}");
            Some(frame)
        },
    }
}

/// Builds the ping frame for a Unix timestamp.
pub fn ping_frame(timestamp: i64) -> (r: String)
    ensures
        r@ == ping_text(timestamp as int),
{
    let number = json_integer(timestamp);
    String::from_str("{\"message\":").concat(number.as_str()).concat(",\"type\":\"ping\"}")
}

/// Every character that escaping writes for one character: a `"` is only ever written
/// right after a `\`.
proof fn lemma_escape_char_quotes(c: char)
    ensures
        json_escape_char(c).len() >= 1,
        json_escape_char(c)[0] == '"' ==> false,
        forall|i: int|
            1 <= i < json_escape_char(c).len() && #[trigger] json_escape_char(c)[i] == '"' ==> json_escape_char(
                c,
            )[i - 1] == '\\',
{
    if (c as u32) < 0x20 && c != '\x08' && c != '\t' && c != '\n' && c != '\x0c' && c != '\r' {
        let e = json_escape_char(c);
        assert(e == seq!['\\', 'u', '0', '0', hex_digit((c as u32) / 16), hex_digit((c as u32) % 16)]);
        assert(hex_digit((c as u32) / 16) != '"');
        assert(hex_digit((c as u32) % 16) != '"');
    }
}

/// In escaped text, a `"` is only ever written right after a `\`, so it never ends
/// the string literal.
proof fn lemma_escaped_quotes(s: Seq<char>)
    ensures
        forall|i: int|
            0 <= i < json_escaped(s).len() && #[trigger] json_escaped(s)[i] == '"' ==> i >= 1 && json_escaped(s)[i
                - 1] == '\\',
    decreases s.len(),
{
    if s.len() > 0 {
        let p = s.drop_last();
        lemma_escaped_quotes(p);
        lemma_escape_char_quotes(s.last());
        let a = json_escaped(p);
        let b = json_escape_char(s.last());
        assert(json_escaped(s) == a + b);
        assert forall|i: int|
            0 <= i < json_escaped(s).len() && #[trigger] json_escaped(s)[i] == '"' implies i >= 1 && json_escaped(
                s,
            )[i - 1] == '\\' by {
            if i < a.len() {
                assert(json_escaped(s)[i] == a[i]);
                assert(json_escaped(s)[i - 1] == a[i - 1]);
            } else {
                let k = i - a.len();
                assert(json_escaped(s)[i] == b[k]);
                assert(k >= 1);
                assert(b[k - 1] == '\\');
                assert(json_escaped(s)[i - 1] == b[k - 1]);
            }
        }
    }
}

/// A quoted text is a JSON string literal: it opens and closes with `"`, and every `"`
/// between them is escaped by a `\` before it.
pub proof fn lemma_quoted_is_string_literal(s: Seq<char>)
    ensures
        json_quoted(s).len() >= 2,
        json_quoted(s)[0] == '"',
        json_quoted(s)[json_quoted(s).len() - 1] == '"',
        forall|i: int|
            1 <= i < json_quoted(s).len() - 1 && #[trigger] json_quoted(s)[i] == '"' ==> json_quoted(s)[i - 1]
                == '\\',
{
    let e = json_escaped(s);
    lemma_escaped_quotes(s);
    let q = json_quoted(s);
    assert(q == seq!['"'] + e + seq!['"']);
    assert forall|i: int| 1 <= i < q.len() - 1 && #[trigger] q[i] == '"' implies q[i - 1] == '\\' by {
        assert(q[i] == e[i - 1]);
        assert(i - 1 >= 1);
        assert(q[i - 1] == e[i - 2]);
    }
}

/// The identifier field of every broadcast frame is a JSON string literal: right after
/// `{"identifier":` comes a `"`, and the literal closes with a `"` right before
/// `,"message":`, whatever the identifier (also one that is itself JSON text).
pub proof fn lemma_broadcast_identifier_is_string(identifier: Seq<char>, message: Seq<char>)
    ensures
        ({
            let frame = broadcast_text(identifier, message);
            let head = "{\"identifier\":"@;
            let quoted = json_quoted(identifier);
            &&& frame[head.len() as int] == '"'
            &&& frame[head.len() + quoted.len() - 1] == '"'
            &&& frame.subrange(head.len() as int, (head.len() + quoted.len()) as int) == quoted
        }),
{
    let head = "{\"identifier\":"@;
    let quoted = json_quoted(identifier);
    let frame = broadcast_text(identifier, message);
    lemma_quoted_is_string_literal(identifier);
    assert(frame == head + quoted + (",\"message\":"@ + message + "}"@));
    assert(frame.subrange(head.len() as int, (head.len() + quoted.len()) as int) =~= quoted);
    assert(frame[head.len() as int] == quoted[0]);
    assert(frame[head.len() + quoted.len() - 1] == quoted[quoted.len() - 1]);
}

} // verus!
