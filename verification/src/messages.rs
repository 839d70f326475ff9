//! Outgoing messages: the `~m~<len>~m~<payload>` text framing of the
//! TradingView socket protocol, and the JSON commands sent through it.

use vstd::prelude::*;
use vstd::utf8::encode_utf8;
use crate::text::{decimal, push_char, push_chars, push_decimal, chars_of};

verus! {

/// The frame marker `~m~`.
pub open spec fn marker() -> Seq<char> {
    seq!['~', 'm', '~']
}

/// `s` begins with the frame marker.
pub open spec fn starts_with_marker(s: Seq<char>) -> bool {
    s.len() >= 3 && s.subrange(0, 3) == marker()
}

/// The number of bytes of the UTF-8 encoding of `s` (what `str::len` returns).
pub open spec fn utf8_len(s: Seq<char>) -> nat {
    encode_utf8(s).len()
}

/// One frame: the marker, the UTF-8 byte length of `body` in decimal, the
/// marker again, then `body` itself.
pub open spec fn frame(body: Seq<char>) -> Seq<char> {
    marker() + decimal(utf8_len(body)) + marker() + body
}

/// The text sent on the socket for `msg`: `msg` as it is when it already
/// begins with the frame marker, else `msg` wrapped in one frame.
pub open spec fn ws_text(msg: Seq<char>) -> Seq<char> {
    if starts_with_marker(msg) {
        msg
    } else {
        frame(msg)
    }
}

/// Whether `s` begins with the frame marker.
pub fn begins_with_marker(s: &[char]) -> (r: bool)
    ensures
        r == starts_with_marker(s@),
{
    if s.len() >= 3 && s[0] == '~' && s[1] == 'm' && s[2] == '~' {
        proof {
            assert(s@.subrange(0, 3) =~= marker());
        }
        true
    } else {
        proof {
            if s@.len() >= 3 {
                assert(s@.subrange(0, 3)[0] == s@[0]);
                assert(s@.subrange(0, 3)[1] == s@[1]);
                assert(s@.subrange(0, 3)[2] == s@[2]);
            }
        }
        false
    }
}

/// The socket text for `msg` (see [`ws_text`]).
pub fn frame_text(msg: &str) -> (r: String)
    ensures
        r@ == ws_text(msg@),
{
    let chars = chars_of(msg);
    let mut out = String::new();
    if begins_with_marker(chars.as_slice()) {
        push_chars(&mut out, chars.as_slice());
        proof {
            assert(Seq::<char>::empty() + msg@ =~= msg@);
        }
        return out;
    }
    let len = msg.as_bytes().len();
    push_char(&mut out, '~');
    push_char(&mut out, 'm');
    push_char(&mut out, '~');
    push_decimal(&mut out, len);
    push_char(&mut out, '~');
    push_char(&mut out, 'm');
    push_char(&mut out, '~');
    push_chars(&mut out, chars.as_slice());
    proof {
        let d = decimal(utf8_len(msg@));
        assert(out@ =~= marker() + d + marker() + msg@);
    }
    out
}

/// Why a message could not be turned into socket text.
#[derive(Debug, Clone, Copy, PartialEq, Eq, Structural)]
pub enum MessageError {
    /// The JSON encoder refused a string of the command.
    Encoding,
}

/// Things that can be sent on the socket as one text frame.
pub trait ToWSMessage {
    /// The text of the frame to send.
    fn to_ws_message(&self) -> Result<String, MessageError>;
}

impl ToWSMessage for str {
    fn to_ws_message(&self) -> (r: Result<String, MessageError>)
        ensures
            r matches Ok(t) && t@ == ws_text(self@),
    {
        Ok(frame_text(self))
    }
}

impl ToWSMessage for String {
    fn to_ws_message(&self) -> (r: Result<String, MessageError>)
        ensures
            r matches Ok(t) && t@ == ws_text(self@),
    {
        Ok(frame_text(self.as_str()))
    }
}

#[verifier::external_type_specification]
#[verifier::external_body]
pub struct ExSerdeJsonError(serde_json::Error);

/// The lower-case hexadecimal digit for `d < 16`.
pub open spec fn hex_digit(d: int) -> char {
    if d < 10 {
        crate::text::digit_char(d as nat)
    } else if d == 10 { 'a' }
    else if d == 11 { 'b' }
    else if d == 12 { 'c' }
    else if d == 13 { 'd' }
    else if d == 14 { 'e' }
    else { 'f' }
}

/// How `c` stands inside a JSON string literal: `"` and `\` escaped with a
/// backslash; backspace, form feed, line feed, carriage return and tab as
/// `\b`, `\f`, `\n`, `\r`, `\t`; any other char below U+0020 as `\u00`
/// and two lower-case hexadecimal digits; every other char as it is.
pub open spec fn json_escape(c: char) -> Seq<char> {
    let n = c as u32;
    if c == '"' {
        seq!['\\', '"']
    } else if c == '\\' {
        seq!['\\', '\\']
    } else if n == 8 {
        seq!['\\', 'b']
    } else if n == 12 {
        seq!['\\', 'f']
    } else if n == 10 {
        seq!['\\', 'n']
    } else if n == 13 {
        seq!['\\', 'r']
    } else if n == 9 {
        seq!['\\', 't']
    } else if n < 32 {
        seq!['\\', 'u', '0', '0', hex_digit(n as int / 16), hex_digit(n as int % 16)]
    } else {
        seq![c]
    }
}

/// The escaped chars of `s`, in order.
pub open spec fn json_escape_all(s: Seq<char>) -> Seq<char>
    decreases s.len(),
{
    if s.len() == 0 {
        Seq::empty()
    } else {
        json_escape_all(s.drop_last()) + json_escape(s.last())
    }
}

/// The JSON string literal of the text `s`, as serde_json writes it: a
/// quote, the escaped chars of `s`, a quote.
pub open spec fn json_string_literal(s: Seq<char>) -> Seq<char> {
    seq!['"'] + json_escape_all(s) + seq!['"']
}

/// Encodes `s` as a JSON string literal.
///
/// Wraps `serde_json::to_string` on a `str`. Claimed: the result is `Ok` of
/// [`json_string_literal`] of `s`. serde_json's source serializes a `str`
/// through `serialize_str` and `format_escaped_str`: a quote, each byte that
/// its `ESCAPE` table marks written as its escape (`write_char_escape`, with
/// lower-case hexadecimal digits), every other byte as it is, a quote; the
/// table marks only bytes below 0x20, `"` and `\`, so the chars of other
/// bytes stand unchanged. Its only error is an I/O error of the writer, and
/// `to_string` writes into a `Vec<u8>`.
#[verifier::external_body]
fn json_quote(s: &str) -> (r: Result<String, serde_json::Error>)
    ensures
        r is Ok,
        r matches Ok(q) ==> q@ == json_string_literal(s@),
{
    serde_json::to_string(s)
}

/// The texts of `items` separated by commas.
pub open spec fn join_with_commas(items: Seq<Seq<char>>) -> Seq<char>
    decreases items.len(),
{
    if items.len() == 0 {
        Seq::empty()
    } else if items.len() == 1 {
        items[0]
    } else {
        join_with_commas(items.drop_last()) + seq![','] + items.last()
    }
}

/// The JSON literals of each text of `params`.
pub open spec fn quoted_all(params: Seq<Seq<char>>) -> Seq<Seq<char>> {
    params.map_values(|p: Seq<char>| json_string_literal(p))
}

/// The JSON object `{"m":<method>,"p":[<params>...]}` of a command, compact,
/// every value a JSON string.
pub open spec fn command_json(method: Seq<char>, params: Seq<Seq<char>>) -> Seq<char> {
    seq!['{', '"', 'm', '"', ':'] + json_string_literal(method) + seq![',', '"', 'p', '"', ':', '[']
        + join_with_commas(quoted_all(params)) + seq![']', '}']
}

/// A command sent to the server: a method name and its string parameters.
#[derive(Debug, Clone)]
pub struct Command {
    /// The method (`m` on the wire).
    pub method: String,
    /// The parameters (`p` on the wire), each sent as a JSON string.
    pub parameters: Vec<String>,
}

/// The texts of a list of strings.
pub open spec fn texts(v: Seq<String>) -> Seq<Seq<char>> {
    v.map_values(|p: String| p@)
}

/// The texts of a list of string slices.
pub open spec fn str_texts(v: Seq<&str>) -> Seq<Seq<char>> {
    v.map_values(|p: &str| p@)
}

impl Command {
    /// The command `cmd` with the parameters `params`, in order.
    pub fn new(cmd: &str, params: &[&str]) -> (r: Command)
        ensures
            r.method@ == cmd@,
            texts(r.parameters@) == str_texts(params@),
    {
        let mut parameters: Vec<String> = Vec::new();
        let mut i: usize = 0;
        while i < params.len()
            invariant
                i <= params@.len(),
                parameters@.len() == i,
                texts(parameters@) == str_texts(params@.subrange(0, i as int)),
            decreases params@.len() - i,
        {
            let p: &str = params[i];
            let owned: String = p.to_owned();
            assert(owned@ == params@[i as int]@);
            let ghost before = parameters@;
            parameters.push(owned);
            proof {
                let sub = params@.subrange(0, i + 1);
                assert forall|j: int| 0 <= j < i + 1 implies texts(parameters@)[j] == str_texts(sub)[j] by {
                    if j < i {
                        assert(parameters@[j] == before[j]);
                        assert(texts(before)[j] == str_texts(params@.subrange(0, i as int))[j]);
                    }
                }
                assert(texts(parameters@) =~= str_texts(sub));
            }
            i = i + 1;
        }
        proof {
            assert(params@.subrange(0, params@.len() as int) =~= params@);
        }
        Command { method: cmd.to_owned(), parameters }
    }

    /// The JSON text of this command (see [`command_json`]).
    pub fn to_json(&self) -> (r: Result<String, MessageError>)
        ensures
            r matches Ok(t) && t@ == command_json(self.method@, texts(self.parameters@)),
    {
        let method = match json_quote(self.method.as_str()) {
            Ok(q) => q,
            Err(_) => return Err(MessageError::Encoding),
        };
        let mut out = String::new();
        push_char(&mut out, '{');
        push_char(&mut out, '"');
        push_char(&mut out, 'm');
        push_char(&mut out, '"');
        push_char(&mut out, ':');
        let mc = chars_of(method.as_str());
        push_chars(&mut out, mc.as_slice());
        push_char(&mut out, ',');
        push_char(&mut out, '"');
        push_char(&mut out, 'p');
        push_char(&mut out, '"');
        push_char(&mut out, ':');
        push_char(&mut out, '[');
        let ghost head = out@;
        assert(head =~= seq!['{', '"', 'm', '"', ':'] + json_string_literal(self.method@)
            + seq![',', '"', 'p', '"', ':', '[']);
        let ghost ps = texts(self.parameters@);
        let mut i: usize = 0;
        while i < self.parameters.len()
            invariant
                i <= self.parameters@.len(),
                ps == texts(self.parameters@),
                out@ == head + join_with_commas(quoted_all(ps.subrange(0, i as int))),
            decreases self.parameters@.len() - i,
        {
            let q = match json_quote(self.parameters[i].as_str()) {
                Ok(q) => q,
                Err(_) => return Err(MessageError::Encoding),
            };
            proof {
                let a = quoted_all(ps.subrange(0, i + 1));
                assert(a.drop_last() =~= quoted_all(ps.subrange(0, i as int)));
                assert(a.last() == q@);
            }
            if i > 0 {
                push_char(&mut out, ',');
            }
            let qc = chars_of(q.as_str());
            push_chars(&mut out, qc.as_slice());
            proof {
                let a = quoted_all(ps.subrange(0, i + 1));
                if i == 0 {
                    assert(join_with_commas(quoted_all(ps.subrange(0, 0))) =~= Seq::<char>::empty());
                    assert(out@ =~= head + join_with_commas(a));
                } else {
                    assert(out@ =~= head + join_with_commas(a));
                }
            }
            i = i + 1;
        }
        push_char(&mut out, ']');
        push_char(&mut out, '}');
        proof {
            assert(ps.subrange(0, ps.len() as int) =~= ps);
            assert(out@ =~= command_json(self.method@, ps));
        }
        Ok(out)
    }
}

impl ToWSMessage for Command {
    fn to_ws_message(&self) -> (r: Result<String, MessageError>)
        ensures
            r matches Ok(t) && t@ == frame(command_json(self.method@, texts(self.parameters@))),
    {
        let json = self.to_json()?;
        proof {
            let j = json@;
            assert(j[0] == '{');
            if starts_with_marker(j) {
                assert(j.subrange(0, 3)[0] == j[0]);
            }
        }
        Ok(frame_text(json.as_str()))
    }
}

} // verus!
