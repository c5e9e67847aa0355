//! Wire encoding of the protocol messages: the exact JSON text carried on the
//! control channel. The encoding is specified character by character (`Seq<char>`)
//! so that the encoder and the parser can be held to it: one canonical form,
//! no whitespace, object keys in declaration order, strings escaped as below.

use vstd::prelude::*;

use crate::messages::AgentResponse;
use crate::messages::AgentResponseView;
use crate::messages::ControllerRequest;
use crate::messages::ControllerRequestPayload;
use crate::messages::ControllerRequestView;
use crate::messages::FileOperation;
use crate::messages::RequestPayloadView;
use crate::messages::ResponsePayloadView;

verus! {

// ---------------------------------------------------------------------------
// Characters and digits
// ---------------------------------------------------------------------------

/// `c` is a decimal digit `0..=9`.
pub open spec fn is_dec_digit(c: char) -> bool {
    48 <= c as u32 <= 57
}

/// The character for the decimal digit `d` (`0 <= d <= 9`).
pub open spec fn digit_char(d: int) -> char {
    ((48 + d) as u8) as char
}

/// The numeric value of a decimal digit character.
pub open spec fn digit_val(c: char) -> int {
    c as u32 - 48
}

/// The lowercase hexadecimal character for `d` (`0 <= d <= 15`).
pub open spec fn hex_char(d: int) -> char {
    if d < 10 {
        digit_char(d)
    } else {
        ((87 + d) as u8) as char
    }
}

/// `c` is a lowercase hexadecimal digit.
pub open spec fn is_lower_hex(c: char) -> bool {
    is_dec_digit(c) || 97 <= c as u32 <= 102
}

/// The numeric value of a lowercase hexadecimal digit character.
pub open spec fn hex_val(c: char) -> int {
    if is_dec_digit(c) {
        digit_val(c)
    } else {
        c as u32 - 87
    }
}

/// Characters with the same code point are the same character.
pub proof fn lemma_char_eq_code(c: char, d: char)
    requires
        c as u32 == d as u32,
    ensures
        c == d,
{
}

/// A digit character round-trips through its value, and is `'0'` exactly
/// when its value is zero.
pub proof fn lemma_digit_char_val(c: char)
    requires
        is_dec_digit(c),
    ensures
        0 <= digit_val(c) <= 9,
        digit_char(digit_val(c)) == c,
        c != '0' ==> digit_val(c) >= 1,
        c == '0' ==> digit_val(c) == 0,
{
    assert(((c as u32) as u8) as char == c);
    if c as u32 == 48 {
        assert(((c as u32) as u8) as char == ((48u32) as u8) as char);
        assert((48u32 as u8) as char as u32 == 48);
        assert('0' as u32 == 48);
        assert((48u32 as u8) as char == '0');
        assert(c == '0');
    }
}

/// A digit value round-trips through its character, which is `'0'` exactly
/// for the value zero.
pub proof fn lemma_digit_char_of(d: int)
    requires
        0 <= d <= 9,
    ensures
        is_dec_digit(digit_char(d)),
        digit_val(digit_char(d)) == d,
        digit_char(d) == '0' <==> d == 0,
{
    assert(digit_char(d) as u32 == 48 + d);
    assert('0' as u32 == 48);
    if d == 0 {
        assert((48u32 as u8) as char as u32 == 48);
        assert((48u32 as u8) as char == '0');
    }
}

/// A hexadecimal value round-trips through its character.
pub proof fn lemma_hex_char_of(d: int)
    requires
        0 <= d <= 15,
    ensures
        is_lower_hex(hex_char(d)),
        hex_val(hex_char(d)) == d,
{
    if d < 10 {
        assert(hex_char(d) as u32 == 48 + d);
    } else {
        assert(hex_char(d) as u32 == 87 + d);
    }
}

/// A lowercase hexadecimal character round-trips through its value.
pub proof fn lemma_hex_char_val(c: char)
    requires
        is_lower_hex(c),
    ensures
        0 <= hex_val(c) <= 15,
        hex_char(hex_val(c)) == c,
{
    assert(((c as u32) as u8) as char == c);
}

/// The canonical decimal digit string of `n`: no sign, no leading zeros
/// (`0` itself is the single character `0`).
pub open spec fn dec_digits(n: nat) -> Seq<char>
    decreases n,
{
    if n < 10 {
        seq![digit_char(n as int)]
    } else {
        dec_digits(n / 10).push(digit_char((n % 10) as int))
    }
}

/// The decimal digit string of a signed 32-bit value: a minus sign for
/// negative values, then the digits of the magnitude.
pub open spec fn i32_chars(code: i32) -> Seq<char> {
    if code >= 0 {
        dec_digits(code as nat)
    } else {
        seq!['-'] + dec_digits((-(code as int)) as nat)
    }
}

/// The JSON spelling of a boolean.
pub open spec fn bool_chars(b: bool) -> Seq<char> {
    if b {
        "true"@
    } else {
        "false"@
    }
}

// ---------------------------------------------------------------------------
// Strings
// ---------------------------------------------------------------------------

/// How one character appears inside a JSON string: quote and backslash get a
/// backslash escape, the three common control characters get their short
/// escapes, every other control character a `\u00..` escape with lowercase
/// hexadecimal digits, and everything else stands for itself.
pub open spec fn escape_char(c: char) -> Seq<char> {
    if c == '"' {
        seq!['\\', '"']
    } else if c == '\\' {
        seq!['\\', '\\']
    } else if c == '\n' {
        seq!['\\', 'n']
    } else if c == '\r' {
        seq!['\\', 'r']
    } else if c == '\t' {
        seq!['\\', 't']
    } else if (c as u32) < 32 {
        seq!['\\', 'u', '0', '0', hex_char(c as u32 as int / 16), hex_char(c as u32 as int % 16)]
    } else {
        seq![c]
    }
}

/// The body of a JSON string: each character escaped, in order.
pub open spec fn escape_seq(t: Seq<char>) -> Seq<char>
    decreases t.len(),
{
    if t.len() == 0 {
        Seq::empty()
    } else {
        escape_char(t[0]) + escape_seq(t.drop_first())
    }
}

/// A complete JSON string: the escaped body between double quotes.
pub open spec fn json_string(t: Seq<char>) -> Seq<char> {
    seq!['"'] + escape_seq(t) + seq!['"']
}

/// Escaping distributes over concatenation.
pub proof fn lemma_escape_seq_app(a: Seq<char>, b: Seq<char>)
    ensures
        escape_seq(a + b) == escape_seq(a) + escape_seq(b),
    decreases a.len(),
{
    if a.len() == 0 {
        assert(a + b =~= b);
        assert(escape_seq(a) + escape_seq(b) =~= escape_seq(b));
    } else {
        assert((a + b).drop_first() =~= a.drop_first() + b);
        lemma_escape_seq_app(a.drop_first(), b);
        assert(escape_char((a + b)[0]) + (escape_seq(a.drop_first()) + escape_seq(b)) =~= (
        escape_char(a[0]) + escape_seq(a.drop_first())) + escape_seq(b));
    }
}

// ---------------------------------------------------------------------------
// Message encodings
// ---------------------------------------------------------------------------

/// The JSON spelling of a file-operation direction.
pub open spec fn operation_json(op: FileOperation) -> Seq<char> {
    match op {
        FileOperation::Download => "\"Download\""@,
        FileOperation::Upload => "\"Upload\""@,
    }
}

/// The JSON encoding of a request payload, tagged with its variant name.
pub open spec fn request_payload_json(p: RequestPayloadView) -> Seq<char> {
    match p {
        RequestPayloadView::Command { command } => "{\"CommandExecutionRequest\":{\"command\":"@
            + json_string(command) + "}}"@,
        RequestPayloadView::FileOp { url, path, operation } => "{\"FileOperationRequest\":{\"url\":"@
            + json_string(url) + ",\"path\":"@ + json_string(path) + ",\"operation\":"@
            + operation_json(operation) + "}}"@,
    }
}

/// The JSON encoding of a controller request.
pub open spec fn request_json(r: ControllerRequestView) -> Seq<char> {
    "{\"version\":"@ + dec_digits(r.version as nat) + ",\"id\":"@ + dec_digits(r.id as nat)
        + ",\"payload\":"@ + request_payload_json(r.payload) + "}"@
}

/// The JSON encoding of a response payload, tagged with its variant name.
pub open spec fn response_payload_json(p: ResponsePayloadView) -> Seq<char> {
    match p {
        ResponsePayloadView::Empty => "\"None\""@,
        ResponsePayloadView::Command { code, stdout, stderr } => {
            "{\"CommandExecutionResponse\":{\"code\":"@ + i32_chars(code) + ",\"stdout\":"@
                + json_string(stdout) + ",\"stderr\":"@ + json_string(stderr) + "}}"@
        },
        ResponsePayloadView::FileOp { success } => "{\"FileOperationResponse\":{\"success\":"@
            + bool_chars(success) + "}}"@,
    }
}

/// The JSON encoding of an agent response.
pub open spec fn response_json(r: AgentResponseView) -> Seq<char> {
    "{\"id\":"@ + dec_digits(r.id as nat) + ",\"ok\":"@ + bool_chars(r.ok) + ",\"payload\":"@
        + response_payload_json(r.payload) + "}"@
}

// ---------------------------------------------------------------------------
// Executable building blocks
// ---------------------------------------------------------------------------

/// Relies on `str::chars` and `Iterator::collect`: the characters of a
/// string, in order, are exactly its view.
#[verifier::external_body]
pub(crate) fn chars_of(s: &str) -> (r: Vec<char>)
    ensures
        r@ == s@,
{
    s.chars().collect()
}

/// Relies on `String`'s `FromIterator<char>`: collecting characters yields
/// the string whose view is that character sequence.
#[verifier::external_body]
pub(crate) fn string_from_chars(v: Vec<char>) -> (r: String)
    ensures
        r@ == v@,
{
    v.into_iter().collect()
}

/// Append every character of `s` to `out`.
pub(crate) fn append_str(out: &mut Vec<char>, s: &str)
    ensures
        final(out)@ == old(out)@ + s@,
{
    let mut cs = chars_of(s);
    out.append(&mut cs);
}

/// Append the canonical decimal digits of `n` to `out`.
pub(crate) fn push_dec_u64(out: &mut Vec<char>, n: u64)
    ensures
        final(out)@ == old(out)@ + dec_digits(n as nat),
    decreases n,
{
    if n >= 10 {
        push_dec_u64(out, n / 10);
    }
    let d: u8 = (n % 10) as u8;
    out.push((48 + d) as char);
    proof {
        assert((48 + d) as char == digit_char((n % 10) as int));
        if n < 10 {
            assert(old(out)@ + dec_digits(n as nat) =~= old(out)@.push(digit_char(n as int)));
        }
    }
}

/// Append the decimal form of a signed 32-bit value to `out`.
pub(crate) fn push_dec_i32(out: &mut Vec<char>, code: i32)
    ensures
        final(out)@ == old(out)@ + i32_chars(code),
{
    if code >= 0 {
        push_dec_u64(out, code as u64);
    } else {
        out.push('-');
        let m: u64 = (-(code as i64)) as u64;
        push_dec_u64(out, m);
        proof {
            assert(out@ =~= old(out)@ + (seq!['-'] + dec_digits(m as nat)));
        }
    }
}

/// Append the JSON spelling of a boolean to `out`.
pub(crate) fn push_bool(out: &mut Vec<char>, b: bool)
    ensures
        final(out)@ == old(out)@ + bool_chars(b),
{
    if b {
        append_str(out, "true");
    } else {
        append_str(out, "false");
    }
}

/// Escaping a single character yields exactly its escape form.
pub proof fn lemma_escape_seq_one(c: char)
    ensures
        escape_seq(seq![c]) == escape_char(c),
{
    assert(seq![c].drop_first() =~= Seq::<char>::empty());
    assert(escape_seq(seq![c]) == escape_char(c) + escape_seq(seq![c].drop_first()));
    assert(escape_char(c) + Seq::<char>::empty() =~= escape_char(c));
}

/// Append the escape form of one character to `out`.
pub(crate) fn push_escape_char(out: &mut Vec<char>, c: char)
    ensures
        final(out)@ == old(out)@ + escape_char(c),
{
    let cu = c as u32;
    if c == '"' {
        out.push('\\');
        out.push('"');
    } else if c == '\\' {
        out.push('\\');
        out.push('\\');
    } else if c == '\n' {
        out.push('\\');
        out.push('n');
    } else if c == '\r' {
        out.push('\\');
        out.push('r');
    } else if c == '\t' {
        out.push('\\');
        out.push('t');
    } else if cu < 32 {
        out.push('\\');
        out.push('u');
        out.push('0');
        out.push('0');
        let hi: u8 = (cu / 16) as u8;
        let lo: u8 = (cu % 16) as u8;
        out.push(if hi < 10 { (48 + hi) as char } else { (87 + hi) as char });
        out.push(if lo < 10 { (48 + lo) as char } else { (87 + lo) as char });
    } else {
        out.push(c);
    }
    proof {
        assert(out@ =~= old(out)@ + escape_char(c));
    }
}

/// Append the complete JSON string encoding of `s` to `out`.
pub(crate) fn push_json_string(out: &mut Vec<char>, s: &str)
    ensures
        final(out)@ == old(out)@ + json_string(s@),
{
    let cs = chars_of(s);
    out.push('"');
    let ghost base = old(out)@ + seq!['"'];
    let mut k: usize = 0;
    while k < cs.len()
        invariant
            k <= cs.len(),
            cs@ == s@,
            out@ == base + escape_seq(cs@.take(k as int)),
        decreases cs.len() - k,
    {
        let c = cs[k];
        push_escape_char(out, c);
        proof {
            lemma_escape_seq_app(cs@.take(k as int), seq![c]);
            lemma_escape_seq_one(c);
            assert(cs@.take(k as int) + seq![c] =~= cs@.take(k + 1));
            assert(out@ =~= base + escape_seq(cs@.take(k + 1)));
        }
        k = k + 1;
    }
    out.push('"');
    proof {
        assert(cs@.take(cs@.len() as int) =~= cs@);
        assert(out@ =~= old(out)@ + json_string(s@));
    }
}

// ---------------------------------------------------------------------------
// Message encoders
// ---------------------------------------------------------------------------

/// Encode a response as the JSON text frame that answers a request.
pub fn encode_response(r: &AgentResponse) -> (out: String)
    ensures
        out@ == response_json(r@),
{
    let mut v: Vec<char> = Vec::new();
    append_str(&mut v, "{\"id\":");
    push_dec_u64(&mut v, r.id);
    append_str(&mut v, ",\"ok\":");
    push_bool(&mut v, r.ok);
    append_str(&mut v, ",\"payload\":");
    match &r.payload {
        crate::messages::AgentResponsePayload::Empty => {
            append_str(&mut v, "\"None\"");
        },
        crate::messages::AgentResponsePayload::CommandExecutionResponse(c) => {
            append_str(&mut v, "{\"CommandExecutionResponse\":{\"code\":");
            push_dec_i32(&mut v, c.code);
            append_str(&mut v, ",\"stdout\":");
            push_json_string(&mut v, c.stdout.as_str());
            append_str(&mut v, ",\"stderr\":");
            push_json_string(&mut v, c.stderr.as_str());
            append_str(&mut v, "}}");
        },
        crate::messages::AgentResponsePayload::FileOperationResponse(f) => {
            append_str(&mut v, "{\"FileOperationResponse\":{\"success\":");
            push_bool(&mut v, f.success);
            append_str(&mut v, "}}");
        },
    }
    append_str(&mut v, "}");
    proof {
        assert(v@ =~= response_json(r@));
    }
    string_from_chars(v)
}

/// Encode a controller request as its JSON text frame, the form the parser
/// accepts; a controller-side encoder and the round-trip witness.
pub fn encode_request(r: &ControllerRequest) -> (out: String)
    ensures
        out@ == request_json(r@),
{
    let mut v: Vec<char> = Vec::new();
    append_str(&mut v, "{\"version\":");
    push_dec_u64(&mut v, r.version as u64);
    append_str(&mut v, ",\"id\":");
    push_dec_u64(&mut v, r.id);
    append_str(&mut v, ",\"payload\":");
    match &r.payload {
        ControllerRequestPayload::CommandExecutionRequest(c) => {
            append_str(&mut v, "{\"CommandExecutionRequest\":{\"command\":");
            push_json_string(&mut v, c.command.as_str());
            append_str(&mut v, "}}");
        },
        ControllerRequestPayload::FileOperationRequest(f) => {
            append_str(&mut v, "{\"FileOperationRequest\":{\"url\":");
            push_json_string(&mut v, f.url.as_str());
            append_str(&mut v, ",\"path\":");
            push_json_string(&mut v, f.path.as_str());
            append_str(&mut v, ",\"operation\":");
            match f.operation {
                FileOperation::Download => append_str(&mut v, "\"Download\""),
                FileOperation::Upload => append_str(&mut v, "\"Upload\""),
            }
            append_str(&mut v, "}}");
        },
    }
    append_str(&mut v, "}");
    proof {
        assert(v@ =~= request_json(r@));
    }
    string_from_chars(v)
}

} // verus!
