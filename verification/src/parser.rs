//! Parsing of inbound JSON text frames, held to the exact encoding defined in
//! `codec`: a frame parses to a request if and only if it is the canonical
//! encoding of that request. The grammar is specified by total spec functions;
//! the executable parser refines them, and the lemmas here tie them back to
//! the encoding, so the parser's public contract speaks only of `request_json`.

use vstd::prelude::*;

use crate::codec::dec_digits;
use crate::codec::digit_char;
use crate::codec::digit_val;
use crate::codec::escape_char;
use crate::codec::escape_seq;
use crate::codec::hex_char;
use crate::codec::hex_val;
use crate::codec::is_dec_digit;
use crate::codec::is_lower_hex;
use crate::codec::json_string;
use crate::codec::lemma_char_eq_code;
use crate::codec::lemma_digit_char_of;
use crate::codec::lemma_digit_char_val;
use crate::codec::lemma_hex_char_of;
use crate::codec::lemma_hex_char_val;
use crate::codec::operation_json;
use crate::codec::request_json;
use crate::codec::request_payload_json;
use crate::codec::chars_of;
use crate::codec::string_from_chars;
use crate::messages::CommandExecutionRequest;
use crate::messages::ControllerRequest;
use crate::messages::ControllerRequestPayload;
use crate::messages::ControllerRequestView;
use crate::messages::FileOperation;
use crate::messages::FileOperationRequest;
use crate::messages::RequestPayloadView;

verus! {

/// The literal `lit` occurs in `s` at position `i`.
pub open spec fn lit_at(s: Seq<char>, i: int, lit: Seq<char>) -> bool {
    0 <= i && i + lit.len() <= s.len() && s.subrange(i, i + lit.len()) == lit
}

/// The end of the run of decimal digits starting at `i`.
pub open spec fn spec_scan_end(s: Seq<char>, i: int) -> int
    decreases s.len() - i,
{
    if 0 <= i < s.len() && is_dec_digit(s[i]) {
        spec_scan_end(s, i + 1)
    } else {
        i
    }
}

/// The value of a digit string read left to right, `None` on overflow past
/// `u64::MAX`.
pub open spec fn seq_digits_val(d: Seq<char>) -> Option<u64>
    decreases d.len(),
{
    if d.len() == 0 {
        Some(0u64)
    } else {
        match seq_digits_val(d.drop_last()) {
            Option::None => Option::<u64>::None,
            Option::Some(v) => {
                let dv = digit_val(d.last());
                if v * 10 + dv <= u64::MAX {
                    Some(((v * 10 + dv) as u64))
                } else {
                    Option::<u64>::None
                }
            },
        }
    }
}

/// Parse the canonical decimal number starting at `i`: the whole digit run,
/// rejecting an empty run, a leading zero, and overflow.
pub open spec fn spec_parse_u64(s: Seq<char>, i: int) -> Option<(u64, int)> {
    let j = spec_scan_end(s, i);
    if j == i {
        Option::<(u64, int)>::None
    } else if s[i] == '0' && j > i + 1 {
        Option::<(u64, int)>::None
    } else {
        match seq_digits_val(s.subrange(i, j)) {
            Option::None => Option::<(u64, int)>::None,
            Option::Some(n) => Some((n, j)),
        }
    }
}

// ---------------------------------------------------------------------------
// Digit lemmas
// ---------------------------------------------------------------------------

/// Digit characters carry their value and `dec_digits` is made of them,
/// starting with a nonzero digit unless the value is zero.
pub proof fn lemma_dec_digits_shape(n: nat)
    ensures
        dec_digits(n).len() >= 1,
        forall|k: int| 0 <= k < dec_digits(n).len() ==> is_dec_digit(#[trigger] dec_digits(n)[k]),
        n > 0 ==> dec_digits(n)[0] != '0',
        n < 10 ==> dec_digits(n).len() == 1,
    decreases n,
{
    if n < 10 {
        lemma_digit_char_of(n as int);
    } else {
        lemma_dec_digits_shape(n / 10);
        lemma_digit_char_of((n % 10) as int);
        assert(dec_digits(n)[0] == dec_digits(n / 10)[0]);
    }
}

/// Reading back the canonical digits of `n` yields `n`.
pub proof fn lemma_val_dec_digits(n: nat)
    requires
        n <= u64::MAX,
    ensures
        seq_digits_val(dec_digits(n)) == Some(n as u64),
    decreases n,
{
    if n < 10 {
        let d = dec_digits(n);
        assert(d == seq![digit_char(n as int)]);
        assert(d.len() == 1);
        assert(d.drop_last() =~= Seq::<char>::empty());
        assert(seq_digits_val(d.drop_last()) == Some(0u64));
        assert(d.last() == digit_char(n as int));
        lemma_digit_char_of(n as int);
        assert(digit_val(d.last()) == n);
        assert(seq_digits_val(d) == Some(((0 * 10 + n as int) as u64)));
    } else {
        lemma_val_dec_digits(n / 10);
        assert(dec_digits(n).drop_last() =~= dec_digits(n / 10));
        assert(dec_digits(n).last() == digit_char((n % 10) as int));
        lemma_digit_char_of((n % 10) as int);
        let v = (n / 10) as u64;
        let dv = (n % 10) as int;
        assert(v * 10 + dv == n) by {
            vstd::arithmetic::div_mod::lemma_fundamental_div_mod(n as int, 10);
        }
        assert(v * 10 + dv <= u64::MAX);
    }
}

/// A nonempty all-digit string with no leading zero whose value reads back as
/// `n` is exactly the canonical digits of `n`.
pub proof fn lemma_dec_digits_of_val(d: Seq<char>, n: u64)
    requires
        d.len() >= 1,
        forall|k: int| 0 <= k < d.len() ==> is_dec_digit(#[trigger] d[k]),
        d[0] != '0' || d.len() == 1,
        seq_digits_val(d) == Some(n),
    ensures
        d == dec_digits(n as nat),
    decreases d.len(),
{
    if d.len() == 1 {
        assert(d.drop_last() =~= Seq::<char>::empty());
        let c = d[0];
        assert(is_dec_digit(c));
        lemma_digit_char_val(c);
        assert(n == digit_val(c));
        assert(d =~= dec_digits(n as nat));
    } else {
        let front = d.drop_last();
        let c = d.last();
        assert(is_dec_digit(d[d.len() - 1]));
        lemma_digit_char_val(c);
        let v = seq_digits_val(front)->Some_0;
        assert(seq_digits_val(front) is Some);
        assert(n == v * 10 + digit_val(c));
        assert(forall|k: int| 0 <= k < front.len() ==> is_dec_digit(#[trigger] front[k]));
        assert(front[0] == d[0]);
        lemma_seq_digits_val_nonzero(front);
        assert(v >= 1);
        lemma_dec_digits_of_val(front, v);
        assert(n >= 10) by {
            assert(v * 10 >= 10) by (nonlinear_arith)
                requires
                    v >= 1,
            ;
        }
        assert(n / 10 == v && n % 10 == digit_val(c)) by {
            vstd::arithmetic::div_mod::lemma_fundamental_div_mod_converse(
                n as int,
                10,
                v as int,
                digit_val(c),
            );
        }
        assert(dec_digits(n as nat) == dec_digits(v as nat).push(c));
        assert(d =~= dec_digits(v as nat).push(c));
    }
}

/// A nonempty all-digit string whose first digit is not `0` does not read
/// back as zero.
pub proof fn lemma_seq_digits_val_nonzero(d: Seq<char>)
    requires
        d.len() >= 1,
        forall|k: int| 0 <= k < d.len() ==> is_dec_digit(#[trigger] d[k]),
        d[0] != '0',
        seq_digits_val(d) is Some,
    ensures
        seq_digits_val(d)->Some_0 >= 1,
    decreases d.len(),
{
    if d.len() == 1 {
        assert(is_dec_digit(d[0]));
        lemma_digit_char_val(d[0]);
        assert(digit_val(d[0]) >= 1);
    } else {
        let front = d.drop_last();
        assert(front[0] == d[0]);
        lemma_seq_digits_val_nonzero(front);
        let v = seq_digits_val(front)->Some_0;
        assert(v * 10 >= 10) by (nonlinear_arith)
            requires
                v >= 1,
        ;
    }
}

/// Where the digit run from `i` ends: exactly at the first non-digit.
pub proof fn lemma_scan_end_bounds(s: Seq<char>, i: int)
    requires
        0 <= i <= s.len(),
    ensures
        i <= spec_scan_end(s, i) <= s.len(),
        forall|k: int| i <= k < spec_scan_end(s, i) ==> is_dec_digit(#[trigger] s[k]),
        spec_scan_end(s, i) < s.len() ==> !is_dec_digit(s[spec_scan_end(s, i)]),
    decreases s.len() - i,
{
    if i < s.len() && is_dec_digit(s[i]) {
        lemma_scan_end_bounds(s, i + 1);
    }
}

/// A digit run that provably ends at `j` is where the scan ends.
pub proof fn lemma_scan_end_exact(s: Seq<char>, i: int, j: int)
    requires
        0 <= i <= j <= s.len(),
        forall|k: int| i <= k < j ==> is_dec_digit(#[trigger] s[k]),
        j == s.len() || !is_dec_digit(s[j]),
    ensures
        spec_scan_end(s, i) == j,
    decreases j - i,
{
    if i < j {
        lemma_scan_end_exact(s, i + 1, j);
    }
}

/// Prepend a decoded character to the result of parsing the rest of a
/// string body.
pub open spec fn strbody_cons(c: char, r: Option<(Seq<char>, int)>) -> Option<(Seq<char>, int)> {
    match r {
        Option::None => Option::<(Seq<char>, int)>::None,
        Option::Some((t, j)) => Some((seq![c] + t, j)),
    }
}

/// Parse a JSON string body starting at `i` (after the opening quote), up to
/// and including the closing quote: raw characters stand for themselves,
/// escapes decode as in `escape_char`, and anything outside the canonical
/// encoding is rejected.
pub open spec fn spec_parse_strbody(s: Seq<char>, i: int) -> Option<(Seq<char>, int)>
    decreases s.len() - i,
{
    if !(0 <= i < s.len()) {
        Option::<(Seq<char>, int)>::None
    } else {
        let c = s[i];
        if c == '"' {
            Some((Seq::<char>::empty(), i + 1))
        } else if c == '\\' {
            if i + 1 >= s.len() {
                Option::<(Seq<char>, int)>::None
            } else {
                let e = s[i + 1];
                if e == '"' {
                    strbody_cons('"', spec_parse_strbody(s, i + 2))
                } else if e == '\\' {
                    strbody_cons('\\', spec_parse_strbody(s, i + 2))
                } else if e == 'n' {
                    strbody_cons('\n', spec_parse_strbody(s, i + 2))
                } else if e == 'r' {
                    strbody_cons('\r', spec_parse_strbody(s, i + 2))
                } else if e == 't' {
                    strbody_cons('\t', spec_parse_strbody(s, i + 2))
                } else if e == 'u' {
                    if i + 6 <= s.len() && s[i + 2] == '0' && s[i + 3] == '0' && is_lower_hex(
                        s[i + 4],
                    ) && is_lower_hex(s[i + 5]) {
                        let v = hex_val(s[i + 4]) * 16 + hex_val(s[i + 5]);
                        if v < 32 && v != 9 && v != 10 && v != 13 {
                            strbody_cons(((v as u8) as char), spec_parse_strbody(s, i + 6))
                        } else {
                            Option::<(Seq<char>, int)>::None
                        }
                    } else {
                        Option::<(Seq<char>, int)>::None
                    }
                } else {
                    Option::<(Seq<char>, int)>::None
                }
            }
        } else if c as u32 >= 32 {
            strbody_cons(c, spec_parse_strbody(s, i + 1))
        } else {
            Option::<(Seq<char>, int)>::None
        }
    }
}

/// Parse a complete JSON string starting at `i`: an opening quote, then the
/// body up to the closing quote.
pub open spec fn spec_parse_string(s: Seq<char>, i: int) -> Option<(Seq<char>, int)> {
    if 0 <= i < s.len() && s[i] == '"' {
        spec_parse_strbody(s, i + 1)
    } else {
        Option::<(Seq<char>, int)>::None
    }
}

/// Soundness of string-body parsing: on success the consumed characters are
/// the escaped form of the result followed by the closing quote.
pub proof fn lemma_strbody_sound(s: Seq<char>, i: int)
    requires
        0 <= i <= s.len(),
        spec_parse_strbody(s, i) is Some,
    ensures
        ({
            let (t, j) = spec_parse_strbody(s, i)->Some_0;
            &&& i < j <= s.len()
            &&& s.subrange(i, j) == escape_seq(t) + seq!['"']
        }),
    decreases s.len() - i,
{
    let c = s[i];
    let (t, j) = spec_parse_strbody(s, i)->Some_0;
    if c == '"' {
        assert(s.subrange(i, i + 1) =~= seq!['"']);
        assert(escape_seq(t) + seq!['"'] =~= seq!['"']);
    } else if c == '\\' {
        let e = s[i + 1];
        if e == '"' || e == '\\' || e == 'n' || e == 'r' || e == 't' {
            let dc: char = if e == '"' {
                '"'
            } else if e == '\\' {
                '\\'
            } else if e == 'n' {
                '\n'
            } else if e == 'r' {
                '\r'
            } else {
                '\t'
            };
            lemma_strbody_sound(s, i + 2);
            let (t2, j2) = spec_parse_strbody(s, i + 2)->Some_0;
            assert(t == seq![dc] + t2 && j == j2);
            assert(t[0] == dc);
            assert(t.drop_first() =~= t2);
            assert(escape_char(dc) =~= seq!['\\', e]);
            assert(s.subrange(i, i + 2) =~= seq!['\\', e]);
            assert(s.subrange(i, j) =~= s.subrange(i, i + 2) + s.subrange(i + 2, j));
            assert(escape_seq(t) + seq!['"'] =~= escape_char(dc) + (escape_seq(t2) + seq!['"']));
            assert(s.subrange(i, j) =~= escape_seq(t) + seq!['"']);
        } else {
            assert(e == 'u');
            let h1 = s[i + 4];
            let h0 = s[i + 5];
            let v = hex_val(h1) * 16 + hex_val(h0);
            lemma_hex_char_val(h1);
            lemma_hex_char_val(h0);
            let dc = (v as u8) as char;
            assert(dc as u32 == v);
            if dc == '"' {
                assert('"' as u32 == 34);
                assert(false);
            }
            if dc == '\\' {
                assert('\\' as u32 == 92);
                assert(false);
            }
            if dc == '\n' {
                assert(false);
            }
            if dc == '\r' {
                assert(false);
            }
            if dc == '\t' {
                assert(false);
            }
            lemma_strbody_sound(s, i + 6);
            let (t2, j2) = spec_parse_strbody(s, i + 6)->Some_0;
            assert(t == seq![dc] + t2 && j == j2);
            assert(t[0] == dc);
            assert(t.drop_first() =~= t2);
            assert(v / 16 == hex_val(h1) && v % 16 == hex_val(h0)) by {
                vstd::arithmetic::div_mod::lemma_fundamental_div_mod_converse(
                    v,
                    16,
                    hex_val(h1),
                    hex_val(h0),
                );
            }
            assert(escape_char(dc) =~= seq!['\\', 'u', '0', '0', h1, h0]);
            assert(s.subrange(i, i + 6) =~= seq!['\\', 'u', '0', '0', h1, h0]);
            assert(s.subrange(i, j) =~= s.subrange(i, i + 6) + s.subrange(i + 6, j));
            assert(escape_seq(t) + seq!['"'] =~= escape_char(dc) + (escape_seq(t2) + seq!['"']));
            assert(s.subrange(i, j) =~= escape_seq(t) + seq!['"']);
        }
    } else {
        assert(c as u32 >= 32);
        lemma_strbody_sound(s, i + 1);
        let (t2, j2) = spec_parse_strbody(s, i + 1)->Some_0;
        assert(t == seq![c] + t2 && j == j2);
        assert(t[0] == c);
        assert(t.drop_first() =~= t2);
        assert(escape_char(c) =~= seq![c]);
        assert(s.subrange(i, i + 1) =~= seq![c]);
        assert(s.subrange(i, j) =~= s.subrange(i, i + 1) + s.subrange(i + 1, j));
        assert(escape_seq(t) + seq!['"'] =~= escape_char(c) + (escape_seq(t2) + seq!['"']));
        assert(s.subrange(i, j) =~= escape_seq(t) + seq!['"']);
    }
}

/// Completeness of string-body parsing: where the input carries the escaped
/// form of `t` and its closing quote, parsing succeeds with exactly `t`.
pub proof fn lemma_strbody_complete(s: Seq<char>, i: int, t: Seq<char>)
    requires
        0 <= i,
        i + escape_seq(t).len() + 1 <= s.len(),
        s.subrange(i, i + escape_seq(t).len() + 1) == escape_seq(t) + seq!['"'],
    ensures
        spec_parse_strbody(s, i) == Some((t, i + escape_seq(t).len() + 1)),
    decreases t.len(),
{
    let e_len = escape_seq(t).len() as int;
    let sub = s.subrange(i, i + e_len + 1);
    if t.len() == 0 {
        assert(s[i] == sub[0]);
        assert(s[i] == '"');
        assert(spec_parse_strbody(s, i) == Some((Seq::<char>::empty(), i + 1)));
        assert(t =~= Seq::<char>::empty());
    } else {
        let c = t[0];
        let t2 = t.drop_first();
        assert(escape_seq(t) == escape_char(c) + escape_seq(t2));
        let cl = escape_char(c).len() as int;
        assert forall|m: int| 0 <= m < cl implies s[i + m] == escape_char(c)[m] by {
            assert(s[i + m] == sub[m]);
            assert(sub[m] == escape_seq(t)[m]);
        }
        assert(s.subrange(i + cl, i + cl + escape_seq(t2).len() + 1) =~= escape_seq(t2)
            + seq!['"']) by {
            assert forall|m: int| 0 <= m < escape_seq(t2).len() + 1 implies s.subrange(
                i + cl,
                i + cl + escape_seq(t2).len() + 1,
            )[m] == (escape_seq(t2) + seq!['"'])[m] by {
                assert(s.subrange(i + cl, i + cl + escape_seq(t2).len() + 1)[m] == sub[cl + m]);
                assert(sub[cl + m] == (escape_seq(t) + seq!['"'])[cl + m]);
            }
        }
        lemma_strbody_complete(s, i + cl, t2);
        let cu = c as u32;
        if c == '"' {
            assert(escape_char(c) =~= seq!['\\', '"']);
            assert(s[i] == '\\' && s[i + 1] == '"');
            if s[i] == '"' {
                assert('"' as u32 == 34 && '\\' as u32 == 92);
                assert(false);
            }
            assert(seq![c] + t2 =~= t);
        } else if c == '\\' {
            assert(escape_char(c) =~= seq!['\\', '\\']);
            assert(s[i] == '\\' && s[i + 1] == '\\');
            if s[i] == '"' {
                assert(false);
            }
            if s[i + 1] == '"' {
                assert('"' as u32 == 34 && '\\' as u32 == 92);
                assert(false);
            }
            assert(seq![c] + t2 =~= t);
        } else if c == '\n' {
            assert(escape_char(c) =~= seq!['\\', 'n']);
            assert(s[i] == '\\' && s[i + 1] == 'n');
            if s[i] == '"' {
                assert(false);
            }
            if s[i + 1] == '"' || s[i + 1] == '\\' {
                assert('n' as u32 == 110);
                assert(false);
            }
            assert(seq![c] + t2 =~= t);
        } else if c == '\r' {
            assert(escape_char(c) =~= seq!['\\', 'r']);
            assert(s[i] == '\\' && s[i + 1] == 'r');
            if s[i] == '"' {
                assert(false);
            }
            if s[i + 1] == '"' || s[i + 1] == '\\' || s[i + 1] == 'n' {
                assert('r' as u32 == 114);
                assert(false);
            }
            assert(seq![c] + t2 =~= t);
        } else if c == '\t' {
            assert(escape_char(c) =~= seq!['\\', 't']);
            assert(s[i] == '\\' && s[i + 1] == 't');
            if s[i] == '"' {
                assert(false);
            }
            if s[i + 1] == '"' || s[i + 1] == '\\' || s[i + 1] == 'n' || s[i + 1] == 'r' {
                assert('t' as u32 == 116);
                assert(false);
            }
            assert(seq![c] + t2 =~= t);
        } else if cu < 32 {
            lemma_hex_char_of(cu as int / 16);
            lemma_hex_char_of(cu as int % 16);
            assert(escape_char(c) =~= seq!['\\', 'u', '0', '0', hex_char(cu as int / 16), hex_char(
                cu as int % 16,
            )]);
            assert(s[i] == '\\' && s[i + 1] == 'u' && s[i + 2] == '0' && s[i + 3] == '0');
            assert(s[i + 4] == hex_char(cu as int / 16) && s[i + 5] == hex_char(cu as int % 16));
            if s[i] == '"' {
                assert(false);
            }
            if s[i + 1] == '"' || s[i + 1] == '\\' || s[i + 1] == 'n' || s[i + 1] == 'r' || s[i + 1]
                == 't' {
                assert('u' as u32 == 117);
                assert(false);
            }
            let v = hex_val(s[i + 4]) * 16 + hex_val(s[i + 5]);
            assert(v == cu) by {
                vstd::arithmetic::div_mod::lemma_fundamental_div_mod(cu as int, 16);
            }
            assert(v != 9 && v != 10 && v != 13) by {
                if cu == 9 {
                    lemma_char_eq_code(c, '\t');
                    assert(false);
                }
                if cu == 10 {
                    lemma_char_eq_code(c, '\n');
                    assert(false);
                }
                if cu == 13 {
                    lemma_char_eq_code(c, '\r');
                    assert(false);
                }
            }
            assert(((v as u8) as char) == c) by {
                lemma_char_eq_code((v as u8) as char, c);
            }
            assert(seq![c] + t2 =~= t);
        } else {
            assert(escape_char(c) =~= seq![c]);
            assert(s[i + 0] == escape_char(c)[0]);
            assert(s[i] == c);
            if s[i] == '"' {
                assert(false);
            }
            if s[i] == '\\' {
                assert(false);
            }
            assert(seq![c] + t2 =~= t);
        }
    }
}

/// Soundness of string parsing: on success the consumed characters are the
/// complete JSON string encoding of the result.
pub proof fn lemma_string_sound(s: Seq<char>, i: int)
    requires
        0 <= i <= s.len(),
        spec_parse_string(s, i) is Some,
    ensures
        ({
            let (t, j) = spec_parse_string(s, i)->Some_0;
            &&& i < j <= s.len()
            &&& s.subrange(i, j) == json_string(t)
        }),
{
    let (t, j) = spec_parse_string(s, i)->Some_0;
    lemma_strbody_sound(s, i + 1);
    assert(s.subrange(i, j) =~= seq![s[i]] + s.subrange(i + 1, j));
    assert(s.subrange(i, j) =~= json_string(t));
}

/// Completeness of string parsing: where the input carries the JSON string
/// encoding of `t`, parsing succeeds with exactly `t`.
pub proof fn lemma_string_complete(s: Seq<char>, i: int, t: Seq<char>)
    requires
        0 <= i,
        i + json_string(t).len() <= s.len(),
        s.subrange(i, i + json_string(t).len()) == json_string(t),
    ensures
        spec_parse_string(s, i) == Some((t, i + json_string(t).len())),
{
    let jl = json_string(t).len() as int;
    let sub = s.subrange(i, i + jl);
    assert(jl == escape_seq(t).len() + 2);
    assert(s[i] == sub[0]);
    assert(sub[0] == '"');
    assert(s.subrange(i + 1, i + 1 + escape_seq(t).len() + 1) =~= escape_seq(t) + seq!['"']) by {
        assert forall|m: int| 0 <= m < escape_seq(t).len() + 1 implies s.subrange(
            i + 1,
            i + 1 + escape_seq(t).len() + 1,
        )[m] == (escape_seq(t) + seq!['"'])[m] by {
            assert(s.subrange(i + 1, i + 1 + escape_seq(t).len() + 1)[m] == sub[1 + m]);
            assert(sub[1 + m] == json_string(t)[1 + m]);
        }
    }
    lemma_strbody_complete(s, i + 1, t);
}

// ---------------------------------------------------------------------------
// Sequence decomposition helpers
// ---------------------------------------------------------------------------

/// A subrange splits at any interior point.
pub proof fn lemma_subrange_concat(s: Seq<char>, a: int, b: int, c: int)
    requires
        0 <= a <= b <= c <= s.len(),
    ensures
        s.subrange(a, c) == s.subrange(a, b) + s.subrange(b, c),
{
    assert(s.subrange(a, c) =~= s.subrange(a, b) + s.subrange(b, c));
}

/// Peel the head off a decomposed suffix: if the text from `i` onward is
/// `a` followed by `rest`, then `a` sits at `i` and `rest` right after it.
pub proof fn lemma_peel(s: Seq<char>, i: int, a: Seq<char>, rest: Seq<char>)
    requires
        0 <= i <= s.len(),
        s.subrange(i, s.len() as int) == a + rest,
    ensures
        i + a.len() <= s.len(),
        s.subrange(i, i + a.len()) == a,
        s.subrange(i + a.len(), s.len() as int) == rest,
{
    assert(s.subrange(i, s.len() as int).len() == s.len() - i);
    assert((a + rest).len() == a.len() + rest.len());
    assert(s.len() - i == a.len() + rest.len());
    assert(s.subrange(i, i + a.len()) =~= a) by {
        assert forall|m: int| 0 <= m < a.len() implies s.subrange(i, i + a.len())[m] == a[m] by {
            assert(s[i + m] == s.subrange(i, s.len() as int)[m]);
        }
    }
    assert(s.subrange(i + a.len(), s.len() as int) =~= rest) by {
        assert forall|m: int| 0 <= m < rest.len() implies s.subrange(
            i + a.len(),
            s.len() as int,
        )[m] == rest[m] by {
            assert(s[i + a.len() + m] == s.subrange(i, s.len() as int)[a.len() + m]);
        }
    }
}

// ---------------------------------------------------------------------------
// The request grammar
// ---------------------------------------------------------------------------

/// The opening of a request object up to its version value.
pub open spec fn lit_version() -> Seq<char> {
    "{\"version\":"@
}

/// Between the version value and the id value.
pub open spec fn lit_id() -> Seq<char> {
    ",\"id\":"@
}

/// Between the id value and the payload object.
pub open spec fn lit_payload() -> Seq<char> {
    ",\"payload\":"@
}

/// The opening of a command payload up to its command string.
pub open spec fn lit_cmd_open() -> Seq<char> {
    "{\"CommandExecutionRequest\":{\"command\":"@
}

/// The opening of a file-operation payload up to its URL string.
pub open spec fn lit_file_open() -> Seq<char> {
    "{\"FileOperationRequest\":{\"url\":"@
}

/// Between the URL string and the path string.
pub open spec fn lit_path() -> Seq<char> {
    ",\"path\":"@
}

/// Between the path string and the operation tag.
pub open spec fn lit_operation() -> Seq<char> {
    ",\"operation\":"@
}

/// The download operation tag.
pub open spec fn lit_download() -> Seq<char> {
    "\"Download\""@
}

/// The upload operation tag.
pub open spec fn lit_upload() -> Seq<char> {
    "\"Upload\""@
}

/// The two closing braces of a payload object.
pub open spec fn lit_close2() -> Seq<char> {
    "}}"@
}

/// Parse a file-operation tag at `i`.
pub open spec fn spec_parse_operation(s: Seq<char>, i: int) -> Option<(FileOperation, int)> {
    if lit_at(s, i, lit_download()) {
        Some((FileOperation::Download, i + lit_download().len()))
    } else if lit_at(s, i, lit_upload()) {
        Some((FileOperation::Upload, i + lit_upload().len()))
    } else {
        Option::<(FileOperation, int)>::None
    }
}

/// Parse a request payload object at `i`, one of the two tagged variants.
pub open spec fn spec_parse_payload(s: Seq<char>, i: int) -> Option<(RequestPayloadView, int)> {
    if lit_at(s, i, lit_cmd_open()) {
        match spec_parse_string(s, i + lit_cmd_open().len()) {
            Option::None => Option::<(RequestPayloadView, int)>::None,
            Option::Some((command, j)) => if lit_at(s, j, lit_close2()) {
                Some((RequestPayloadView::Command { command }, j + lit_close2().len()))
            } else {
                Option::<(RequestPayloadView, int)>::None
            },
        }
    } else if lit_at(s, i, lit_file_open()) {
        match spec_parse_string(s, i + lit_file_open().len()) {
            Option::None => Option::<(RequestPayloadView, int)>::None,
            Option::Some((url, j1)) => if lit_at(s, j1, lit_path()) {
                match spec_parse_string(s, j1 + lit_path().len()) {
                    Option::None => Option::<(RequestPayloadView, int)>::None,
                    Option::Some((path, j2)) => if lit_at(s, j2, lit_operation()) {
                        match spec_parse_operation(s, j2 + lit_operation().len()) {
                            Option::None => Option::<(RequestPayloadView, int)>::None,
                            Option::Some((operation, j3)) => if lit_at(s, j3, lit_close2()) {
                                Some(
                                    (
                                        RequestPayloadView::FileOp { url, path, operation },
                                        j3 + lit_close2().len(),
                                    ),
                                )
                            } else {
                                Option::<(RequestPayloadView, int)>::None
                            },
                        }
                    } else {
                        Option::<(RequestPayloadView, int)>::None
                    },
                }
            } else {
                Option::<(RequestPayloadView, int)>::None
            },
        }
    } else {
        Option::<(RequestPayloadView, int)>::None
    }
}

/// Parse a whole request frame: the three fields in order, then the closing
/// brace, which must end the input.
pub open spec fn spec_parse_request(s: Seq<char>) -> Option<ControllerRequestView> {
    if !lit_at(s, 0, lit_version()) {
        Option::<ControllerRequestView>::None
    } else {
        match spec_parse_u64(s, lit_version().len() as int) {
            Option::None => Option::<ControllerRequestView>::None,
            Option::Some((ver, i1)) => if ver > u32::MAX as u64 || !lit_at(s, i1, lit_id()) {
                Option::<ControllerRequestView>::None
            } else {
                match spec_parse_u64(s, i1 + lit_id().len()) {
                    Option::None => Option::<ControllerRequestView>::None,
                    Option::Some((id, i2)) => if !lit_at(s, i2, lit_payload()) {
                        Option::<ControllerRequestView>::None
                    } else {
                        match spec_parse_payload(s, i2 + lit_payload().len()) {
                            Option::None => Option::<ControllerRequestView>::None,
                            Option::Some((payload, i3)) => if i3 + 1 == s.len() && s[i3] == '}' {
                                Some(ControllerRequestView { version: ver as u32, id, payload })
                            } else {
                                Option::<ControllerRequestView>::None
                            },
                        }
                    },
                }
            },
        }
    }
}

/// Soundness of number parsing: on success the consumed characters are the
/// canonical digits of the value, and the run is maximal.
pub proof fn lemma_parse_u64_sound(s: Seq<char>, i: int)
    requires
        0 <= i <= s.len(),
        spec_parse_u64(s, i) is Some,
    ensures
        ({
            let (n, j) = spec_parse_u64(s, i)->Some_0;
            &&& i < j <= s.len()
            &&& s.subrange(i, j) == dec_digits(n as nat)
            &&& (j == s.len() || !is_dec_digit(s[j]))
        }),
{
    let j = spec_scan_end(s, i);
    lemma_scan_end_bounds(s, i);
    let d = s.subrange(i, j);
    let n = spec_parse_u64(s, i)->Some_0.0;
    assert(seq_digits_val(d) == Some(n));
    assert(d[0] != '0' || d.len() == 1);
    lemma_dec_digits_of_val(d, n);
}

/// Completeness of number parsing: where the input carries the canonical
/// digits of `n` followed by a non-digit (or the end), parsing succeeds with
/// exactly `n`.
pub proof fn lemma_parse_u64_complete(s: Seq<char>, i: int, n: u64)
    requires
        0 <= i,
        i + dec_digits(n as nat).len() <= s.len(),
        s.subrange(i, i + dec_digits(n as nat).len()) == dec_digits(n as nat),
        i + dec_digits(n as nat).len() == s.len() || !is_dec_digit(
            s[i + dec_digits(n as nat).len()],
        ),
    ensures
        spec_parse_u64(s, i) == Some((n, i + dec_digits(n as nat).len())),
{
    let d = dec_digits(n as nat);
    let j = i + d.len();
    lemma_dec_digits_shape(n as nat);
    assert forall|k: int| i <= k < j implies is_dec_digit(#[trigger] s[k]) by {
        assert(s[k] == s.subrange(i, j)[k - i]);
        assert(s.subrange(i, j)[k - i] == d[k - i]);
    }
    lemma_scan_end_exact(s, i, j);
    assert(s[i] == s.subrange(i, j)[0]);
    assert(s[i] == d[0]);
    if n >= 10 {
        assert(d[0] != '0');
    } else {
        assert(j == i + 1);
    }
    lemma_val_dec_digits(n as nat);
    assert(s.subrange(i, j) == d);
}

// ---------------------------------------------------------------------------
// Soundness and completeness of the request grammar
// ---------------------------------------------------------------------------

/// Soundness of operation parsing.
pub proof fn lemma_operation_sound(s: Seq<char>, i: int)
    requires
        0 <= i <= s.len(),
        spec_parse_operation(s, i) is Some,
    ensures
        ({
            let (op, j) = spec_parse_operation(s, i)->Some_0;
            &&& i <= j <= s.len()
            &&& s.subrange(i, j) == operation_json(op)
        }),
{
}

/// Completeness of operation parsing.
pub proof fn lemma_operation_complete(s: Seq<char>, i: int, op: FileOperation, rest: Seq<char>)
    requires
        0 <= i <= s.len(),
        s.subrange(i, s.len() as int) == operation_json(op) + rest,
    ensures
        spec_parse_operation(s, i) == Some((op, i + operation_json(op).len())),
{
    reveal_strlit("\"Download\"");
    reveal_strlit("\"Upload\"");
    match op {
        FileOperation::Download => {
            lemma_peel(s, i, lit_download(), rest);
        },
        FileOperation::Upload => {
            lemma_peel(s, i, lit_upload(), rest);
            if lit_at(s, i, lit_download()) {
                assert(s.subrange(i, i + lit_download().len())[1] == lit_download()[1]);
                assert(s.subrange(i, i + lit_upload().len())[1] == lit_upload()[1]);
                assert('D' as u32 == 68 && 'U' as u32 == 85);
                assert(false);
            }
        },
    }
}

/// Soundness of payload parsing: on success the consumed characters are the
/// payload's encoding.
pub proof fn lemma_payload_sound(s: Seq<char>, i: int)
    requires
        0 <= i <= s.len(),
        spec_parse_payload(s, i) is Some,
    ensures
        ({
            let (p, j) = spec_parse_payload(s, i)->Some_0;
            &&& i <= j <= s.len()
            &&& s.subrange(i, j) == request_payload_json(p)
        }),
{
    if lit_at(s, i, lit_cmd_open()) {
        let ia = i + lit_cmd_open().len() as int;
        lemma_string_sound(s, ia);
        let (command, j1) = spec_parse_string(s, ia)->Some_0;
        let j = j1 + lit_close2().len() as int;
        lemma_subrange_concat(s, i, ia, j1);
        lemma_subrange_concat(s, i, j1, j);
        assert(s.subrange(i, j) == (lit_cmd_open() + json_string(command)) + lit_close2());
    } else {
        let ia = i + lit_file_open().len() as int;
        lemma_string_sound(s, ia);
        let (url, j1) = spec_parse_string(s, ia)->Some_0;
        let ib = j1 + lit_path().len() as int;
        lemma_string_sound(s, ib);
        let (path, j2) = spec_parse_string(s, ib)->Some_0;
        let ic = j2 + lit_operation().len() as int;
        lemma_operation_sound(s, ic);
        let (op, j3) = spec_parse_operation(s, ic)->Some_0;
        let j = j3 + lit_close2().len() as int;
        lemma_subrange_concat(s, i, ia, j1);
        lemma_subrange_concat(s, i, j1, ib);
        lemma_subrange_concat(s, i, ib, j2);
        lemma_subrange_concat(s, i, j2, ic);
        lemma_subrange_concat(s, i, ic, j3);
        lemma_subrange_concat(s, i, j3, j);
        assert(s.subrange(i, j) == (((((lit_file_open() + json_string(url)) + lit_path())
            + json_string(path)) + lit_operation()) + operation_json(op)) + lit_close2());
    }
}

/// Completeness of payload parsing: where the input from `i` onward carries a
/// payload's encoding, parsing succeeds with exactly that payload.
#[verifier::spinoff_prover]
pub proof fn lemma_payload_complete(s: Seq<char>, i: int, p: RequestPayloadView, rest: Seq<char>)
    requires
        0 <= i <= s.len(),
        s.subrange(i, s.len() as int) == request_payload_json(p) + rest,
    ensures
        spec_parse_payload(s, i) == Some((p, i + request_payload_json(p).len())),
{
    reveal_strlit("{\"CommandExecutionRequest\":{\"command\":");
    reveal_strlit("{\"FileOperationRequest\":{\"url\":");
    match p {
        RequestPayloadView::Command { command } => {
            assert(s.subrange(i, s.len() as int) =~= lit_cmd_open() + (json_string(command) + (
            lit_close2() + rest)));
            lemma_peel(s, i, lit_cmd_open(), json_string(command) + (lit_close2() + rest));
            let ia = i + lit_cmd_open().len() as int;
            lemma_peel(s, ia, json_string(command), lit_close2() + rest);
            lemma_string_complete(s, ia, command);
            let j1 = ia + json_string(command).len() as int;
            lemma_peel(s, j1, lit_close2(), rest);
        },
        RequestPayloadView::FileOp { url, path, operation } => {
            assert(s.subrange(i, s.len() as int) =~= lit_file_open() + (json_string(url) + (
            lit_path() + (json_string(path) + (lit_operation() + (operation_json(operation) + (
            lit_close2() + rest)))))));
            lemma_peel(
                s,
                i,
                lit_file_open(),
                json_string(url) + (lit_path() + (json_string(path) + (lit_operation() + (
                operation_json(operation) + (lit_close2() + rest))))),
            );
            if lit_at(s, i, lit_cmd_open()) {
                assert(s.subrange(i, i + lit_cmd_open().len())[2] == lit_cmd_open()[2]);
                assert(s.subrange(i, i + lit_file_open().len())[2] == lit_file_open()[2]);
                assert('C' as u32 == 67 && 'F' as u32 == 70);
                assert(false);
            }
            let ia = i + lit_file_open().len() as int;
            lemma_peel(
                s,
                ia,
                json_string(url),
                lit_path() + (json_string(path) + (lit_operation() + (operation_json(operation) + (
                lit_close2() + rest)))),
            );
            lemma_string_complete(s, ia, url);
            let j1 = ia + json_string(url).len() as int;
            lemma_peel(
                s,
                j1,
                lit_path(),
                json_string(path) + (lit_operation() + (operation_json(operation) + (lit_close2()
                    + rest))),
            );
            let ib = j1 + lit_path().len() as int;
            lemma_peel(
                s,
                ib,
                json_string(path),
                lit_operation() + (operation_json(operation) + (lit_close2() + rest)),
            );
            lemma_string_complete(s, ib, path);
            let j2 = ib + json_string(path).len() as int;
            lemma_peel(
                s,
                j2,
                lit_operation(),
                operation_json(operation) + (lit_close2() + rest),
            );
            let ic = j2 + lit_operation().len() as int;
            lemma_operation_complete(s, ic, operation, lit_close2() + rest);
            lemma_peel(s, ic, operation_json(operation), lit_close2() + rest);
            let j3 = ic + operation_json(operation).len() as int;
            lemma_peel(s, j3, lit_close2(), rest);
        },
    }
}

/// Soundness of request parsing: a frame that parses is exactly the encoding
/// of what it parsed to.
#[verifier::spinoff_prover]
pub proof fn lemma_request_sound(s: Seq<char>)
    requires
        spec_parse_request(s) is Some,
    ensures
        s == request_json(spec_parse_request(s)->Some_0),
{
    reveal_strlit("}");
    let rv = spec_parse_request(s)->Some_0;
    let ia = lit_version().len() as int;
    lemma_parse_u64_sound(s, ia);
    let (ver, i1) = spec_parse_u64(s, ia)->Some_0;
    let ib = i1 + lit_id().len() as int;
    lemma_parse_u64_sound(s, ib);
    let (id, i2) = spec_parse_u64(s, ib)->Some_0;
    let ic = i2 + lit_payload().len() as int;
    lemma_payload_sound(s, ic);
    let (p, i3) = spec_parse_payload(s, ic)->Some_0;
    lemma_subrange_concat(s, 0, ia, i1);
    lemma_subrange_concat(s, 0, i1, ib);
    lemma_subrange_concat(s, 0, ib, i2);
    lemma_subrange_concat(s, 0, i2, ic);
    lemma_subrange_concat(s, 0, ic, i3);
    lemma_subrange_concat(s, 0, i3, s.len() as int);
    assert(s.subrange(i3, s.len() as int) =~= "}"@);
    assert(s.subrange(0, s.len() as int) =~= s);
    assert((ver as u32) as nat == ver as nat);
    assert(s == (((((lit_version() + dec_digits(ver as nat)) + lit_id()) + dec_digits(id as nat))
        + lit_payload()) + request_payload_json(p)) + "}"@);
}

/// Completeness of request parsing: the encoding of any request parses back
/// to exactly that request.
#[verifier::rlimit(80)]
#[verifier::spinoff_prover]
pub proof fn lemma_request_complete(s: Seq<char>, rv: ControllerRequestView)
    requires
        s == request_json(rv),
    ensures
        spec_parse_request(s) == Some(rv),
{
    reveal_strlit("{\"version\":");
    reveal_strlit(",\"id\":");
    reveal_strlit(",\"payload\":");
    reveal_strlit("}");
    let bv = dec_digits(rv.version as nat);
    let bd = dec_digits(rv.id as nat);
    let fp = request_payload_json(rv.payload);
    assert(s.subrange(0, s.len() as int) =~= s);
    assert(s.subrange(0, s.len() as int) =~= lit_version() + (bv + (lit_id() + (bd + (
    lit_payload() + (fp + "}"@))))));
    lemma_peel(s, 0, lit_version(), bv + (lit_id() + (bd + (lit_payload() + (fp + "}"@)))));
    let ia = lit_version().len() as int;
    lemma_peel(s, ia, bv, lit_id() + (bd + (lit_payload() + (fp + "}"@))));
    let i1 = ia + bv.len() as int;
    assert(s[i1] == s.subrange(i1, s.len() as int)[0]);
    assert(s[i1] == ',');
    assert(',' as u32 == 44);
    lemma_parse_u64_complete(s, ia, rv.version as u64);
    assert(spec_parse_u64(s, ia) == Some((rv.version as u64, i1)));
    lemma_peel(s, i1, lit_id(), bd + (lit_payload() + (fp + "}"@)));
    let ib = i1 + lit_id().len() as int;
    lemma_peel(s, ib, bd, lit_payload() + (fp + "}"@));
    let i2 = ib + bd.len() as int;
    assert(s[i2] == s.subrange(i2, s.len() as int)[0]);
    assert(s[i2] == ',');
    lemma_parse_u64_complete(s, ib, rv.id);
    assert(spec_parse_u64(s, ib) == Some((rv.id, i2)));
    lemma_peel(s, i2, lit_payload(), fp + "}"@);
    let ic = i2 + lit_payload().len() as int;
    lemma_payload_complete(s, ic, rv.payload, "}"@);
    lemma_peel(s, ic, fp, "}"@);
    let i3 = ic + fp.len() as int;
    assert(s[i3] == s.subrange(i3, s.len() as int)[0]);
    assert(s[i3] == '}');
    assert(i3 + 1 == s.len());
    assert((rv.version as u64) as u32 == rv.version);
}

// ---------------------------------------------------------------------------
// The executable parser
// ---------------------------------------------------------------------------

/// Check for the literal `lit` at position `i`, returning the position just
/// after it.
pub(crate) fn expect_lit(v: &Vec<char>, i: usize, lit: &str) -> (r: Option<usize>)
    requires
        i <= v@.len(),
    ensures
        r is Some ==> lit_at(v@, i as int, lit@) && r->Some_0 == i + lit@.len() && r->Some_0
            <= v@.len(),
        r is None ==> !lit_at(v@, i as int, lit@),
{
    let lc = chars_of(lit);
    if v.len() - i < lc.len() {
        return None;
    }
    let mut k: usize = 0;
    while k < lc.len()
        invariant
            v@.len() <= usize::MAX,
            i + lc@.len() <= v@.len(),
            k <= lc@.len(),
            lc@ == lit@,
            forall|m: int| 0 <= m < k ==> v@[i + m] == lc@[m],
        decreases lc@.len() - k,
    {
        if v[i + k] != lc[k] {
            proof {
                if lit_at(v@, i as int, lit@) {
                    assert(v@.subrange(i as int, i + lit@.len())[k as int] == lit@[k as int]);
                }
            }
            return None;
        }
        k = k + 1;
    }
    proof {
        assert(v@.subrange(i as int, i + lit@.len()) =~= lit@);
    }
    Some(i + lc.len())
}

/// Parse the canonical decimal number at `i`, refining `spec_parse_u64`.
fn parse_u64_at(v: &Vec<char>, i: usize) -> (r: Option<(u64, usize)>)
    requires
        i <= v@.len(),
    ensures
        r is Some ==> spec_parse_u64(v@, i as int) == Some((r->Some_0.0, r->Some_0.1 as int))
            && i < r->Some_0.1 <= v@.len(),
        r is None ==> spec_parse_u64(v@, i as int) is None,
{
    let mut j: usize = i;
    let mut acc: u64 = 0;
    let mut overflow: bool = false;
    loop
        invariant
            i <= j <= v@.len(),
            spec_scan_end(v@, i as int) == spec_scan_end(v@, j as int),
            forall|m: int| i <= m < j ==> is_dec_digit(#[trigger] v@[m]),
            !overflow ==> seq_digits_val(v@.subrange(i as int, j as int)) == Some(acc),
            overflow ==> seq_digits_val(v@.subrange(i as int, j as int)) is None,
        ensures
            i <= j <= v@.len(),
            spec_scan_end(v@, i as int) == j,
            !overflow ==> seq_digits_val(v@.subrange(i as int, j as int)) == Some(acc),
            overflow ==> seq_digits_val(v@.subrange(i as int, j as int)) is None,
        decreases v@.len() - j,
    {
        if j >= v.len() {
            proof {
                assert(spec_scan_end(v@, j as int) == j);
            }
            break ;
        }
        let c = v[j];
        let cu = c as u32;
        if !(48 <= cu && cu <= 57) {
            proof {
                assert(!is_dec_digit(v@[j as int]));
                assert(spec_scan_end(v@, j as int) == j);
            }
            break ;
        }
        let d: u64 = (cu - 48) as u64;
        let ghost pre = v@.subrange(i as int, j as int);
        proof {
            assert(v@.subrange(i as int, j + 1).drop_last() =~= pre);
            assert(v@.subrange(i as int, j + 1).last() == c);
            assert(digit_val(c) == d);
        }
        if !overflow {
            match acc.checked_mul(10) {
                Some(m) => {
                    match m.checked_add(d) {
                        Some(t) => {
                            acc = t;
                        },
                        None => {
                            overflow = true;
                        },
                    }
                },
                None => {
                    overflow = true;
                },
            }
        }
        j = j + 1;
    }
    if j == i {
        return None;
    }
    if v[i] == '0' && j > i + 1 {
        return None;
    }
    if overflow {
        return None;
    }
    Some((acc, j))
}

/// The value of a lowercase hexadecimal digit, if it is one.
fn hex_digit_val(c: char) -> (r: Option<u8>)
    ensures
        r is Some <==> is_lower_hex(c),
        r is Some ==> r->Some_0 == hex_val(c) && r->Some_0 <= 15,
{
    let cu = c as u32;
    if 48 <= cu && cu <= 57 {
        Some((cu - 48) as u8)
    } else if 97 <= cu && cu <= 102 {
        Some((cu - 87) as u8)
    } else {
        None
    }
}

/// Parse a complete JSON string at `i`, refining `spec_parse_string`.
pub(crate) fn parse_string_at(v: &Vec<char>, i: usize) -> (r: Option<(String, usize)>)
    requires
        i <= v@.len(),
    ensures
        r is Some ==> spec_parse_string(v@, i as int) == Some(
            (r->Some_0.0@, r->Some_0.1 as int),
        ) && i < r->Some_0.1 <= v@.len(),
        r is None ==> spec_parse_string(v@, i as int) is None,
{
    if i >= v.len() || v[i] != '"' {
        return None;
    }
    let ghost start: int = i + 1;
    let mut acc: Vec<char> = Vec::new();
    let mut j: usize = i + 1;
    proof {
        match spec_parse_strbody(v@, start) {
            Option::Some((t2, e2)) => {
                assert(acc@ + t2 =~= t2);
            },
            Option::None => {},
        }
    }
    loop
        invariant
            i + 1 <= j <= v@.len(),
            i < v@.len(),
            v@[i as int] == '"',
            v@.len() <= usize::MAX,
            start == i + 1,
            ({
                match spec_parse_strbody(v@, j as int) {
                    Option::Some((t2, e2)) => spec_parse_strbody(v@, start) == Some(
                        (acc@ + t2, e2),
                    ),
                    Option::None => spec_parse_strbody(v@, start) is None,
                }
            }),
        decreases v@.len() - j,
    {
        if j >= v.len() {
            return None;
        }
        let c = v[j];
        if c == '"' {
            proof {
                assert(spec_parse_strbody(v@, j as int) == Some((
                    Seq::<char>::empty(),
                    j + 1 as int,
                )));
                assert(acc@ + Seq::<char>::empty() =~= acc@);
            }
            let out = string_from_chars(acc);
            return Some((out, j + 1));
        }
        let ghost old_acc: Seq<char> = acc@;
        let ghost old_j: int = j as int;
        if c == '\\' {
            if v.len() - j < 2 {
                return None;
            }
            let e = v[j + 1];
            if e == '"' {
                acc.push('"');
                j = j + 2;
            } else if e == '\\' {
                acc.push('\\');
                j = j + 2;
            } else if e == 'n' {
                acc.push('\n');
                j = j + 2;
            } else if e == 'r' {
                acc.push('\r');
                j = j + 2;
            } else if e == 't' {
                acc.push('\t');
                j = j + 2;
            } else if e == 'u' {
                if v.len() - j < 6 {
                    return None;
                }
                if v[j + 2] != '0' || v[j + 3] != '0' {
                    return None;
                }
                let h1 = match hex_digit_val(v[j + 4]) {
                    Some(h) => h,
                    None => {
                        return None;
                    },
                };
                let h0 = match hex_digit_val(v[j + 5]) {
                    Some(h) => h,
                    None => {
                        return None;
                    },
                };
                let val: u32 = (h1 as u32) * 16 + (h0 as u32);
                if !(val < 32 && val != 9 && val != 10 && val != 13) {
                    return None;
                }
                acc.push((val as u8) as char);
                j = j + 6;
            } else {
                return None;
            }
        } else if c as u32 >= 32 {
            acc.push(c);
            j = j + 1;
        } else {
            return None;
        }
        proof {
            let pushed = acc@.last();
            assert(acc@ =~= old_acc.push(pushed));
            assert(spec_parse_strbody(v@, old_j) == strbody_cons(
                pushed,
                spec_parse_strbody(v@, j as int),
            ));
            match spec_parse_strbody(v@, j as int) {
                Option::Some((t2, e)) => {
                    assert(old_acc + (seq![pushed] + t2) =~= acc@ + t2);
                },
                Option::None => {},
            }
        }
    }
}

/// Parse a request payload object at `i`, refining `spec_parse_payload`.
fn parse_payload_at(v: &Vec<char>, i: usize) -> (r: Option<(ControllerRequestPayload, usize)>)
    requires
        i <= v@.len(),
    ensures
        r is Some ==> spec_parse_payload(v@, i as int) == Some(
            (r->Some_0.0@, r->Some_0.1 as int),
        ) && r->Some_0.1 <= v@.len(),
        r is None ==> spec_parse_payload(v@, i as int) is None,
{
    if let Some(ia) = expect_lit(v, i, "{\"CommandExecutionRequest\":{\"command\":") {
        let (command, j1) = match parse_string_at(v, ia) {
            Some(p) => p,
            None => {
                return None;
            },
        };
        let j = match expect_lit(v, j1, "}}") {
            Some(j) => j,
            None => {
                return None;
            },
        };
        Some((
            ControllerRequestPayload::CommandExecutionRequest(
                CommandExecutionRequest { command },
            ),
            j,
        ))
    } else if let Some(ia) = expect_lit(v, i, "{\"FileOperationRequest\":{\"url\":") {
        let (url, j1) = match parse_string_at(v, ia) {
            Some(p) => p,
            None => {
                return None;
            },
        };
        let ib = match expect_lit(v, j1, ",\"path\":") {
            Some(j) => j,
            None => {
                return None;
            },
        };
        let (path, j2) = match parse_string_at(v, ib) {
            Some(p) => p,
            None => {
                return None;
            },
        };
        let ic = match expect_lit(v, j2, ",\"operation\":") {
            Some(j) => j,
            None => {
                return None;
            },
        };
        let (operation, j3) = if let Some(j3) = expect_lit(v, ic, "\"Download\"") {
            (FileOperation::Download, j3)
        } else if let Some(j3) = expect_lit(v, ic, "\"Upload\"") {
            (FileOperation::Upload, j3)
        } else {
            return None;
        };
        let j = match expect_lit(v, j3, "}}") {
            Some(j) => j,
            None => {
                return None;
            },
        };
        Some((
            ControllerRequestPayload::FileOperationRequest(
                FileOperationRequest { url, path, operation },
            ),
            j,
        ))
    } else {
        None
    }
}

/// Parse a text frame as a controller request. A frame parses exactly when
/// it is the canonical encoding of a request, and then to that request.
pub fn parse_request(s: &str) -> (r: Option<ControllerRequest>)
    ensures
        r matches Some(req) ==> s@ == request_json(req@),
        r is None ==> forall|rv: ControllerRequestView| s@ != request_json(rv),
{
    let v = chars_of(s);
    let parsed = parse_request_chars(&v);
    proof {
        match &parsed {
            Option::Some(req) => {
                lemma_request_sound(s@);
            },
            Option::None => {
                assert forall|rv: ControllerRequestView| s@ != request_json(rv) by {
                    if s@ == request_json(rv) {
                        lemma_request_complete(s@, rv);
                    }
                }
            },
        }
    }
    parsed
}

/// Parse a whole frame held as characters, refining `spec_parse_request`.
fn parse_request_chars(v: &Vec<char>) -> (r: Option<ControllerRequest>)
    ensures
        r matches Some(req) ==> spec_parse_request(v@) == Some(req@),
        r is None ==> spec_parse_request(v@) is None,
{
    let ia = match expect_lit(v, 0, "{\"version\":") {
        Some(j) => j,
        None => {
            return None;
        },
    };
    let (ver, i1) = match parse_u64_at(v, ia) {
        Some(p) => p,
        None => {
            return None;
        },
    };
    if ver > u32::MAX as u64 {
        return None;
    }
    let ib = match expect_lit(v, i1, ",\"id\":") {
        Some(j) => j,
        None => {
            return None;
        },
    };
    let (id, i2) = match parse_u64_at(v, ib) {
        Some(p) => p,
        None => {
            return None;
        },
    };
    let ic = match expect_lit(v, i2, ",\"payload\":") {
        Some(j) => j,
        None => {
            return None;
        },
    };
    let (payload, i3) = match parse_payload_at(v, ic) {
        Some(p) => p,
        None => {
            return None;
        },
    };
    if i3 < v.len() && i3 + 1 == v.len() && v[i3] == '}' {
        Some(ControllerRequest { version: ver as u32, id, payload })
    } else {
        None
    }
}

} // verus!
