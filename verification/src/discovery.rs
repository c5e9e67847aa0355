//! The discovery exchange: the probe datagram the agent multicasts, the
//! response datagram a controller answers with, and the validation of the
//! advertised endpoints. The socket, the timer and the liveness probes run
//! outside; parsing, the magic check and the keep-or-drop decisions are
//! verified here.

use vstd::prelude::*;

use crate::codec::chars_of;
use crate::codec::dec_digits;
use crate::codec::json_string;
use crate::codec::push_dec_u64;
use crate::codec::push_json_string;
use crate::codec::append_str;
use crate::codec::string_from_chars;
use crate::parser::lemma_peel;
use crate::parser::lemma_string_complete;
use crate::parser::lemma_string_sound;
use crate::parser::lemma_subrange_concat;
use crate::parser::lit_at;
use crate::parser::spec_parse_string;

verus! {

/// The protocol revision carried in every probe.
pub const DISCOVERY_REVISION: u32 = 1;

/// The magic word that marks a probe datagram.
pub open spec fn magic_request() -> Seq<char> {
    "MXA-DISCOVER"@
}

/// The magic word that marks a response datagram.
pub open spec fn magic_response() -> Seq<char> {
    "MXA-RESPONSE"@
}

/// A probe datagram: the magic word, the sender's own address, and the
/// protocol revision.
pub struct DiscoveryRequest {
    pub magic: String,
    pub addr: String,
    pub revision: u32,
}

/// A response datagram: the magic word and the candidate endpoint URLs.
pub struct DiscoveryResponse {
    pub magic: String,
    pub ws: Vec<String>,
}

/// Mathematical model of a probe datagram.
pub ghost struct DiscoveryRequestView {
    pub magic: Seq<char>,
    pub addr: Seq<char>,
    pub revision: u32,
}

/// Mathematical model of a response datagram.
pub ghost struct DiscoveryResponseView {
    pub magic: Seq<char>,
    pub ws: Seq<Seq<char>>,
}

impl View for DiscoveryRequest {
    type V = DiscoveryRequestView;

    open spec fn view(&self) -> DiscoveryRequestView {
        DiscoveryRequestView { magic: self.magic@, addr: self.addr@, revision: self.revision }
    }
}

impl View for DiscoveryResponse {
    type V = DiscoveryResponseView;

    open spec fn view(&self) -> DiscoveryResponseView {
        DiscoveryResponseView { magic: self.magic@, ws: self.ws.deep_view() }
    }
}

// ---------------------------------------------------------------------------
// Encodings
// ---------------------------------------------------------------------------

/// The elements of a URL array after the first: each preceded by a comma.
pub open spec fn ws_items_tail(ws: Seq<Seq<char>>) -> Seq<char>
    decreases ws.len(),
{
    if ws.len() == 0 {
        Seq::empty()
    } else {
        seq![','] + (json_string(ws[0]) + ws_items_tail(ws.drop_first()))
    }
}

/// The comma-separated elements of a URL array.
pub open spec fn ws_items(ws: Seq<Seq<char>>) -> Seq<char> {
    if ws.len() == 0 {
        Seq::empty()
    } else {
        json_string(ws[0]) + ws_items_tail(ws.drop_first())
    }
}

/// The JSON encoding of a probe datagram.
pub open spec fn discovery_request_json(v: DiscoveryRequestView) -> Seq<char> {
    "{\"magic\":"@ + json_string(v.magic) + ",\"addr\":"@ + json_string(v.addr) + ",\"revision\":"@
        + dec_digits(v.revision as nat) + "}"@
}

/// The JSON encoding of a response datagram.
pub open spec fn discovery_response_json(v: DiscoveryResponseView) -> Seq<char> {
    "{\"magic\":"@ + json_string(v.magic) + ",\"ws\":["@ + ws_items(v.ws) + "]}"@
}

/// Appending one URL to the array extends its elements by a comma (after the
/// first) and the URL's string form.
pub proof fn lemma_ws_items_push(ws: Seq<Seq<char>>, t: Seq<char>)
    ensures
        ws.len() == 0 ==> ws_items(ws.push(t)) == json_string(t),
        ws.len() > 0 ==> ws_items(ws.push(t)) == ws_items(ws) + (seq![','] + json_string(t)),
    decreases ws.len(),
{
    if ws.len() == 0 {
        assert(ws.push(t)[0] == t);
        assert(ws.push(t).drop_first() =~= Seq::<Seq<char>>::empty());
        assert(json_string(t) + ws_items_tail(Seq::<Seq<char>>::empty()) =~= json_string(t));
    } else {
        lemma_ws_items_tail_push(ws.drop_first(), t);
        assert(ws.push(t)[0] == ws[0]);
        assert(ws.push(t).drop_first() =~= ws.drop_first().push(t));
        assert(json_string(ws[0]) + (ws_items_tail(ws.drop_first()) + (seq![','] + json_string(t)))
            =~= (json_string(ws[0]) + ws_items_tail(ws.drop_first())) + (seq![','] + json_string(
            t,
        )));
    }
}

/// The same for the tail form.
pub proof fn lemma_ws_items_tail_push(ws: Seq<Seq<char>>, t: Seq<char>)
    ensures
        ws_items_tail(ws.push(t)) == ws_items_tail(ws) + (seq![','] + json_string(t)),
    decreases ws.len(),
{
    if ws.len() == 0 {
        assert(ws.push(t)[0] == t);
        assert(ws.push(t).drop_first() =~= Seq::<Seq<char>>::empty());
        assert(ws_items_tail(Seq::<Seq<char>>::empty()) =~= Seq::<char>::empty());
        assert(ws_items_tail(ws.push(t)) == seq![','] + (json_string(t) + Seq::<char>::empty()));
        assert(json_string(t) + Seq::<char>::empty() =~= json_string(t));
        assert(ws_items_tail(ws) + (seq![','] + json_string(t)) =~= seq![','] + json_string(t));
    } else {
        lemma_ws_items_tail_push(ws.drop_first(), t);
        assert(ws.push(t)[0] == ws[0]);
        assert(ws.push(t).drop_first() =~= ws.drop_first().push(t));
        assert(seq![','] + (json_string(ws[0]) + (ws_items_tail(ws.drop_first()) + (seq![',']
            + json_string(t)))) =~= (seq![','] + (json_string(ws[0]) + ws_items_tail(
            ws.drop_first(),
        ))) + (seq![','] + json_string(t)));
    }
}

/// Encode a probe datagram.
pub fn encode_discovery_request(req: &DiscoveryRequest) -> (out: String)
    ensures
        out@ == discovery_request_json(req@),
{
    let mut v: Vec<char> = Vec::new();
    append_str(&mut v, "{\"magic\":");
    push_json_string(&mut v, req.magic.as_str());
    append_str(&mut v, ",\"addr\":");
    push_json_string(&mut v, req.addr.as_str());
    append_str(&mut v, ",\"revision\":");
    push_dec_u64(&mut v, req.revision as u64);
    append_str(&mut v, "}");
    proof {
        assert(v@ =~= discovery_request_json(req@));
    }
    string_from_chars(v)
}

/// Encode a response datagram, the form `parse_discovery_response` accepts.
pub fn encode_discovery_response(resp: &DiscoveryResponse) -> (out: String)
    ensures
        out@ == discovery_response_json(resp@),
{
    let mut v: Vec<char> = Vec::new();
    append_str(&mut v, "{\"magic\":");
    push_json_string(&mut v, resp.magic.as_str());
    append_str(&mut v, ",\"ws\":[");
    let mut k: usize = 0;
    let ghost base = v@;
    while k < resp.ws.len()
        invariant
            k <= resp.ws@.len(),
            v@ == base + ws_items(resp.ws.deep_view().take(k as int)),
        decreases resp.ws@.len() - k,
    {
        if k > 0 {
            append_str(&mut v, ",");
        }
        push_json_string(&mut v, resp.ws[k].as_str());
        proof {
            let ghost pre = resp.ws.deep_view().take(k as int);
            lemma_ws_items_push(pre, resp.ws@[k as int]@);
            assert(pre.push(resp.ws@[k as int]@) =~= resp.ws.deep_view().take(k + 1));
            if k == 0 {
                assert(ws_items(resp.ws.deep_view().take(0)) =~= Seq::<char>::empty());
                assert(v@ =~= base + ws_items(resp.ws.deep_view().take(k + 1)));
            } else {
                reveal_strlit(",");
                assert(","@ =~= seq![',']);
                assert(v@ =~= base + ws_items(resp.ws.deep_view().take(k + 1)));
            }
        }
        k = k + 1;
    }
    append_str(&mut v, "]}");
    proof {
        assert(resp.ws.deep_view().take(resp.ws@.len() as int) =~= resp.ws.deep_view());
        assert(v@ =~= discovery_response_json(resp@));
    }
    string_from_chars(v)
}

// ---------------------------------------------------------------------------
// Parsing
// ---------------------------------------------------------------------------

/// Prepend a URL to the result of parsing the rest of the array.
pub open spec fn ws_cons(t: Seq<char>, r: Option<(Seq<Seq<char>>, int)>) -> Option<
    (Seq<Seq<char>>, int),
> {
    match r {
        Option::None => Option::<(Seq<Seq<char>>, int)>::None,
        Option::Some((ts, k)) => Some((seq![t] + ts, k)),
    }
}

/// Parse the array elements after the first: a closing bracket ends the
/// array, a comma is followed by one more string.
pub open spec fn spec_parse_ws_rest(s: Seq<char>, i: int) -> Option<(Seq<Seq<char>>, int)>
    decreases s.len() - i,
        via spec_parse_ws_rest_dec
{
    if !(0 <= i < s.len()) {
        Option::<(Seq<Seq<char>>, int)>::None
    } else if s[i] == ']' {
        Some((Seq::<Seq<char>>::empty(), i + 1))
    } else if s[i] == ',' {
        match spec_parse_string(s, i + 1) {
            Option::None => Option::<(Seq<Seq<char>>, int)>::None,
            Option::Some((t, j)) => ws_cons(t, spec_parse_ws_rest(s, j)),
        }
    } else {
        Option::<(Seq<Seq<char>>, int)>::None
    }
}

#[via_fn]
proof fn spec_parse_ws_rest_dec(s: Seq<char>, i: int) {
    if 0 <= i < s.len() && s[i] != ']' && s[i] == ',' {
        if spec_parse_string(s, i + 1) is Some {
            lemma_string_sound(s, i + 1);
        }
    }
}

/// Parse a whole array body after the opening bracket: empty, or a first
/// string followed by the rest.
pub open spec fn spec_parse_ws_first(s: Seq<char>, i: int) -> Option<(Seq<Seq<char>>, int)> {
    if !(0 <= i < s.len()) {
        Option::<(Seq<Seq<char>>, int)>::None
    } else if s[i] == ']' {
        Some((Seq::<Seq<char>>::empty(), i + 1))
    } else {
        match spec_parse_string(s, i) {
            Option::None => Option::<(Seq<Seq<char>>, int)>::None,
            Option::Some((t, j)) => ws_cons(t, spec_parse_ws_rest(s, j)),
        }
    }
}

/// Parse a whole response datagram.
pub open spec fn spec_parse_discovery(s: Seq<char>) -> Option<DiscoveryResponseView> {
    if !lit_at(s, 0, "{\"magic\":"@) {
        Option::<DiscoveryResponseView>::None
    } else {
        match spec_parse_string(s, "{\"magic\":"@.len() as int) {
            Option::None => Option::<DiscoveryResponseView>::None,
            Option::Some((magic, i1)) => if !lit_at(s, i1, ",\"ws\":["@) {
                Option::<DiscoveryResponseView>::None
            } else {
                match spec_parse_ws_first(s, i1 + ",\"ws\":["@.len()) {
                    Option::None => Option::<DiscoveryResponseView>::None,
                    Option::Some((ws, i2)) => if i2 + 1 == s.len() && s[i2] == '}' {
                        Some(DiscoveryResponseView { magic, ws })
                    } else {
                        Option::<DiscoveryResponseView>::None
                    },
                }
            },
        }
    }
}

/// Soundness of array-rest parsing: the consumed characters are the comma
/// separated elements followed by the closing bracket.
pub proof fn lemma_ws_rest_sound(s: Seq<char>, i: int)
    requires
        0 <= i <= s.len(),
        spec_parse_ws_rest(s, i) is Some,
    ensures
        ({
            let (ts, k) = spec_parse_ws_rest(s, i)->Some_0;
            &&& i < k <= s.len()
            &&& s.subrange(i, k) == ws_items_tail(ts) + seq![']']
        }),
    decreases s.len() - i,
{
    let (ts, k) = spec_parse_ws_rest(s, i)->Some_0;
    if s[i] == ']' {
        assert(s.subrange(i, i + 1) =~= seq![']']);
        assert(ws_items_tail(ts) + seq![']'] =~= seq![']']);
    } else {
        let (t, j) = spec_parse_string(s, i + 1)->Some_0;
        lemma_string_sound(s, i + 1);
        lemma_ws_rest_sound(s, j);
        let (ts2, k2) = spec_parse_ws_rest(s, j)->Some_0;
        assert(ts == seq![t] + ts2 && k == k2);
        assert(ts[0] == t);
        assert(ts.drop_first() =~= ts2);
        assert(s.subrange(i, i + 1) =~= seq![',']);
        assert(s.subrange(i, k) =~= s.subrange(i, i + 1) + (s.subrange(i + 1, j) + s.subrange(
            j,
            k,
        )));
        assert(ws_items_tail(ts) + seq![']'] =~= seq![','] + (json_string(t) + (ws_items_tail(ts2)
            + seq![']'])));
        assert(s.subrange(i, k) =~= ws_items_tail(ts) + seq![']']);
    }
}

/// Soundness of array parsing.
pub proof fn lemma_ws_first_sound(s: Seq<char>, i: int)
    requires
        0 <= i <= s.len(),
        spec_parse_ws_first(s, i) is Some,
    ensures
        ({
            let (ts, k) = spec_parse_ws_first(s, i)->Some_0;
            &&& i < k <= s.len()
            &&& s.subrange(i, k) == ws_items(ts) + seq![']']
        }),
{
    let (ts, k) = spec_parse_ws_first(s, i)->Some_0;
    if s[i] == ']' {
        assert(s.subrange(i, i + 1) =~= seq![']']);
        assert(ws_items(ts) + seq![']'] =~= seq![']']);
    } else {
        let (t, j) = spec_parse_string(s, i)->Some_0;
        lemma_string_sound(s, i);
        lemma_ws_rest_sound(s, j);
        let (ts2, k2) = spec_parse_ws_rest(s, j)->Some_0;
        assert(ts == seq![t] + ts2 && k == k2);
        assert(ts[0] == t);
        assert(ts.drop_first() =~= ts2);
        assert(s.subrange(i, k) =~= s.subrange(i, j) + s.subrange(j, k));
        assert(ws_items(ts) + seq![']'] =~= json_string(t) + (ws_items_tail(ts2) + seq![']']));
        assert(s.subrange(i, k) =~= ws_items(ts) + seq![']']);
    }
}

/// Completeness of array-rest parsing.
pub proof fn lemma_ws_rest_complete(s: Seq<char>, i: int, ts: Seq<Seq<char>>, rest: Seq<char>)
    requires
        0 <= i <= s.len(),
        s.subrange(i, s.len() as int) == (ws_items_tail(ts) + seq![']']) + rest,
    ensures
        spec_parse_ws_rest(s, i) == Some((ts, i + ws_items_tail(ts).len() + 1)),
    decreases ts.len(),
{
    if ts.len() == 0 {
        assert(s.subrange(i, s.len() as int).len() == s.len() - i);
        assert(((ws_items_tail(ts) + seq![']']) + rest).len() >= 1);
        assert(i < s.len());
        assert(s[i] == s.subrange(i, s.len() as int)[0]);
        assert(s[i] == ']');
        assert(ts =~= Seq::<Seq<char>>::empty());
    } else {
        let t = ts[0];
        let ts2 = ts.drop_first();
        assert(ws_items_tail(ts) == seq![','] + (json_string(t) + ws_items_tail(ts2)));
        assert(s.subrange(i, s.len() as int) =~= seq![','] + (json_string(t) + ((ws_items_tail(ts2)
            + seq![']']) + rest)));
        lemma_peel(s, i, seq![','], json_string(t) + ((ws_items_tail(ts2) + seq![']']) + rest));
        assert(s[i] == s.subrange(i, i + 1)[0]);
        assert(s[i] == ',');
        assert(']' as u32 == 93 && ',' as u32 == 44);
        lemma_peel(s, i + 1, json_string(t), (ws_items_tail(ts2) + seq![']']) + rest);
        lemma_string_complete(s, i + 1, t);
        let j = i + 1 + json_string(t).len() as int;
        lemma_ws_rest_complete(s, j, ts2, rest);
        assert(seq![t] + ts2 =~= ts);
    }
}

/// Completeness of array parsing.
pub proof fn lemma_ws_first_complete(s: Seq<char>, i: int, ts: Seq<Seq<char>>, rest: Seq<char>)
    requires
        0 <= i <= s.len(),
        s.subrange(i, s.len() as int) == (ws_items(ts) + seq![']']) + rest,
    ensures
        spec_parse_ws_first(s, i) == Some((ts, i + ws_items(ts).len() + 1)),
{
    if ts.len() == 0 {
        assert(s.subrange(i, s.len() as int).len() == s.len() - i);
        assert(((ws_items(ts) + seq![']']) + rest).len() >= 1);
        assert(i < s.len());
        assert(s[i] == s.subrange(i, s.len() as int)[0]);
        assert(s[i] == ']');
        assert(ts =~= Seq::<Seq<char>>::empty());
    } else {
        let t = ts[0];
        let ts2 = ts.drop_first();
        assert(ws_items(ts) == json_string(t) + ws_items_tail(ts2));
        assert(s.subrange(i, s.len() as int) =~= json_string(t) + ((ws_items_tail(ts2) + seq![']'])
            + rest));
        lemma_peel(s, i, json_string(t), (ws_items_tail(ts2) + seq![']']) + rest);
        assert(s[i] == s.subrange(i, i + json_string(t).len())[0]);
        assert(s[i] == json_string(t)[0]);
        assert(s[i] == '"');
        assert(']' as u32 == 93 && '"' as u32 == 34);
        lemma_string_complete(s, i, t);
        let j = i + json_string(t).len() as int;
        lemma_ws_rest_complete(s, j, ts2, rest);
        assert(seq![t] + ts2 =~= ts);
    }
}

/// Soundness of response parsing: a datagram that parses is exactly the
/// encoding of what it parsed to.
#[verifier::rlimit(100)]
#[verifier::spinoff_prover]
pub proof fn lemma_discovery_sound(s: Seq<char>)
    requires
        spec_parse_discovery(s) is Some,
    ensures
        s == discovery_response_json(spec_parse_discovery(s)->Some_0),
{
    reveal_strlit("}");
    reveal_strlit(",\"ws\":[");
    let dv = spec_parse_discovery(s)->Some_0;
    let ia = "{\"magic\":"@.len() as int;
    lemma_string_sound(s, ia);
    let (magic, i1) = spec_parse_string(s, ia)->Some_0;
    let ib = i1 + ",\"ws\":["@.len() as int;
    lemma_ws_first_sound(s, ib);
    let (ws, i2) = spec_parse_ws_first(s, ib)->Some_0;
    lemma_subrange_concat(s, 0, ia, i1);
    lemma_subrange_concat(s, 0, i1, ib);
    lemma_subrange_concat(s, 0, ib, i2);
    lemma_subrange_concat(s, 0, i2, s.len() as int);
    assert(s.subrange(i2, s.len() as int) =~= seq!['}']);
    assert(s.subrange(ib, i2) == ws_items(ws) + seq![']']);
    assert(s.subrange(0, s.len() as int) =~= s);
    assert(s == s.subrange(0, ib) + (ws_items(ws) + seq![']']) + seq!['}']);
    assert(s =~= (s.subrange(0, ib) + ws_items(ws)) + "]}"@) by {
        reveal_strlit("]}");
    }
    assert(s.subrange(0, ib) == ("{\"magic\":"@ + json_string(magic)) + ",\"ws\":["@);
    assert(s == discovery_response_json(dv));
}

/// Completeness of response parsing: the encoding of any response datagram
/// parses back to exactly that datagram.
#[verifier::spinoff_prover]
pub proof fn lemma_discovery_complete(s: Seq<char>, dv: DiscoveryResponseView)
    requires
        s == discovery_response_json(dv),
    ensures
        spec_parse_discovery(s) == Some(dv),
{
    reveal_strlit("{\"magic\":");
    reveal_strlit(",\"ws\":[");
    reveal_strlit("]}");
    assert(s.subrange(0, s.len() as int) =~= s);
    assert(s.subrange(0, s.len() as int) =~= "{\"magic\":"@ + (json_string(dv.magic) + (
    ",\"ws\":["@ + ((ws_items(dv.ws) + seq![']']) + seq!['}']))));
    lemma_peel(
        s,
        0,
        "{\"magic\":"@,
        json_string(dv.magic) + (",\"ws\":["@ + ((ws_items(dv.ws) + seq![']']) + seq!['}'])),
    );
    let ia = "{\"magic\":"@.len() as int;
    lemma_peel(s, ia, json_string(dv.magic), ",\"ws\":["@ + ((ws_items(dv.ws) + seq![']'])
        + seq!['}']));
    lemma_string_complete(s, ia, dv.magic);
    let i1 = ia + json_string(dv.magic).len() as int;
    lemma_peel(s, i1, ",\"ws\":["@, (ws_items(dv.ws) + seq![']']) + seq!['}']);
    let ib = i1 + ",\"ws\":["@.len() as int;
    lemma_ws_first_complete(s, ib, dv.ws, seq!['}']);
    lemma_peel(s, ib, ws_items(dv.ws) + seq![']'], seq!['}']);
    let i2 = ib + ws_items(dv.ws).len() as int + 1;
    assert(s[i2] == s.subrange(i2, s.len() as int)[0]);
    assert(s[i2] == '}');
    assert(i2 + 1 == s.len());
}

// ---------------------------------------------------------------------------
// The executable side
// ---------------------------------------------------------------------------

/// Why a received datagram was rejected.
#[derive(Clone, Copy, PartialEq, Eq, Structural, Debug)]
pub enum DiscoveryError {
    Malformed,
    InvalidMagic,
}

/// Build the probe datagram the agent multicasts: the request magic, the
/// socket's own address, and the protocol revision.
pub fn new_discovery_request(addr: String) -> (r: DiscoveryRequest)
    ensures
        r@.magic == magic_request(),
        r@.addr == addr@,
        r@.revision == DISCOVERY_REVISION,
{
    DiscoveryRequest { magic: "MXA-DISCOVER".to_owned(), addr, revision: DISCOVERY_REVISION }
}

/// Parse a received datagram as a response. A datagram parses exactly when
/// it is the canonical encoding of a response, and then to that response.
pub fn parse_discovery_response(s: &str) -> (r: Option<DiscoveryResponse>)
    ensures
        r matches Some(resp) ==> s@ == discovery_response_json(resp@),
        r is None ==> forall|dv: DiscoveryResponseView| s@ != discovery_response_json(dv),
{
    let v = chars_of(s);
    let parsed = parse_discovery_chars(&v);
    proof {
        match &parsed {
            Option::Some(resp) => {
                lemma_discovery_sound(s@);
            },
            Option::None => {
                assert forall|dv: DiscoveryResponseView| s@ != discovery_response_json(dv) by {
                    if s@ == discovery_response_json(dv) {
                        lemma_discovery_complete(s@, dv);
                    }
                }
            },
        }
    }
    parsed
}

/// Parse a datagram held as characters, refining `spec_parse_discovery`.
fn parse_discovery_chars(v: &Vec<char>) -> (r: Option<DiscoveryResponse>)
    ensures
        r matches Some(resp) ==> spec_parse_discovery(v@) == Some(resp@),
        r is None ==> spec_parse_discovery(v@) is None,
{
    let ia = match crate::parser::expect_lit(v, 0, "{\"magic\":") {
        Some(j) => j,
        None => {
            return None;
        },
    };
    let (magic, i1) = match crate::parser::parse_string_at(v, ia) {
        Some(p) => p,
        None => {
            return None;
        },
    };
    let ib = match crate::parser::expect_lit(v, i1, ",\"ws\":[") {
        Some(j) => j,
        None => {
            return None;
        },
    };
    let (ws, i2) = match parse_ws_array(v, ib) {
        Some(p) => p,
        None => {
            return None;
        },
    };
    if i2 < v.len() && i2 + 1 == v.len() && v[i2] == '}' {
        Some(DiscoveryResponse { magic, ws })
    } else {
        None
    }
}

/// Parse the array body after the opening bracket, refining
/// `spec_parse_ws_first`.
fn parse_ws_array(v: &Vec<char>, start: usize) -> (r: Option<(Vec<String>, usize)>)
    requires
        start <= v@.len(),
    ensures
        r is Some ==> spec_parse_ws_first(v@, start as int) == Some(
            (r->Some_0.0.deep_view(), r->Some_0.1 as int),
        ) && r->Some_0.1 <= v@.len(),
        r is None ==> spec_parse_ws_first(v@, start as int) is None,
{
    if start >= v.len() {
        return None;
    }
    let mut urls: Vec<String> = Vec::new();
    if v[start] == ']' {
        proof {
            assert(urls.deep_view() =~= Seq::<Seq<char>>::empty());
        }
        return Some((urls, start + 1));
    }
    let (u0, mut j) = match crate::parser::parse_string_at(v, start) {
        Some(p) => p,
        None => {
            return None;
        },
    };
    urls.push(u0);
    proof {
        match spec_parse_ws_rest(v@, j as int) {
            Option::Some((ts, e)) => {
                assert(urls.deep_view() =~= seq![urls@[0]@]);
                assert(urls.deep_view() + ts =~= seq![urls@[0]@] + ts);
            },
            Option::None => {},
        }
    }
    loop
        invariant
            start < v@.len(),
            j <= v@.len(),
            v@.len() <= usize::MAX,
            ({
                match spec_parse_ws_rest(v@, j as int) {
                    Option::Some((ts, e)) => spec_parse_ws_first(v@, start as int) == Some(
                        (urls.deep_view() + ts, e),
                    ),
                    Option::None => spec_parse_ws_first(v@, start as int) is None,
                }
            }),
        decreases v@.len() - j,
    {
        if j >= v.len() {
            return None;
        }
        let c = v[j];
        if c == ']' {
            proof {
                assert(spec_parse_ws_rest(v@, j as int) == Some((
                    Seq::<Seq<char>>::empty(),
                    j + 1 as int,
                )));
                assert(urls.deep_view() + Seq::<Seq<char>>::empty() =~= urls.deep_view());
            }
            return Some((urls, j + 1));
        }
        if c != ',' {
            return None;
        }
        let ghost old_urls = urls.deep_view();
        let ghost old_j: int = j as int;
        let (u, j2) = match crate::parser::parse_string_at(v, j + 1) {
            Some(p) => p,
            None => {
                return None;
            },
        };
        urls.push(u);
        j = j2;
        proof {
            let pushed = urls@.last()@;
            assert(urls.deep_view() =~= old_urls.push(pushed));
            match spec_parse_ws_rest(v@, j as int) {
                Option::Some((ts, e)) => {
                    assert(spec_parse_ws_rest(v@, old_j) == Some((seq![pushed] + ts, e)));
                    assert(old_urls + (seq![pushed] + ts) =~= urls.deep_view() + ts);
                },
                Option::None => {},
            }
        }
    }
}

/// The candidate URLs advertised by one datagram: the parsed response's list
/// where the magic word matches, and the reason for rejection otherwise.
/// A single bad datagram yields an error value, never an abort.
pub fn discovery_candidates(s: &str) -> (r: Result<Vec<String>, DiscoveryError>)
    ensures
        r matches Ok(urls) ==> s@ == discovery_response_json(
            DiscoveryResponseView { magic: magic_response(), ws: urls.deep_view() },
        ),
        r == Result::<Vec<String>, DiscoveryError>::Err(DiscoveryError::Malformed) <==> (forall|
            dv: DiscoveryResponseView,
        | s@ != discovery_response_json(dv)),
        r matches Err(e) && e == DiscoveryError::InvalidMagic ==> exists|
            dv: DiscoveryResponseView,
        | s@ == discovery_response_json(dv) && dv.magic != magic_response(),
        (exists|dv: DiscoveryResponseView|
            s@ == discovery_response_json(dv) && dv.magic == magic_response()) ==> r is Ok,
{
    match parse_discovery_response(s) {
        None => Err(DiscoveryError::Malformed),
        Some(resp) => {
            let expected: String = "MXA-RESPONSE".to_owned();
            if resp.magic == expected {
                proof {
                    let dv = DiscoveryResponseView {
                        magic: magic_response(),
                        ws: resp.ws.deep_view(),
                    };
                    assert(resp@ == dv);
                }
                Ok(resp.ws)
            } else {
                proof {
                    assert(resp@.magic != magic_response());
                    if exists|dv: DiscoveryResponseView|
                        s@ == discovery_response_json(dv) && dv.magic == magic_response() {
                        let dv = choose|dv: DiscoveryResponseView|
                            s@ == discovery_response_json(dv) && dv.magic == magic_response();
                        lemma_discovery_complete(s@, dv);
                        lemma_discovery_complete(s@, resp@);
                        assert(false);
                    }
                }
                Err(DiscoveryError::InvalidMagic)
            }
        },
    }
}

// ---------------------------------------------------------------------------
// Liveness filtering
// ---------------------------------------------------------------------------

/// The candidates that passed their probes, in their original order.
pub open spec fn filter_seq(urls: Seq<Seq<char>>, keep: Seq<bool>) -> Seq<Seq<char>>
    decreases urls.len(),
{
    if urls.len() == 0 {
        Seq::empty()
    } else if keep.last() {
        filter_seq(urls.drop_last(), keep.drop_last()).push(urls.last())
    } else {
        filter_seq(urls.drop_last(), keep.drop_last())
    }
}

/// Keep exactly the candidates whose liveness probe succeeded, in order:
/// `probe_ok[k]` reports the probe on `candidates[k]`. A URL that failed to
/// parse or to answer is dropped here, never fatal to the others.
pub fn retain_live(candidates: Vec<String>, probe_ok: &Vec<bool>) -> (r: Vec<String>)
    requires
        candidates@.len() == probe_ok@.len(),
    ensures
        r.deep_view() == filter_seq(candidates.deep_view(), probe_ok@),
{
    let mut out: Vec<String> = Vec::new();
    let mut k: usize = 0;
    proof {
        assert(out.deep_view() =~= filter_seq(
            candidates.deep_view().take(0),
            probe_ok@.take(0),
        ));
    }
    let n = candidates.len();
    let mut rest = candidates;
    let ghost all = rest.deep_view();
    while k < n
        invariant
            k <= n,
            n == all.len() == probe_ok@.len(),
            rest.deep_view() =~= all,
            out.deep_view() == filter_seq(all.take(k as int), probe_ok@.take(k as int)),
        decreases n - k,
    {
        let u = rest[k].clone();
        let ghost pre_out = out.deep_view();
        if probe_ok[k] {
            out.push(u);
        }
        proof {
            assert(all.take(k + 1).drop_last() =~= all.take(k as int));
            assert(probe_ok@.take(k + 1).drop_last() =~= probe_ok@.take(k as int));
            assert(all.take(k + 1).last() == all[k as int]);
            if probe_ok@[k as int] {
                assert(u@ == all[k as int]);
                assert(out.deep_view() =~= pre_out.push(u@));
            }
        }
        k = k + 1;
    }
    proof {
        assert(all.take(n as int) =~= all);
        assert(probe_ok@.take(n as int) =~= probe_ok@);
    }
    out
}

/// Candidates accumulated from several responders form the same set in
/// whichever order the responders answered.
pub proof fn lemma_accumulation_order_irrelevant(a: Seq<Seq<char>>, b: Seq<Seq<char>>)
    ensures
        (a + b).to_set() == (b + a).to_set(),
{
    assert forall|x: Seq<char>| (a + b).contains(x) implies (b + a).contains(x) by {
        let idx = choose|idx: int| 0 <= idx < (a + b).len() && (a + b)[idx] == x;
        if idx < a.len() {
            assert((b + a)[b.len() + idx] == x);
        } else {
            assert((b + a)[idx - a.len()] == x);
        }
    }
    assert forall|x: Seq<char>| (b + a).contains(x) implies (a + b).contains(x) by {
        let idx = choose|idx: int| 0 <= idx < (b + a).len() && (b + a)[idx] == x;
        if idx < b.len() {
            assert((a + b)[a.len() + idx] == x);
        } else {
            assert((a + b)[idx - b.len()] == x);
        }
    }
    assert((a + b).to_set() =~= (b + a).to_set());
}

} // verus!

