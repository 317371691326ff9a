//! The connection state machine. Each call takes the connection's state and
//! one event read from the wire and returns the next state together with the
//! actions to perform: bytes to send, or a query to parse and execute. The
//! surrounding process does the socket reads and writes and runs the
//! external SQL parser; every decision is made here.

use crate::wire::{
    dec_bytes, encode_error_response, error_fields_bytes, frame_message, frame_spec, read_string,
    read_u16_be, read_u32_be, severity_bytes, u16_be_at, u32_be_bytes, ErrorSeverity,
    ProtocolError,
};
use vstd::prelude::*;
use vstd::utf8::{decode_utf8, encode_utf8, valid_utf8};

verus! {

/// Where one connection stands.
#[derive(PartialEq, Eq, Structural, Clone, Copy, Debug)]
pub enum ConnState {
    /// Expecting the first startup packet.
    AwaitStartup,
    /// An encryption request was declined with a one-byte reply; expecting a
    /// fresh startup packet.
    AwaitSecondStartup,
    /// Startup done; in the steady-state message loop. While the latch is
    /// set, extended-query messages are discarded until a Sync arrives.
    Ready { error_latch: bool },
    /// The connection is over, orderly or not.
    Closed,
}

/// One event read from the wire: a startup packet's body (the bytes after
/// the length word), or a framed message's tag and payload.
pub enum ConnEvent {
    Startup(Vec<u8>),
    Message(u8, Vec<u8>),
}

/// One thing the surrounding process must do in order.
pub enum ConnAction {
    /// Write these bytes to the client.
    Send(Vec<u8>),
    /// Open a transaction context, parse this text, read the store, and
    /// send the bytes `respond_query` builds from the results.
    RunQuery(String),
}

/// What one step decided.
pub struct StepResult {
    pub state: ConnState,
    pub actions: Vec<ConnAction>,
}

/// Every byte the actions send, in order.
pub open spec fn sent_bytes(acts: Seq<ConnAction>) -> Seq<u8>
    decreases acts.len(),
{
    if acts.len() == 0 {
        Seq::empty()
    } else {
        (match acts[0] {
            ConnAction::Send(v) => v@,
            ConnAction::RunQuery(_) => Seq::empty(),
        }) + sent_bytes(acts.drop_first())
    }
}

/// Every query text the actions run, in order.
pub open spec fn queries_of(acts: Seq<ConnAction>) -> Seq<Seq<char>>
    decreases acts.len(),
{
    if acts.len() == 0 {
        Seq::empty()
    } else {
        (match acts[0] {
            ConnAction::Send(_) => Seq::empty(),
            ConnAction::RunQuery(q) => seq![q@],
        }) + queries_of(acts.drop_first())
    }
}

/// The authentication-OK message: no credential check is made.
pub open spec fn auth_ok_msg() -> Seq<u8> {
    frame_spec(82u8, u32_be_bytes(0))
}

/// The bytes of "client_encoding", the one parameter the greeting echoes.
pub open spec fn client_encoding_bytes() -> Seq<u8> {
    seq![
        99u8,
        108u8,
        105u8,
        101u8,
        110u8,
        116u8,
        95u8,
        101u8,
        110u8,
        99u8,
        111u8,
        100u8,
        105u8,
        110u8,
        103u8,
    ]
}

/// The parameter-status message echoing the client's encoding.
pub open spec fn param_status_payload(enc: Seq<char>) -> Seq<u8> {
    client_encoding_bytes() + seq![0u8] + encode_utf8(enc) + seq![0u8]
}

/// The backend-key-data message; the key is a fixed placeholder, the bytes
/// of "abcdefgh".
pub open spec fn backend_key_msg() -> Seq<u8> {
    frame_spec(75u8, seq![97u8, 98u8, 99u8, 100u8, 101u8, 102u8, 103u8, 104u8])
}

/// The ready-for-query message, always reporting an idle transaction.
pub open spec fn ready_msg() -> Seq<u8> {
    frame_spec(90u8, seq![73u8])
}

/// An ErrorResponse payload with severity ERROR, a SQLSTATE, a message and
/// one detail field.
pub open spec fn error_payload(sqlstate: Seq<char>, message: Seq<char>, detail: Seq<char>)
    -> Seq<u8> {
    seq![83u8] + severity_bytes(ErrorSeverity::Error) + seq![0u8] + seq![86u8] + severity_bytes(
        ErrorSeverity::Error,
    ) + seq![0u8] + seq![67u8] + encode_utf8(sqlstate) + seq![0u8] + seq![77u8] + encode_utf8(
        message,
    ) + seq![0u8] + seq![68u8] + encode_utf8(detail) + seq![0u8] + seq![0u8]
}

/// A framed ErrorResponse with the given SQLSTATE, message and detail.
pub open spec fn error_response_msg(sqlstate: Seq<char>, message: Seq<char>, detail: Seq<char>)
    -> Seq<u8> {
    frame_spec(69u8, error_payload(sqlstate, message, detail))
}

/// Frame a message whose payload is known to fit the length word.
fn must_frame(tag: u8, payload: Vec<u8>) -> (r: Vec<u8>)
    requires
        payload@.len() + 4 <= u32::MAX,
    ensures
        r@ == frame_spec(tag, payload@),
{
    match frame_message(tag, &payload) {
        Ok(v) => v,
        Err(_) => {
            proof {
                assert(false);
            }
            Vec::new()
        },
    }
}

/// Build the ready-for-query message.
fn make_ready_msg() -> (r: Vec<u8>)
    ensures
        r@ == ready_msg(),
{
    let mut payload: Vec<u8> = Vec::new();
    payload.push(73);
    proof {
        assert(payload@ =~= seq![73u8]);
    }
    must_frame(90, payload)
}

/// A character sequence encodes to at least one and at most four bytes per
/// character.
pub proof fn lemma_encode_utf8_len(chars: Seq<char>)
    ensures
        chars.len() <= encode_utf8(chars).len() <= 4 * chars.len(),
    decreases chars.len(),
{
    if chars.len() > 0 {
        lemma_encode_utf8_len(chars.drop_first());
    }
}

/// Build an ErrorResponse from bounded fields, via the structured error
/// record.
fn make_error_response(sqlstate: &str, message: &str, detail: String) -> (r: Vec<u8>)
    requires
        sqlstate@.len() + message@.len() + detail@.len() <= 100000,
    ensures
        r@ == error_response_msg(sqlstate@, message@, detail@),
{
    let err = ProtocolError::with_detail(
        ErrorSeverity::Error,
        sqlstate.to_owned(),
        message.to_owned(),
        detail,
    );
    proof {
        lemma_encode_utf8_len(sqlstate@);
        lemma_encode_utf8_len(message@);
        lemma_encode_utf8_len(err.detail->Some_0@);
        assert(error_fields_bytes(err) =~= error_payload(sqlstate@, message@, err.detail->Some_0@));
        assert(error_fields_bytes(err).len() <= 30 + 4 * sqlstate@.len() + 4 * message@.len() + 4
            * err.detail->Some_0@.len());
    }
    match encode_error_response(&err) {
        Ok(v) => v,
        Err(_) => {
            proof {
                assert(false);
            }
            Vec::new()
        },
    }
}

/// Properties of the first zero byte at or after `start`.
pub proof fn lemma_first_zero(b: Seq<u8>, start: int)
    requires
        0 <= start <= b.len(),
    ensures
        match crate::wire::first_zero(b, start) {
            Option::None => forall|m: int| start <= m < b.len() ==> b[m] != 0,
            Option::Some(z) => start <= z < b.len() && b[z] == 0 && (forall|m: int|
                start <= m < z ==> b[m] != 0),
        },
    decreases b.len() - start,
{
    if start < b.len() && b[start] != 0 {
        lemma_first_zero(b, start + 1);
    }
}

/// The startup packet's key/value parameters, read from `off` on: pairs of
/// null-terminated strings, ended by an empty key, the packet's end, or an
/// unterminated tail. `None` means a field was not valid UTF-8, which is
/// fatal to the connection.
pub open spec fn params_spec(b: Seq<u8>, off: int) -> Option<Seq<(Seq<char>, Seq<char>)>>
    decreases b.len() - off,
{
    if off < 0 || off >= b.len() || b[off] == 0 {
        Some(Seq::empty())
    } else {
        match crate::wire::first_zero(b, off) {
            Option::None => Some(Seq::empty()),
            Option::Some(z1) => {
                if !valid_utf8(b.subrange(off, z1)) {
                    None
                } else {
                    match crate::wire::first_zero(b, z1 + 1) {
                        Option::None => Some(Seq::empty()),
                        Option::Some(z2) => {
                            if !valid_utf8(b.subrange(z1 + 1, z2)) {
                                None
                            } else if off <= z1 && z1 < z2 && z2 < b.len() {
                                match params_spec(b, z2 + 1) {
                                    Option::None => None,
                                    Option::Some(rest) => Some(
                                        seq![
                                            (
                                                decode_utf8(b.subrange(off, z1)),
                                                decode_utf8(b.subrange(z1 + 1, z2)),
                                            ),
                                        ] + rest,
                                    ),
                                }
                            } else {
                                Some(Seq::empty())
                            }
                        },
                    }
                }
            },
        }
    }
}

/// The parameter pairs as mathematical strings.
pub open spec fn params_view(ps: Seq<(String, String)>) -> Seq<(Seq<char>, Seq<char>)> {
    Seq::new(ps.len(), |i: int| (ps[i].0@, ps[i].1@))
}

/// The value of the last pair carrying `key`, the way repeated insertion
/// into a keyed map would keep it.
pub open spec fn lookup_param(ps: Seq<(Seq<char>, Seq<char>)>, key: Seq<char>) -> Option<Seq<char>>
    decreases ps.len(),
{
    if ps.len() == 0 {
        None
    } else if ps.last().0 == key {
        Some(ps.last().1)
    } else {
        lookup_param(ps.drop_last(), key)
    }
}

/// Read the startup parameters out of a packet body, from byte four on.
/// `None` reports invalid UTF-8.
fn parse_params(p: &Vec<u8>) -> (r: Option<Vec<(String, String)>>)
    requires
        p@.len() >= 4,
    ensures
        r is Some <==> params_spec(p@, 4) is Some,
        r matches Some(ps) ==> params_spec(p@, 4) == Some(params_view(ps@)),
{
    let mut params: Vec<(String, String)> = Vec::new();
    let mut off: usize = 4;
    let n = p.len();
    loop
        invariant
            4 <= off <= n,
            n == p@.len(),
            match params_spec(p@, off as int) {
                Option::None => params_spec(p@, 4) is None,
                Option::Some(rest) => params_spec(p@, 4) == Some(params_view(params@) + rest),
            },
        decreases n - off,
    {
        if off >= n || p[off] == 0 {
            proof {
                assert(params_spec(p@, off as int) == Some(Seq::<(Seq<char>, Seq<char>)>::empty()));
                assert(params_view(params@) + Seq::<(Seq<char>, Seq<char>)>::empty()
                    =~= params_view(params@));
            }
            return Some(params);
        }
        proof {
            lemma_first_zero(p@, off as int);
        }
        let key = match read_string(p, off) {
            Ok(kv) => kv,
            Err(utf8_bad) => {
                if utf8_bad {
                    return None;
                } else {
                    proof {
                        assert(params_spec(p@, off as int) == Some(
                            Seq::<(Seq<char>, Seq<char>)>::empty(),
                        ));
                        assert(params_view(params@) + Seq::<(Seq<char>, Seq<char>)>::empty()
                            =~= params_view(params@));
                    }
                    return Some(params);
                }
            },
        };
        let (key_str, key_len) = key;
        proof {
            lemma_first_zero(p@, off + key_len);
        }
        let value = match read_string(p, off + key_len) {
            Ok(kv) => kv,
            Err(utf8_bad) => {
                if utf8_bad {
                    return None;
                } else {
                    proof {
                        assert(params_spec(p@, off as int) == Some(
                            Seq::<(Seq<char>, Seq<char>)>::empty(),
                        ));
                        assert(params_view(params@) + Seq::<(Seq<char>, Seq<char>)>::empty()
                            =~= params_view(params@));
                    }
                    return Some(params);
                }
            },
        };
        let (value_str, value_len) = value;
        let ghost old_params = params@;
        let ghost z1 = off + key_len - 1;
        let ghost z2 = off + key_len + value_len - 1;
        params.push((key_str, value_str));
        proof {
            assert(crate::wire::first_zero(p@, off as int) == Some(z1));
            assert(crate::wire::first_zero(p@, z1 + 1) == Some(z2));
            assert(valid_utf8(p@.subrange(off as int, z1)));
            assert(valid_utf8(p@.subrange(z1 + 1, z2)));
            assert(off <= z1 && z1 < z2 && z2 < p@.len());
            assert(key_str@ == decode_utf8(p@.subrange(off as int, z1)));
            assert(value_str@ == decode_utf8(p@.subrange(z1 + 1, z2)));
            if params_spec(p@, z2 + 1) is None {
                assert(params_spec(p@, off as int) is None);
            } else {
                let rest2 = params_spec(p@, z2 + 1)->Some_0;
                assert(params_spec(p@, off as int) == Some(
                    seq![(key_str@, value_str@)] + rest2,
                ));
                assert(params_view(params@) =~= params_view(old_params).push(
                    (key_str@, value_str@),
                ));
                assert(params_view(old_params) + (seq![(key_str@, value_str@)] + rest2)
                    =~= params_view(params@) + rest2);
            }
        }
        off = off + key_len + value_len;
    }
}

/// Outcome of accepting a startup packet: on clean parameters, the
/// greeting — authentication OK, the echoed client encoding when one was
/// sent (unless its echo cannot be framed, which aborts after the first
/// message), backend key data, and ready-for-query. Invalid UTF-8 is fatal
/// with nothing sent.
pub open spec fn accept_outcome(p: Seq<u8>) -> (ConnState, Seq<u8>) {
    match params_spec(p, 4) {
        Option::None => (ConnState::Closed, Seq::empty()),
        Option::Some(ps) => match lookup_param(ps, "client_encoding"@) {
            Option::None => (
                ConnState::Ready { error_latch: false },
                auth_ok_msg() + backend_key_msg() + ready_msg(),
            ),
            Option::Some(enc) => {
                if param_status_payload(enc).len() + 4 <= u32::MAX {
                    (
                        ConnState::Ready { error_latch: false },
                        auth_ok_msg() + frame_spec(83u8, param_status_payload(enc))
                            + backend_key_msg() + ready_msg(),
                    )
                } else {
                    (ConnState::Closed, auth_ok_msg())
                }
            },
        },
    }
}

/// Outcome of the first startup packet: the version word decides between
/// the cancel pseudo-request (close silently), the two encryption requests
/// (decline with one byte and await a second packet), and plain acceptance.
/// A packet too short for the version word is fatal.
pub open spec fn startup_outcome(p: Seq<u8>) -> (ConnState, Seq<u8>) {
    if p.len() < 4 {
        (ConnState::Closed, Seq::empty())
    } else {
        let major = u16_be_at(p, 0);
        let minor = u16_be_at(p, 2);
        if major == 1234 && minor == 5678 {
            (ConnState::Closed, Seq::empty())
        } else if major == 1234 && (minor == 5679 || minor == 5680) {
            (ConnState::AwaitSecondStartup, seq![78u8])
        } else {
            accept_outcome(p)
        }
    }
}

/// Outcome of the packet re-read after declining encryption: accepted
/// directly, with no second look at the version word.
pub open spec fn second_startup_outcome(p: Seq<u8>) -> (ConnState, Seq<u8>) {
    if p.len() < 4 {
        (ConnState::Closed, Seq::empty())
    } else {
        accept_outcome(p)
    }
}

proof fn lemma_actions_empty()
    ensures
        sent_bytes(Seq::empty()) == Seq::<u8>::empty(),
        queries_of(Seq::empty()) == Seq::<Seq<char>>::empty(),
{
}

proof fn lemma_actions_single_send(v: Vec<u8>)
    ensures
        sent_bytes(seq![ConnAction::Send(v)]) =~= v@,
        queries_of(seq![ConnAction::Send(v)]) =~= Seq::<Seq<char>>::empty(),
{
    let s = seq![ConnAction::Send(v)];
    assert(s[0] == ConnAction::Send(v));
    assert(s.drop_first() =~= Seq::<ConnAction>::empty());
    assert(sent_bytes(Seq::<ConnAction>::empty()) =~= Seq::<u8>::empty());
    assert(queries_of(Seq::<ConnAction>::empty()) =~= Seq::<Seq<char>>::empty());
    assert(sent_bytes(s) =~= v@ + Seq::<u8>::empty());
    assert(queries_of(s) =~= Seq::<Seq<char>>::empty() + Seq::<Seq<char>>::empty());
}

proof fn lemma_actions_single_query(q: String)
    ensures
        sent_bytes(seq![ConnAction::RunQuery(q)]) =~= Seq::<u8>::empty(),
        queries_of(seq![ConnAction::RunQuery(q)]) =~= seq![q@],
{
    let s = seq![ConnAction::RunQuery(q)];
    assert(s[0] == ConnAction::RunQuery(q));
    assert(s.drop_first() =~= Seq::<ConnAction>::empty());
    assert(sent_bytes(Seq::<ConnAction>::empty()) =~= Seq::<u8>::empty());
    assert(queries_of(Seq::<ConnAction>::empty()) =~= Seq::<Seq<char>>::empty());
    assert(sent_bytes(s) =~= Seq::<u8>::empty() + Seq::<u8>::empty());
    assert(queries_of(s) =~= seq![q@] + Seq::<Seq<char>>::empty());
}

/// Find the client_encoding parameter, last occurrence winning.
fn lookup_client_encoding(params: &Vec<(String, String)>) -> (r: Option<String>)
    ensures
        match lookup_param(params_view(params@), "client_encoding"@) {
            Option::None => r is None,
            Option::Some(v) => r matches Some(s) && s@ == v,
        },
{
    let key = "client_encoding".to_owned();
    let mut i = params.len();
    proof {
        assert(params_view(params@).take(params@.len() as int) =~= params_view(params@));
    }
    while i > 0
        invariant
            0 <= i <= params@.len(),
            key@ == "client_encoding"@,
            lookup_param(params_view(params@), "client_encoding"@) == lookup_param(
                params_view(params@).take(i as int),
                "client_encoding"@,
            ),
        decreases i,
    {
        i = i - 1;
        let entry = &params[i];
        if entry.0 == key {
            proof {
                assert(params_view(params@).take(i + 1).last() == (entry.0@, entry.1@));
            }
            return Some(entry.1.clone());
        }
        proof {
            assert(params_view(params@).take(i + 1).last() == (entry.0@, entry.1@));
            assert(params_view(params@).take(i + 1).drop_last() =~= params_view(params@).take(
                i as int,
            ));
        }
    }
    proof {
        assert(params_view(params@).take(0) =~= Seq::<(Seq<char>, Seq<char>)>::empty());
    }
    None
}

/// Accept one startup packet: parse its parameters and emit the greeting.
fn accept_startup(p: &Vec<u8>) -> (r: StepResult)
    requires
        p@.len() >= 4,
    ensures
        r.state == accept_outcome(p@).0,
        sent_bytes(r.actions@) == accept_outcome(p@).1,
        queries_of(r.actions@) == Seq::<Seq<char>>::empty(),
{
    broadcast use vstd::utf8::is_ascii_chars_encode_utf8;

    match parse_params(p) {
        None => {
            proof {
                lemma_actions_empty();
            }
            StepResult { state: ConnState::Closed, actions: Vec::new() }
        },
        Some(params) => {
            let mut out: Vec<u8> = Vec::new();
            let mut pl: Vec<u8> = Vec::new();
            crate::wire::push_u32_be(&mut pl, 0);
            let mut auth = must_frame(82, pl);
            out.append(&mut auth);
            proof {
                assert(out@ =~= auth_ok_msg());
            }
            match lookup_client_encoding(&params) {
                Some(enc) => {
                    let mut spl: Vec<u8> = Vec::new();
                    spl.push(99);
                    spl.push(108);
                    spl.push(105);
                    spl.push(101);
                    spl.push(110);
                    spl.push(116);
                    spl.push(95);
                    spl.push(101);
                    spl.push(110);
                    spl.push(99);
                    spl.push(111);
                    spl.push(100);
                    spl.push(105);
                    spl.push(110);
                    spl.push(103);
                    spl.push(0);
                    let mut encb = vstd::string::StrSliceExecFns::as_bytes_vec(enc.as_str());
                    spl.append(&mut encb);
                    spl.push(0);
                    proof {
                        assert(spl@ =~= param_status_payload(enc@));
                    }
                    if spl.len() > (u32::MAX - 4) as usize {
                        let mut actions: Vec<ConnAction> = Vec::new();
                        actions.push(ConnAction::Send(out));
                        proof {
                            lemma_actions_single_send(actions@[0]->Send_0);
                            assert(actions@ =~= seq![actions@[0]]);
                        }
                        return StepResult { state: ConnState::Closed, actions };
                    }
                    let mut status = must_frame(83, spl);
                    out.append(&mut status);
                },
                None => {},
            }
            let mut kb: Vec<u8> = Vec::new();
            kb.push(97);
            kb.push(98);
            kb.push(99);
            kb.push(100);
            kb.push(101);
            kb.push(102);
            kb.push(103);
            kb.push(104);
            proof {
                assert(kb@ =~= seq![97u8, 98u8, 99u8, 100u8, 101u8, 102u8, 103u8, 104u8]);
            }
            let mut keymsg = must_frame(75, kb);
            out.append(&mut keymsg);
            let mut ready = make_ready_msg();
            out.append(&mut ready);
            proof {
                assert(out@ =~= accept_outcome(p@).1);
            }
            let mut actions: Vec<ConnAction> = Vec::new();
            actions.push(ConnAction::Send(out));
            proof {
                lemma_actions_single_send(actions@[0]->Send_0);
                assert(actions@ =~= seq![actions@[0]]);
            }
            StepResult { state: ConnState::Ready { error_latch: false }, actions }
        },
    }
}

/// A step that does nothing but stand in the given state.
fn no_actions(state: ConnState) -> (r: StepResult)
    ensures
        r.state == state,
        r.actions@ =~= Seq::<ConnAction>::empty(),
        sent_bytes(r.actions@) =~= Seq::<u8>::empty(),
        queries_of(r.actions@) =~= Seq::<Seq<char>>::empty(),
{
    StepResult { state, actions: Vec::new() }
}

/// A step that sends one buffer.
fn send_only(state: ConnState, v: Vec<u8>) -> (r: StepResult)
    ensures
        r.state == state,
        sent_bytes(r.actions@) =~= v@,
        queries_of(r.actions@) =~= Seq::<Seq<char>>::empty(),
{
    let ghost vv = v;
    let mut actions: Vec<ConnAction> = Vec::new();
    actions.push(ConnAction::Send(v));
    proof {
        assert(actions@ =~= seq![ConnAction::Send(vv)]);
        lemma_actions_single_send(vv);
    }
    StepResult { state, actions }
}

/// A step that hands one query text out to be parsed and executed.
fn query_only(state: ConnState, q: String) -> (r: StepResult)
    ensures
        r.state == state,
        sent_bytes(r.actions@) =~= Seq::<u8>::empty(),
        queries_of(r.actions@) =~= seq![q@],
{
    let ghost qq = q;
    let mut actions: Vec<ConnAction> = Vec::new();
    actions.push(ConnAction::RunQuery(q));
    proof {
        assert(actions@ =~= seq![ConnAction::RunQuery(qq)]);
        lemma_actions_single_query(qq);
    }
    StepResult { state, actions }
}

/// The ErrorResponse that rejects a named prepared statement.
pub open spec fn unsupported_prepared_msg() -> Seq<u8> {
    error_response_msg(
        "42000"@,
        "Unsupported"@,
        "Named prepared statements are not yet supported"@,
    )
}

/// The ErrorResponse that rejects declared parameter types.
pub open spec fn params_unsupported_msg() -> Seq<u8> {
    error_response_msg("42000"@, "Unsupported"@, "Parameters are not yet supported"@)
}

/// Outcome of a Parse message when the latch is clear: fatal on a malformed
/// payload; an error and the latch for a named statement or declared
/// parameter types; else ParseComplete. The statement is not retained.
pub open spec fn parse_msg_outcome(p: Seq<u8>) -> (ConnState, Seq<u8>) {
    match crate::wire::first_zero(p, 0) {
        Option::None => (ConnState::Closed, Seq::empty()),
        Option::Some(z1) => {
            if !valid_utf8(p.subrange(0, z1)) {
                (ConnState::Closed, Seq::empty())
            } else if z1 > 0 {
                (ConnState::Ready { error_latch: true }, unsupported_prepared_msg())
            } else {
                match crate::wire::first_zero(p, z1 + 1) {
                    Option::None => (ConnState::Closed, Seq::empty()),
                    Option::Some(z2) => {
                        if !valid_utf8(p.subrange(z1 + 1, z2)) {
                            (ConnState::Closed, Seq::empty())
                        } else if z2 + 3 > p.len() {
                            (ConnState::Closed, Seq::empty())
                        } else if u16_be_at(p, z2 + 1) > 0 {
                            (ConnState::Ready { error_latch: true }, params_unsupported_msg())
                        } else {
                            (
                                ConnState::Ready { error_latch: false },
                                frame_spec(49u8, Seq::empty()),
                            )
                        }
                    },
                }
            }
        },
    }
}

/// Outcome of an Execute message when the latch is clear: the statement
/// name and row limit are read and nothing is done with them; a malformed
/// payload is fatal.
pub open spec fn execute_msg_outcome(p: Seq<u8>) -> ConnState {
    match crate::wire::first_zero(p, 0) {
        Option::None => ConnState::Closed,
        Option::Some(z) => {
            if !valid_utf8(p.subrange(0, z)) {
                ConnState::Closed
            } else if z + 5 > p.len() {
                ConnState::Closed
            } else {
                ConnState::Ready { error_latch: false }
            }
        },
    }
}

/// Outcome of one steady-state message: the next state, the bytes to send,
/// and the query text to run, if any. While the latch is set, Parse, Bind,
/// Describe and Execute are discarded; Sync clears the latch and answers
/// ready-for-query; Query runs regardless of the latch; Terminate ends the
/// connection; unknown tags are skipped.
pub open spec fn msg_outcome(latch: bool, tag: u8, p: Seq<u8>) -> (
    ConnState,
    Seq<u8>,
    Option<Seq<char>>,
) {
    let latched = (ConnState::Ready { error_latch: true }, Seq::<u8>::empty(), None::<Seq<char>>);
    if tag == 80 {
        if latch {
            latched
        } else {
            let (s, b) = parse_msg_outcome(p);
            (s, b, None)
        }
    } else if tag == 66 {
        if latch {
            latched
        } else {
            (ConnState::Ready { error_latch: false }, frame_spec(50u8, Seq::empty()), None)
        }
    } else if tag == 68 {
        if latch {
            latched
        } else {
            (ConnState::Ready { error_latch: false }, frame_spec(116u8, seq![0u8, 0u8]), None)
        }
    } else if tag == 69 {
        if latch {
            latched
        } else {
            (execute_msg_outcome(p), Seq::empty(), None)
        }
    } else if tag == 83 {
        (ConnState::Ready { error_latch: false }, ready_msg(), None)
    } else if tag == 81 {
        match crate::wire::first_zero(p, 0) {
            Option::None => (ConnState::Closed, Seq::empty(), None),
            Option::Some(z) => {
                if !valid_utf8(p.subrange(0, z)) {
                    (ConnState::Closed, Seq::empty(), None)
                } else {
                    (
                        ConnState::Ready { error_latch: latch },
                        Seq::empty(),
                        Some(decode_utf8(p.subrange(0, z))),
                    )
                }
            },
        }
    } else if tag == 88 {
        (ConnState::Closed, Seq::empty(), None)
    } else {
        (ConnState::Ready { error_latch: latch }, Seq::empty(), None)
    }
}

/// Drive the connection by one event. The contract pins the next state, the
/// exact bytes the actions send, and the query texts they run, for every
/// state and event.
pub fn step(state: &ConnState, event: ConnEvent) -> (r: StepResult)
    ensures
        match event {
            ConnEvent::Startup(p) => match *state {
                ConnState::AwaitStartup => r.state == startup_outcome(p@).0 && sent_bytes(
                    r.actions@,
                ) == startup_outcome(p@).1 && queries_of(r.actions@) == Seq::<Seq<char>>::empty(),
                ConnState::AwaitSecondStartup => r.state == second_startup_outcome(p@).0
                    && sent_bytes(r.actions@) == second_startup_outcome(p@).1 && queries_of(
                    r.actions@,
                ) == Seq::<Seq<char>>::empty(),
                _ => r.state == *state && r.actions@ == Seq::<ConnAction>::empty(),
            },
            ConnEvent::Message(tag, p) => match *state {
                ConnState::Ready { error_latch } => {
                    let (ns, bytes, q) = msg_outcome(error_latch, tag, p@);
                    &&& r.state == ns
                    &&& sent_bytes(r.actions@) == bytes
                    &&& queries_of(r.actions@) == (match q {
                        Option::None => Seq::<Seq<char>>::empty(),
                        Option::Some(t) => seq![t],
                    })
                },
                _ => r.state == *state && r.actions@ == Seq::<ConnAction>::empty(),
            },
        },
{
    match event {
        ConnEvent::Startup(p) => {
            match state {
                ConnState::AwaitStartup => {
                    if p.len() < 4 {
                        return no_actions(ConnState::Closed);
                    }
                    let major = read_u16_be(&p, 0);
                    let minor = read_u16_be(&p, 2);
                    if major == 1234 && minor == 5678 {
                        no_actions(ConnState::Closed)
                    } else if major == 1234 && (minor == 5679 || minor == 5680) {
                        let mut n: Vec<u8> = Vec::new();
                        n.push(78);
                        proof {
                            assert(n@ =~= seq![78u8]);
                        }
                        send_only(ConnState::AwaitSecondStartup, n)
                    } else {
                        accept_startup(&p)
                    }
                },
                ConnState::AwaitSecondStartup => {
                    if p.len() < 4 {
                        return no_actions(ConnState::Closed);
                    }
                    accept_startup(&p)
                },
                ConnState::Ready { error_latch } => no_actions(
                    ConnState::Ready { error_latch: *error_latch },
                ),
                ConnState::Closed => no_actions(ConnState::Closed),
            }
        },
        ConnEvent::Message(tag, p) => {
            match state {
                ConnState::Ready { error_latch } => {
                    let latch = *error_latch;
                    step_message(latch, tag, p)
                },
                ConnState::AwaitStartup => no_actions(ConnState::AwaitStartup),
                ConnState::AwaitSecondStartup => no_actions(ConnState::AwaitSecondStartup),
                ConnState::Closed => no_actions(ConnState::Closed),
            }
        },
    }
}

/// Handle one steady-state message.
fn step_message(latch: bool, tag: u8, p: Vec<u8>) -> (r: StepResult)
    ensures
        ({
            let (ns, bytes, q) = msg_outcome(latch, tag, p@);
            &&& r.state == ns
            &&& sent_bytes(r.actions@) == bytes
            &&& queries_of(r.actions@) == (match q {
                Option::None => Seq::<Seq<char>>::empty(),
                Option::Some(t) => seq![t],
            })
        }),
{
    match tag {
        80u8 => {
            if latch {
                return no_actions(ConnState::Ready { error_latch: true });
            }
            match read_string(&p, 0) {
                Err(_) => no_actions(ConnState::Closed),
                Ok((_name, n1)) => {
                    if n1 > 1 {
                        proof {
                            reveal_strlit("42000");
                            reveal_strlit("Unsupported");
                            reveal_strlit("Named prepared statements are not yet supported");
                        }
                        let msg = make_error_response(
                            "42000",
                            "Unsupported",
                            "Named prepared statements are not yet supported".to_owned(),
                        );
                        send_only(ConnState::Ready { error_latch: true }, msg)
                    } else {
                        proof {
                            lemma_first_zero(p@, 0);
                        }
                        match read_string(&p, n1) {
                            Err(_) => no_actions(ConnState::Closed),
                            Ok((_query, n2)) => {
                                proof {
                                    lemma_first_zero(p@, n1 as int);
                                    vstd::std_specs::vec::axiom_spec_len(&p);
                                }
                                let off = n1 + n2;
                                if p.len() - off < 2 {
                                    no_actions(ConnState::Closed)
                                } else {
                                    let pdt_count = read_u16_be(&p, off);
                                    if pdt_count > 0 {
                                        proof {
                                            reveal_strlit("42000");
                                            reveal_strlit("Unsupported");
                                            reveal_strlit("Parameters are not yet supported");
                                        }
                                        let msg = make_error_response(
                                            "42000",
                                            "Unsupported",
                                            "Parameters are not yet supported".to_owned(),
                                        );
                                        send_only(ConnState::Ready { error_latch: true }, msg)
                                    } else {
                                        let pc = must_frame(49, Vec::new());
                                        send_only(ConnState::Ready { error_latch: false }, pc)
                                    }
                                }
                            },
                        }
                    }
                },
            }
        },
        66u8 => {
            if latch {
                no_actions(ConnState::Ready { error_latch: true })
            } else {
                let bc = must_frame(50, Vec::new());
                send_only(ConnState::Ready { error_latch: false }, bc)
            }
        },
        68u8 => {
            if latch {
                no_actions(ConnState::Ready { error_latch: true })
            } else {
                let mut pd: Vec<u8> = Vec::new();
                pd.push(0);
                pd.push(0);
                proof {
                    assert(pd@ =~= seq![0u8, 0u8]);
                }
                let msg = must_frame(116, pd);
                send_only(ConnState::Ready { error_latch: false }, msg)
            }
        },
        69u8 => {
            if latch {
                return no_actions(ConnState::Ready { error_latch: true });
            }
            match read_string(&p, 0) {
                Err(_) => no_actions(ConnState::Closed),
                Ok((_name, n)) => {
                    proof {
                        lemma_first_zero(p@, 0);
                    }
                    if p.len() - n < 4 {
                        no_actions(ConnState::Closed)
                    } else {
                        let _max_rows = read_u32_be(&p, n);
                        no_actions(ConnState::Ready { error_latch: false })
                    }
                },
            }
        },
        83u8 => {
            let ready = make_ready_msg();
            send_only(ConnState::Ready { error_latch: false }, ready)
        },
        81u8 => {
            match read_string(&p, 0) {
                Err(_) => no_actions(ConnState::Closed),
                Ok((query, _n)) => query_only(ConnState::Ready { error_latch: latch }, query),
            }
        },
        88u8 => no_actions(ConnState::Closed),
        _ => no_actions(ConnState::Ready { error_latch: latch }),
    }
}

/// The fixed two-column row description: the row index and "val", both
/// four-byte integers.
pub open spec fn row_desc_payload() -> Seq<u8> {
    seq![
        0u8,
        2u8,
        105u8,
        0u8,
        0u8,
        0u8,
        0u8,
        0u8,
        0u8,
        0u8,
        0u8,
        0u8,
        0u8,
        1u8,
        0u8,
        4u8,
        0u8,
        0u8,
        0u8,
        0u8,
        0u8,
        0u8,
        118u8,
        97u8,
        108u8,
        0u8,
        0u8,
        0u8,
        0u8,
        0u8,
        0u8,
        0u8,
        0u8,
        0u8,
        0u8,
        1u8,
        0u8,
        4u8,
        0u8,
        0u8,
        0u8,
        0u8,
        0u8,
        0u8,
    ]
}

/// The command-complete message, always reporting a SELECT.
pub open spec fn command_complete_msg() -> Seq<u8> {
    frame_spec(67u8, seq![83u8, 69u8, 76u8, 69u8, 67u8, 84u8, 0u8])
}

/// One data row: two length-prefixed text columns, the row index and the
/// decoded value; a null value is a column of length minus one.
pub open spec fn data_row_payload(i: nat, val: Option<i64>) -> Seq<u8> {
    seq![0u8, 2u8] + u32_be_bytes(dec_bytes(i).len() as u32) + dec_bytes(i) + (match val {
        Option::None => seq![255u8, 255u8, 255u8, 255u8],
        Option::Some(v) => u32_be_bytes(crate::wire::dec_signed_bytes(v as int).len() as u32)
            + crate::wire::dec_signed_bytes(v as int),
    })
}

/// One framed data-row message.
pub open spec fn data_row_msg(i: nat, val: Option<i64>) -> Seq<u8> {
    frame_spec(68u8, data_row_payload(i, val))
}

/// The data-row messages of a store snapshot, one per row, in row order.
pub open spec fn data_row_msgs(rows: Seq<Option<i64>>) -> Seq<Seq<u8>> {
    Seq::new(rows.len(), |i: int| data_row_msg(i as nat, rows[i]))
}

/// A list of byte strings, flattened in order.
pub open spec fn concat_bytes(s: Seq<Seq<u8>>) -> Seq<u8>
    decreases s.len(),
{
    if s.len() == 0 {
        Seq::empty()
    } else {
        s[0] + concat_bytes(s.drop_first())
    }
}

proof fn lemma_concat_push(s: Seq<Seq<u8>>, x: Seq<u8>)
    ensures
        concat_bytes(s.push(x)) =~= concat_bytes(s) + x,
    decreases s.len(),
{
    if s.len() == 0 {
        assert(s.push(x).drop_first() =~= Seq::<Seq<u8>>::empty());
        assert(s.push(x)[0] == x);
        assert(concat_bytes(Seq::<Seq<u8>>::empty()) =~= Seq::<u8>::empty());
        assert(concat_bytes(s.push(x)) =~= x + Seq::<u8>::empty());
    } else {
        assert(s.push(x).drop_first() =~= s.drop_first().push(x));
        lemma_concat_push(s.drop_first(), x);
        assert(s.push(x)[0] == s[0]);
    }
}

/// What a successful simple query sends: the row description, one data row
/// per store row, and command-complete.
pub open spec fn select_response(rows: Seq<Option<i64>>) -> Seq<u8> {
    frame_spec(84u8, row_desc_payload()) + concat_bytes(data_row_msgs(rows))
        + command_complete_msg()
}

/// What one parsed statement sends: an ErrorResponse when the plan builder
/// rejects it, else the full result set.
pub open spec fn stmt_response(st: crate::sqlast::Statement, rows: Seq<Option<i64>>) -> Seq<u8> {
    match crate::lqp::stmt_error(st) {
        Option::Some(e) => error_response_msg(
            "42000"@,
            "LQP error"@,
            crate::lqp::err_message(e),
        ),
        Option::None => select_response(rows),
    }
}

/// The per-statement responses of a whole query text, in statement order.
pub open spec fn stmts_responses(ss: Seq<crate::sqlast::Statement>, rows: Seq<Option<i64>>) -> Seq<
    Seq<u8>,
> {
    Seq::new(ss.len(), |j: int| stmt_response(ss[j], rows))
}

/// Every reason the FROM validator produces renders short.
proof fn lemma_from_error_len(from: Seq<crate::sqlast::TableWithJoins>)
    requires
        crate::lqp::from_error(from) is Some,
    ensures
        crate::lqp::err_message(crate::lqp::from_error(from)->Some_0).len() <= 100,
    decreases from.len(),
{
    reveal_strlit("JOIN");
    reveal_strlit("empty table name");
    reveal_strlit("TableFactor!=Table");
    reveal_strlit("Not supported: ");
    reveal_strlit("AST Error: ");
    if from.len() > 0 {
        let t = from[0];
        if t.joins > 0 {
        } else {
            match t.relation {
                crate::sqlast::TableFactor::Table { name } => {
                    if name@.len() > 0 {
                        lemma_from_error_len(from.drop_first());
                    }
                },
                crate::sqlast::TableFactor::Other => {},
            }
        }
    }
}

/// Every reason the SELECT-list validator produces renders short.
proof fn lemma_proj_error_len(items: Seq<crate::sqlast::SelectItem>)
    requires
        crate::lqp::proj_error(items) is Some,
    ensures
        crate::lqp::err_message(crate::lqp::proj_error(items)->Some_0).len() <= 100,
    decreases items.len(),
{
    reveal_strlit("Column expressions are not yet supported");
    reveal_strlit("Multipart function names are not supported");
    reveal_strlit("empty function name");
    reveal_strlit("Unsupported function name");
    reveal_strlit("Unsupported expression type");
    reveal_strlit("SelectItem != UnnamedExpr");
    reveal_strlit("Not supported: ");
    reveal_strlit("AST Error: ");
    if items.len() > 0 {
        match items[0] {
            crate::sqlast::SelectItem::UnnamedExpr(e) => match e {
                crate::sqlast::Expr::Identifier(id) => {
                    if id.value@ == "session_user"@ {
                        lemma_proj_error_len(items.drop_first());
                    }
                },
                crate::sqlast::Expr::Function(f) => {
                    if f.name@.len() == 1 && f.name@[0].value@ == "current_schema"@ {
                        lemma_proj_error_len(items.drop_first());
                    }
                },
                crate::sqlast::Expr::Other => {},
            },
            crate::sqlast::SelectItem::Other => {},
        }
    }
}

/// Every reason the plan builder produces renders short.
pub proof fn lemma_stmt_error_len(st: crate::sqlast::Statement)
    requires
        crate::lqp::stmt_error(st) is Some,
    ensures
        crate::lqp::err_message(crate::lqp::stmt_error(st)->Some_0).len() <= 100,
{
    reveal_strlit("WITH");
    reveal_strlit("ORDER BY");
    reveal_strlit("LIMIT");
    reveal_strlit("OFFSET");
    reveal_strlit("FETCH");
    reveal_strlit("SetExpr!=SELECT");
    reveal_strlit("DISTINCT");
    reveal_strlit("TOP");
    reveal_strlit("LATERAL VIEW");
    reveal_strlit("CLUSTER BY");
    reveal_strlit("DISTRIBUTE BY");
    reveal_strlit("SORT BY");
    reveal_strlit("Generic");
    reveal_strlit("Not supported: ");
    reveal_strlit("AST Error: ");
    match st {
        crate::sqlast::Statement::Query(q) => {
            if !q.with && q.order_by == 0 && !q.limit && !q.offset && !q.fetch {
                match q.body {
                    crate::sqlast::SetExpr::Select(s) => {
                        if !s.distinct && !s.top && s.lateral_views == 0 && s.cluster_by == 0
                            && s.distribute_by == 0 && s.sort_by == 0 {
                            if crate::lqp::from_error(s.from@) is Some {
                                lemma_from_error_len(s.from@);
                            } else {
                                lemma_proj_error_len(s.projection@);
                            }
                        }
                    },
                    crate::sqlast::SetExpr::Other => {},
                }
            }
        },
        crate::sqlast::Statement::Other => {},
    }
}

/// Build the framed row description.
fn make_row_desc() -> (r: Vec<u8>)
    ensures
        r@ == frame_spec(84u8, row_desc_payload()),
{
    let mut pl: Vec<u8> = Vec::new();
    pl.push(0);
    pl.push(2);
    pl.push(105);
    pl.push(0);
    pl.push(0);
    pl.push(0);
    pl.push(0);
    pl.push(0);
    pl.push(0);
    pl.push(0);
    pl.push(0);
    pl.push(0);
    pl.push(0);
    pl.push(1);
    pl.push(0);
    pl.push(4);
    pl.push(0);
    pl.push(0);
    pl.push(0);
    pl.push(0);
    pl.push(0);
    pl.push(0);
    pl.push(118);
    pl.push(97);
    pl.push(108);
    pl.push(0);
    pl.push(0);
    pl.push(0);
    pl.push(0);
    pl.push(0);
    pl.push(0);
    pl.push(0);
    pl.push(0);
    pl.push(0);
    pl.push(0);
    pl.push(1);
    pl.push(0);
    pl.push(4);
    pl.push(0);
    pl.push(0);
    pl.push(0);
    pl.push(0);
    pl.push(0);
    pl.push(0);
    proof {
        assert(pl@ =~= row_desc_payload());
    }
    must_frame(84, pl)
}

/// Build one framed data row.
fn make_data_row(i: usize, val: &Option<i64>) -> (r: Vec<u8>)
    ensures
        r@ == data_row_msg(i as nat, *val),
{
    let mut pl: Vec<u8> = Vec::new();
    pl.push(0);
    pl.push(2);
    let mut digits = crate::wire::dec_u64(i as u64);
    proof {
        crate::wire::lemma_dec_bytes_len(i as nat);
    }
    crate::wire::push_u32_be(&mut pl, digits.len() as u32);
    pl.append(&mut digits);
    match val {
        Option::None => {
            pl.push(255);
            pl.push(255);
            pl.push(255);
            pl.push(255);
        },
        Option::Some(v) => {
            let mut sd = crate::wire::dec_i64(*v);
            proof {
                crate::wire::lemma_dec_signed_bytes_len(*v as int);
            }
            crate::wire::push_u32_be(&mut pl, sd.len() as u32);
            pl.append(&mut sd);
        },
    }
    proof {
        assert(pl@ =~= data_row_payload(i as nat, *val));
    }
    must_frame(68, pl)
}

/// Build the framed command-complete message.
fn make_command_complete() -> (r: Vec<u8>)
    ensures
        r@ == command_complete_msg(),
{
    let mut pl: Vec<u8> = Vec::new();
    pl.push(83);
    pl.push(69);
    pl.push(76);
    pl.push(69);
    pl.push(67);
    pl.push(84);
    pl.push(0);
    proof {
        assert(pl@ =~= seq![83u8, 69u8, 76u8, 69u8, 67u8, 84u8, 0u8]);
    }
    must_frame(67, pl)
}

/// Build the full reply to one Query message: for each parsed statement
/// either its ErrorResponse or its result set, then ready-for-query. The
/// second component reports the one fatal case, a syntax-error message too
/// large to frame, after which nothing is sent and the connection ends.
#[verifier::loop_isolation(false)]
pub fn respond_query(stmts: &Result<Vec<crate::sqlast::Statement>, String>, rows: &Vec<Option<i64>>)
    -> (r: (Vec<u8>, bool))
    ensures
        match stmts {
            Result::Ok(ss) => r.0@ == concat_bytes(stmts_responses(ss@, rows@)) + ready_msg()
                && r.1 == false,
            Result::Err(m) => ({
                if error_payload("42601"@, "Syntax error"@, m@).len() + 4 <= u32::MAX {
                    r.0@ == error_response_msg("42601"@, "Syntax error"@, m@) + ready_msg() && r.1
                        == false
                } else {
                    r.0@ == Seq::<u8>::empty() && r.1 == true
                }
            }),
        },
{
    match stmts {
        Err(m) => {
            let err = ProtocolError::with_detail(
                ErrorSeverity::Error,
                "42601".to_owned(),
                "Syntax error".to_owned(),
                m.clone(),
            );
            proof {
                assert(error_fields_bytes(err) =~= error_payload(
                    "42601"@,
                    "Syntax error"@,
                    m@,
                ));
            }
            match encode_error_response(&err) {
                Ok(mut v) => {
                    let mut ready = make_ready_msg();
                    v.append(&mut ready);
                    (v, false)
                },
                Err(_) => (Vec::new(), true),
            }
        },
        Ok(ss) => {
            let mut out: Vec<u8> = Vec::new();
            let ghost resp = stmts_responses(ss@, rows@);
            let mut j: usize = 0;
            while j < ss.len()
                invariant
                    0 <= j <= ss@.len(),
                    out@ =~= concat_bytes(resp.take(j as int)),
                decreases ss@.len() - j,
            {
                let stmt = &ss[j];
                let ghost out_pre = out@;
                match crate::lqp::LQP::from(stmt) {
                    Ok(_lqp) => {
                        let mut rd = make_row_desc();
                        out.append(&mut rd);
                        let n = rows.len();
                        let ghost drm = data_row_msgs(rows@);
                        let mut i: usize = 0;
                        while i < n
                            invariant
                                0 <= i <= n,
                                out@ =~= out_pre + frame_spec(84u8, row_desc_payload())
                                    + concat_bytes(drm.take(i as int)),
                            decreases n - i,
                        {
                            let mut one = make_data_row(i, &rows[i]);
                            out.append(&mut one);
                            proof {
                                assert(drm.take(i + 1) =~= drm.take(i as int).push(drm[i as int]));
                                lemma_concat_push(drm.take(i as int), drm[i as int]);
                            }
                            i = i + 1;
                        }
                        let mut cc = make_command_complete();
                        out.append(&mut cc);
                        proof {
                            assert(drm.take(n as int) =~= drm);
                            assert(out@ =~= out_pre + stmt_response(ss@[j as int], rows@));
                        }
                    },
                    Err(e) => {
                        let msg = e.to_message();
                        proof {
                            lemma_stmt_error_len(ss@[j as int]);
                            reveal_strlit("42000");
                            reveal_strlit("LQP error");
                        }
                        let mut er = make_error_response("42000", "LQP error", msg);
                        out.append(&mut er);
                        proof {
                            assert(out@ =~= out_pre + stmt_response(ss@[j as int], rows@));
                        }
                    },
                }
                proof {
                    assert(resp.take(j + 1) =~= resp.take(j as int).push(resp[j as int]));
                    lemma_concat_push(resp.take(j as int), resp[j as int]);
                    assert(out@ =~= concat_bytes(resp.take(j + 1)));
                }
                j = j + 1;
            }
            let mut ready = make_ready_msg();
            out.append(&mut ready);
            proof {
                assert(resp.take(ss@.len() as int) =~= resp);
            }
            (out, false)
        },
    }
}

/// Declining an encryption request sends exactly one byte — nothing else —
/// and the machine then expects a fresh startup packet, which it accepts
/// without a second look at the version word.
pub proof fn lemma_encryption_denial(p: Seq<u8>)
    requires
        p.len() >= 4,
        u16_be_at(p, 0) == 1234,
        u16_be_at(p, 2) == 5679 || u16_be_at(p, 2) == 5680,
    ensures
        startup_outcome(p).0 == ConnState::AwaitSecondStartup,
        startup_outcome(p).1 == seq![78u8],
        startup_outcome(p).1.len() == 1,
        forall|p2: Seq<u8>|
            p2.len() >= 4 ==> #[trigger] second_startup_outcome(p2) == accept_outcome(p2),
{
}

/// The state reached and the bytes sent when a ready connection is driven
/// through a sequence of steady-state messages in order.
pub open spec fn run_messages(latch: bool, evts: Seq<(u8, Seq<u8>)>) -> (ConnState, Seq<u8>)
    decreases evts.len(),
{
    if evts.len() == 0 {
        (ConnState::Ready { error_latch: latch }, Seq::empty())
    } else {
        let (ns, bytes, _q) = msg_outcome(latch, evts[0].0, evts[0].1);
        match ns {
            ConnState::Ready { error_latch } => {
                let rest = run_messages(error_latch, evts.drop_first());
                (rest.0, bytes + rest.1)
            },
            _ => (ns, bytes),
        }
    }
}

/// However many Parse, Bind, Describe or Execute messages follow an
/// extended-query error, a latched connection discards them all: it stays
/// latched and sends nothing, until a Sync clears the latch.
pub proof fn lemma_latched_run_discards(evts: Seq<(u8, Seq<u8>)>)
    requires
        forall|k: int|
            0 <= k < evts.len() ==> ((#[trigger] evts[k]).0 == 80 || evts[k].0 == 66 || evts[k].0
                == 68 || evts[k].0 == 69),
    ensures
        run_messages(true, evts) == (
            ConnState::Ready { error_latch: true },
            Seq::<u8>::empty(),
        ),
    decreases evts.len(),
{
    if evts.len() > 0 {
        assert(evts[0].0 == 80 || evts[0].0 == 66 || evts[0].0 == 68 || evts[0].0 == 69);
        assert forall|k: int| 0 <= k < evts.drop_first().len() implies ((#[trigger] evts.drop_first()[k]).0
            == 80 || evts.drop_first()[k].0 == 66 || evts.drop_first()[k].0 == 68
            || evts.drop_first()[k].0 == 69) by {
            assert(evts.drop_first()[k] == evts[k + 1]);
        }
        lemma_latched_run_discards(evts.drop_first());
        assert(Seq::<u8>::empty() + Seq::<u8>::empty() =~= Seq::<u8>::empty());
    }
}

/// After an extended-query error the latch is set: a Parse naming a
/// non-empty prepared statement draws exactly one ErrorResponse; every
/// following Parse, Bind, Describe or Execute is discarded without a
/// reply and without leaving the latched state; and Sync clears the latch
/// and answers ready-for-query.
pub proof fn lemma_error_latch_recovery(evts: Seq<(u8, Seq<u8>)>, p: Seq<u8>, q: Seq<u8>)
    requires
        forall|k: int|
            0 <= k < evts.len() ==> ((#[trigger] evts[k]).0 == 80 || evts[k].0 == 66 || evts[k].0
                == 68 || evts[k].0 == 69),
    ensures
        (crate::wire::first_zero(p, 0) matches Some(z) && z > 0 && valid_utf8(p.subrange(0, z)))
            ==> parse_msg_outcome(p) == (
            ConnState::Ready { error_latch: true },
            unsupported_prepared_msg(),
        ),
        unsupported_prepared_msg()[0] == 69u8,
        forall|k: int|
            0 <= k < evts.len() ==> #[trigger] msg_outcome(true, evts[k].0, evts[k].1) == (
                ConnState::Ready { error_latch: true },
                Seq::<u8>::empty(),
                None::<Seq<char>>,
            ),
        msg_outcome(true, 83u8, q) == (
            ConnState::Ready { error_latch: false },
            ready_msg(),
            None::<Seq<char>>,
        ),
{
    assert(unsupported_prepared_msg()[0] == 69u8) by {
        let payload = error_payload(
            "42000"@,
            "Unsupported"@,
            "Named prepared statements are not yet supported"@,
        );
        assert(frame_spec(69u8, payload)[0] == 69u8);
    }
}

/// One data-row message is emitted per store row, each tagged as a data
/// row, standing between the row description and command-complete in a
/// successful result.
pub proof fn lemma_data_row_count(rows: Seq<Option<i64>>)
    ensures
        data_row_msgs(rows).len() == rows.len(),
        forall|i: int|
            0 <= i < rows.len() ==> (#[trigger] data_row_msgs(rows)[i])[0] == 68u8,
        select_response(rows) == frame_spec(84u8, row_desc_payload()) + concat_bytes(
            data_row_msgs(rows),
        ) + command_complete_msg(),
{
    assert forall|i: int| 0 <= i < rows.len() implies (#[trigger] data_row_msgs(rows)[i])[0]
        == 68u8 by {
        let m = data_row_msgs(rows)[i];
        assert(m == frame_spec(68u8, data_row_payload(i as nat, rows[i])));
        assert(m[0] == 68u8);
    }
}

} // verus!
