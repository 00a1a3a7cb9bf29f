//! JSON-RPC envelopes as they travel in frames.
//!
//! Outbound envelopes are written here byte for byte, with their members in
//! the order `id`, `jsonrpc`, `method`, `params`; only the quoting of the
//! method name is left to serde_json. Inbound frames are parsed by serde_json
//! and reduced to the three members that correlation reads.
use vstd::prelude::*;

use crate::framing::{decimal, encode_frame, frame_bytes, push_decimal};
use std::vec::Vec;

verus! {

#[verifier::external_type_specification]
#[verifier::external_body]
pub struct ExJsonValue(serde_json::Value);

/// The JSON string literal that serde_json writes for `s`.
pub uninterp spec fn json_string_bytes(s: Seq<char>) -> Seq<u8>;

/// Whether serde_json reads `b` as one JSON document.
pub uninterp spec fn json_value_parses(b: Seq<u8>) -> bool;

/// The member `key` of the JSON document `b`, where `b` is an object that has
/// such a member and it is a number that fits in `u64`.
pub uninterp spec fn json_u64_member(b: Seq<u8>, key: Seq<char>) -> Option<u64>;

/// Whether the JSON document `b` is an object with a member `key`.
pub uninterp spec fn json_has_member(b: Seq<u8>, key: Seq<char>) -> bool;

/// Relies on serde_json::to_vec on a `str`: the string as a JSON literal,
/// quotes and escapes included. Serialising a `str` into memory cannot fail.
#[verifier::external_body]
fn quote_json_string(s: &str) -> (r: Vec<u8>)
    ensures
        r@ == json_string_bytes(s@),
{
    serde_json::to_vec(s).unwrap_or_default()
}

/// `{"id":`
pub open spec fn open_id() -> Seq<u8> {
    seq![123u8, 34u8, 105u8, 100u8, 34u8, 58u8]
}

/// `,"jsonrpc":"2.0","method":`
pub open spec fn version_then_method() -> Seq<u8> {
    seq![
        44u8, 34u8, 106u8, 115u8, 111u8, 110u8, 114u8, 112u8, 99u8, 34u8, 58u8, 34u8, 50u8, 46u8, 48u8,
        34u8, 44u8, 34u8, 109u8, 101u8, 116u8, 104u8, 111u8, 100u8, 34u8, 58u8,
    ]
}

/// `{"jsonrpc":"2.0","method":`
pub open spec fn open_version_then_method() -> Seq<u8> {
    seq![123u8].add(version_then_method().drop_first())
}

/// `,"params":`
pub open spec fn params_key() -> Seq<u8> {
    seq![44u8, 34u8, 112u8, 97u8, 114u8, 97u8, 109u8, 115u8, 34u8, 58u8]
}

pub open spec fn close_brace() -> Seq<u8> {
    seq![125u8]
}

/// The envelope of request `id`: `{"id":..,"jsonrpc":"2.0","method":..,"params":..}`.
pub open spec fn request_json(id: u64, method: Seq<char>, params: Seq<u8>) -> Seq<u8> {
    open_id() + decimal(id as nat) + version_then_method() + json_string_bytes(method) + params_key()
        + params + close_brace()
}

/// The envelope of a notification, which carries no identifier; `params` is
/// left out when there are none.
pub open spec fn notification_json(method: Seq<char>, params: Option<Seq<u8>>) -> Seq<u8> {
    open_version_then_method() + json_string_bytes(method) + match params {
        Some(p) => params_key() + p,
        None => Seq::empty(),
    } + close_brace()
}

fn push_all(out: &mut Vec<u8>, bytes: &[u8])
    ensures
        final(out)@ == old(out)@ + bytes@,
{
    let mut k: usize = 0;
    while k < bytes.len()
        invariant
            k <= bytes@.len(),
            out@ == old(out)@ + bytes@.subrange(0, k as int),
        decreases bytes@.len() - k,
    {
        out.push(bytes[k]);
        k = k + 1;
        assert(out@ =~= old(out)@ + bytes@.subrange(0, k as int));
    }
    assert(bytes@.subrange(0, bytes@.len() as int) =~= bytes@);
}

fn push_version_then_method(out: &mut Vec<u8>)
    ensures
        final(out)@ == old(out)@ + version_then_method(),
{
    let piece: Vec<u8> = vec![
        44u8, 34u8, 106u8, 115u8, 111u8, 110u8, 114u8, 112u8, 99u8, 34u8, 58u8, 34u8, 50u8, 46u8, 48u8,
        34u8, 44u8, 34u8, 109u8, 101u8, 116u8, 104u8, 111u8, 100u8, 34u8, 58u8,
    ];
    assert(piece@ =~= version_then_method());
    push_all(out, piece.as_slice());
}

fn push_params_key(out: &mut Vec<u8>)
    ensures
        final(out)@ == old(out)@ + params_key(),
{
    let piece: Vec<u8> = vec![44u8, 34u8, 112u8, 97u8, 114u8, 97u8, 109u8, 115u8, 34u8, 58u8];
    assert(piece@ =~= params_key());
    push_all(out, piece.as_slice());
}

/// The frame of request `id` for `method`, whose parameters are the JSON
/// text `params`.
pub fn encode_request(id: u64, method: &str, params: &[u8]) -> (r: Vec<u8>)
    ensures
        r@ == frame_bytes(request_json(id, method@, params@)),
{
    let mut body: Vec<u8> = vec![123u8, 34u8, 105u8, 100u8, 34u8, 58u8];
    assert(body@ =~= open_id());
    push_decimal(&mut body, id);
    push_version_then_method(&mut body);
    let quoted = quote_json_string(method);
    push_all(&mut body, quoted.as_slice());
    push_params_key(&mut body);
    push_all(&mut body, params);
    body.push(125u8);
    assert(body@ =~= request_json(id, method@, params@));
    encode_frame(body.as_slice())
}

/// The frame of a notification for `method`, with the JSON text `params`
/// when there are parameters.
pub fn encode_notification(method: &str, params: Option<&[u8]>) -> (r: Vec<u8>)
    ensures
        r@ == frame_bytes(
            notification_json(
                method@,
                match params {
                    Some(p) => Some(p@),
                    None => None,
                },
            ),
        ),
{
    let mut body: Vec<u8> = vec![123u8];
    let mut head: Vec<u8> = Vec::new();
    push_version_then_method(&mut head);
    push_all(&mut body, head.as_slice().split_at(1).1);
    assert(body@ =~= open_version_then_method());
    let quoted = quote_json_string(method);
    push_all(&mut body, quoted.as_slice());
    match params {
        Some(p) => {
            push_params_key(&mut body);
            push_all(&mut body, p);
        },
        None => {},
    }
    body.push(125u8);
    assert(body@ =~= notification_json(
        method@,
        match params {
            Some(p) => Some(p@),
            None => None,
        },
    ));
    encode_frame(body.as_slice())
}

/// What correlation reads of an inbound envelope: its identifier, when it
/// is a number that fits in `u64`, and its `result` and `error` members.
#[derive(Debug, PartialEq, Eq)]
pub struct InboundMessage {
    pub id: Option<u64>,
    pub result: Option<serde_json::Value>,
    pub error: Option<serde_json::Value>,
}

/// Relies on serde_json::from_slice into a `Value`, which succeeds exactly on
/// the byte strings that hold one JSON document, and on `Value::get`,
/// `Value::as_u64` and `Option::cloned` to take the `id`, `result` and
/// `error` members out of it.
#[verifier::external_body]
fn read_envelope(payload: &[u8]) -> (r: Option<InboundMessage>)
    ensures
        r is Some <==> json_value_parses(payload@),
        r matches Some(m) ==> {
            &&& m.id == json_u64_member(payload@, "id"@)
            &&& (m.result is Some <==> json_has_member(payload@, "result"@))
            &&& (m.error is Some <==> json_has_member(payload@, "error"@))
        },
{
    let v: serde_json::Value = serde_json::from_slice(payload).ok()?;
    Some(InboundMessage {
        id: v.get("id").and_then(serde_json::Value::as_u64),
        result: v.get("result").cloned(),
        error: v.get("error").cloned(),
    })
}

/// Reads the payload of an inbound frame; `None` when it is not JSON, and
/// the frame is then passed over. The identifier is the `id` member when it
/// is a number that fits in `u64`; `result` and `error` are present exactly
/// when the envelope has those members.
pub fn decode_inbound(payload: &[u8]) -> (r: Option<InboundMessage>)
    ensures
        r is Some <==> json_value_parses(payload@),
        r matches Some(m) ==> {
            &&& m.id == json_u64_member(payload@, "id"@)
            &&& (m.result is Some <==> json_has_member(payload@, "result"@))
            &&& (m.error is Some <==> json_has_member(payload@, "error"@))
        },
{
    read_envelope(payload)
}

/// A notification to send: it carries no identifier and gets no reply.
#[derive(Debug, Clone, PartialEq, Eq)]
pub struct LspNotification {
    pub method: String,
    pub params: Option<Vec<u8>>,
}

/// A message queued for the single writer; parameters are JSON text.
#[derive(Debug, Clone, PartialEq, Eq)]
pub enum LspMessage {
    Request { id: u64, method: String, params: Vec<u8> },
    Notification(LspNotification),
}

/// The envelope that a queued message is sent as.
pub open spec fn message_json(m: LspMessage) -> Seq<u8> {
    match m {
        LspMessage::Request { id, method, params } => request_json(id, method@, params@),
        LspMessage::Notification(n) => notification_json(
            n.method@,
            match n.params {
                Some(p) => Some(p@),
                None => None,
            },
        ),
    }
}

impl LspMessage {
    /// The frame that carries this message on the wire.
    pub fn to_frame(&self) -> (r: Vec<u8>)
        ensures
            r@ == frame_bytes(message_json(*self)),
    {
        match self {
            LspMessage::Request { id, method, params } => encode_request(
                *id,
                method.as_str(),
                params.as_slice(),
            ),
            LspMessage::Notification(n) => match &n.params {
                Some(p) => encode_notification(n.method.as_str(), Some(p.as_slice())),
                None => encode_notification(n.method.as_str(), None),
            },
        }
    }
}

} // verus!
