//! Discrimination of framed bodies: a body is first read as UTF-8 text, then
//! tried as a JSON-RPC reply, then as a call; a body that is neither breaks
//! the stream. This is the computing core of the transport's reader.

use vstd::prelude::*;
use vstd::string::*;
use crate::framing::{spec_decode, decode_frame, DecodeResult, Decoded, FrameError};
use crate::types::ServerMessage;

verus! {

/// What parsing a body as a single JSON-RPC reply yields: `None` when the text
/// is not a reply, otherwise the reply's numeric correlation id if it carried
/// one.
pub uninterp spec fn response_id_of(s: Seq<char>) -> Option<Option<u64>>;

/// Whether a body parses as a single JSON-RPC call or notification.
pub uninterp spec fn parses_as_call(s: Seq<char>) -> bool;

/// Relies on `serde_json::from_str::<jsonrpc_core::Output>`: whether the text
/// is one JSON-RPC reply, a `result` or `error` object carrying an id; the
/// result depends on the text alone.
#[verifier::external_body]
fn try_parse_response(s: &str) -> (r: Option<Option<u64>>)
    ensures
        r == response_id_of(s@),
{
    let out: Result<jsonrpc_core::Output, serde_json::Error> = serde_json::from_str(s);
    match out {
        Err(_) => None,
        Ok(out) => {
            let id = match out {
                jsonrpc_core::Output::Success(s) => s.id,
                jsonrpc_core::Output::Failure(f) => f.id,
            };
            Some(match id {
                jsonrpc_core::Id::Num(n) => Some(n),
                jsonrpc_core::Id::Str(_) => None,
                jsonrpc_core::Id::Null => None,
            })
        },
    }
}

/// Relies on `serde_json::from_str::<jsonrpc_core::Call>`: whether the text is
/// one JSON-RPC call or notification; the result depends on the text alone.
#[verifier::external_body]
fn try_parse_call(s: &str) -> (r: bool)
    ensures
        r == parses_as_call(s@),
{
    serde_json::from_str::<jsonrpc_core::Call>(s).is_ok()
}

/// Relies on `String::from_utf8`: it succeeds exactly on valid UTF-8 and
/// returns the decoded text.
#[verifier::external_body]
fn utf8_to_string(bytes: Vec<u8>) -> (r: Option<String>)
    ensures
        r is Some <==> vstd::utf8::valid_utf8(bytes@),
        r is Some ==> r.unwrap()@ == vstd::utf8::decode_utf8(bytes@),
{
    String::from_utf8(bytes).ok()
}

/// How one body text classifies, over the two parse outcomes.
pub open spec fn classified(text: Seq<char>, r: Result<ServerMessage, FrameError>) -> bool {
    match response_id_of(text) {
        Some(id) => r matches Ok(ServerMessage::Response { id: rid, payload }) && rid == id
            && payload@ == text,
        None => if parses_as_call(text) {
            r matches Ok(ServerMessage::Request { payload }) && payload@ == text
        } else {
            r == Err::<ServerMessage, FrameError>(FrameError::BadJson)
        },
    }
}

/// Classify one body: a reply wins over a call, as a reply is the more
/// specific shape; a body that is neither is a fatal stream error.
pub fn classify_body(body: String) -> (r: Result<ServerMessage, FrameError>)
    ensures
        classified(body@, r),
{
    match try_parse_response(body.as_str()) {
        Some(id) => Ok(ServerMessage::Response { id, payload: body }),
        None => {
            if try_parse_call(body.as_str()) {
                Ok(ServerMessage::Request { payload: body })
            } else {
                Err(FrameError::BadJson)
            }
        },
    }
}

/// What one reader step yields on the buffered stream bytes.
pub enum ReadOutcome {
    /// No complete message yet: read more bytes.
    Incomplete,
    /// The stream is fatally malformed; the reader stops.
    Broken(FrameError),
    /// One message, and how many stream bytes its frame used.
    Message(ServerMessage, usize),
}

/// What a reader step must yield: frame decoding, UTF-8 decoding and JSON
/// classification chained, each failure mapped to its own fatal error.
pub open spec fn read_outcome_ok(w: Seq<u8>, r: ReadOutcome) -> bool {
    match spec_decode(w) {
        Decoded::Incomplete => r is Incomplete,
        Decoded::Bad(e) => r matches ReadOutcome::Broken(e2) && e2 == e,
        Decoded::Frame { body, used } => if !vstd::utf8::valid_utf8(body) {
            r matches ReadOutcome::Broken(e) && e == FrameError::BadUtf8
        } else {
            match r {
                ReadOutcome::Message(m, u) => u == used && classified(
                    vstd::utf8::decode_utf8(body),
                    Ok(m),
                ),
                ReadOutcome::Broken(e) => e == FrameError::BadJson && classified(
                    vstd::utf8::decode_utf8(body),
                    Err(e),
                ),
                ReadOutcome::Incomplete => false,
            }
        },
    }
}

/// One reader step: decode a frame off the front of the buffered bytes, read
/// its body as UTF-8 text, and classify the text as a reply or a call.
pub fn read_message(wire: &Vec<u8>) -> (r: ReadOutcome)
    ensures
        read_outcome_ok(wire@, r),
{
    match decode_frame(wire) {
        DecodeResult::Incomplete => ReadOutcome::Incomplete,
        DecodeResult::Bad(e) => ReadOutcome::Broken(e),
        DecodeResult::Frame(body, used) => {
            match utf8_to_string(body) {
                None => ReadOutcome::Broken(FrameError::BadUtf8),
                Some(text) => match classify_body(text) {
                    Ok(m) => ReadOutcome::Message(m, used),
                    Err(e) => ReadOutcome::Broken(e),
                },
            }
        },
    }
}

} // verus!
