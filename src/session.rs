//! The line-level exchanges with a broker: the connection handshake and the
//! wait for a subscription's acknowledgment.
use vstd::prelude::*;
use vstd::string::{StringExecFns, StrSliceExecFns, StringSliceAdditionalSpecFns};
use crate::errors::{ErrorKind, NatsClientError};

verus! {

/// Whether `serde_json` reads the text as one JSON object.
pub uninterp spec fn is_json_object(s: Seq<char>) -> bool;

/// Relies on `serde_json::from_str` into a `serde_json::Map<String, Value>`,
/// which accepts a JSON object and nothing else: whether it succeeds depends
/// on the text alone.
#[verifier::external_body]
fn json_object_parses(s: &str) -> (r: bool)
    ensures
        r == is_json_object(s@),
{
    serde_json::from_str::<serde_json::Map<String, serde_json::Value>>(s).is_ok()
}

fn str_eq(a: &str, b: &str) -> (r: bool)
    ensures
        r == (a@ == b@),
{
    String::from_str(a) == String::from_str(b)
}

/// What to do with a line read while waiting for an acknowledgment.
#[derive(Debug)]
pub enum AckAction {
    /// The broker acknowledged.
    Done,
    /// A keepalive: answer `PONG\r\n` and go on waiting.
    SendPong,
    Fail(NatsClientError),
}

/// The acknowledgment `+OK\r\n`.
pub open spec fn ok_line() -> Seq<char> {
    "+OK\r\n"@
}

/// The keepalive `PING\r\n`.
pub open spec fn ping_line() -> Seq<char> {
    "PING\r\n"@
}

/// Classifies a line read while waiting for `+OK\r\n`.
pub fn ack_action(line: &str) -> (r: AckAction)
    ensures
        line.spec_bytes().len() < 4 ==> r is Fail && r->Fail_0.kind == ErrorKind::IoError
            && r->Fail_0.description == "Incomplete server response" && r->Fail_0.detail is None,
        line.spec_bytes().len() >= 4 && line@ == ok_line() ==> r is Done,
        line.spec_bytes().len() >= 4 && line@ == ping_line() ==> r is SendPong,
        line.spec_bytes().len() >= 4 && line@ != ok_line() && line@ != ping_line() ==> r is Fail
            && r->Fail_0.kind == ErrorKind::ServerProtocolError && r->Fail_0.description
            == "Received unexpect response from server" && r->Fail_0.detail is Some
            && r->Fail_0.detail->0@ == line@,
{
    proof {
        reveal_strlit("+OK\r\n");
        reveal_strlit("PING\r\n");
        assert(ok_line().len() != ping_line().len());
    }
    if line.as_bytes().len() < 4 {
        return AckAction::Fail(
            NatsClientError::new(ErrorKind::IoError, "Incomplete server response"),
        );
    }
    if str_eq(line, "+OK\r\n") {
        AckAction::Done
    } else if str_eq(line, "PING\r\n") {
        AckAction::SendPong
    } else {
        AckAction::Fail(
            NatsClientError::with_detail(
                ErrorKind::ServerProtocolError,
                "Received unexpect response from server",
                String::from_str(line),
            ),
        )
    }
}

/// The broker's first line is `INFO ` followed by a JSON object.
pub open spec fn starts_with_info(line: Seq<char>) -> bool {
    line.len() >= 5 && line.subrange(0, 5) == "INFO "@
}

/// Checks the broker's `INFO` line: long enough, with the `INFO ` prefix and
/// a JSON object after it. Each failure is a transport error.
pub fn check_info_line(line: &str) -> (r: Result<(), NatsClientError>)
    ensures
        r is Ok <==> line.spec_bytes().len() >= 7 && starts_with_info(line@) && is_json_object(
            line@.subrange(5, line@.len() as int),
        ),
        r is Err ==> r->Err_0.kind == ErrorKind::IoError && r->Err_0.detail is None,
        line.spec_bytes().len() < 7 ==> r is Err && r->Err_0.description == "Unexpect EOF",
        line.spec_bytes().len() >= 7 && !starts_with_info(line@) ==> r is Err
            && r->Err_0.description == "Server INFO not received",
        line.spec_bytes().len() >= 7 && starts_with_info(line@) && !is_json_object(
            line@.subrange(5, line@.len() as int),
        ) ==> r is Err && r->Err_0.description == "Invalid JSON object sent by the server",
{
    proof {
        reveal_strlit("INFO ");
    }
    if line.as_bytes().len() < 7 {
        return Err(NatsClientError::new(ErrorKind::IoError, "Unexpect EOF"));
    }
    let n = line.unicode_len();
    if n < 5 || !str_eq(line.substring_char(0, 5), "INFO ") {
        return Err(NatsClientError::new(ErrorKind::IoError, "Server INFO not received"));
    }
    if !json_object_parses(line.substring_char(5, n)) {
        return Err(NatsClientError::new(ErrorKind::IoError, "Invalid JSON object sent by the server"));
    }
    Ok(())
}

/// The client's handshake: `CONNECT <json>\nPING\n`.
pub fn connect_command(connect_json: &str) -> (r: String)
    ensures
        r@ == "CONNECT "@ + connect_json@ + "\nPING\n"@,
{
    String::from_str("CONNECT ").concat(connect_json).concat("\nPING\n")
}

/// Checks the broker's reply to the handshake, which must be `PONG\r\n`.
pub fn check_pong_line(line: &str) -> (r: Result<(), NatsClientError>)
    ensures
        r is Ok <==> line@ == "PONG\r\n"@,
        r is Err ==> r->Err_0.kind == ErrorKind::IoError && r->Err_0.detail is None,
        line.spec_bytes().len() != 6 ==> r is Err && r->Err_0.description == "Unexpected EOF",
        line.spec_bytes().len() == 6 && line@ != "PONG\r\n"@ ==> r is Err && r->Err_0.description
            == "Server PONG not received",
{
    proof {
        reveal_strlit("PONG\r\n");
    }
    if line.as_bytes().len() != 6 {
        proof {
            if line@ == "PONG\r\n"@ {
                assert(line.spec_bytes().len() == 6) by {
                    vstd::string::is_ascii_spec_bytes(line);
                }
            }
        }
        return Err(NatsClientError::new(ErrorKind::IoError, "Unexpected EOF"));
    }
    if !str_eq(line, "PONG\r\n") {
        return Err(NatsClientError::new(ErrorKind::IoError, "Server PONG not received"));
    }
    Ok(())
}

/// What the retry harness does after an attempt of an operation.
#[derive(Debug, Clone, Copy, PartialEq, Eq, Structural)]
pub enum RetryAction {
    /// Return the attempt's result.
    Finish,
    /// Make sure of the connection (reconnecting if needed), then attempt again.
    Reconnect,
    /// Return the last failure.
    GiveUp,
}

/// The retry harness's decision after `attempts` attempts, the last of which
/// succeeded or not. At most `RETRIES_MAX` attempts are made.
pub fn retry_action(attempts: u32, succeeded: bool) -> (r: RetryAction)
    ensures
        succeeded ==> r == RetryAction::Finish,
        !succeeded && attempts < crate::client::RETRIES_MAX ==> r == RetryAction::Reconnect,
        !succeeded && attempts >= crate::client::RETRIES_MAX ==> r == RetryAction::GiveUp,
{
    if succeeded {
        RetryAction::Finish
    } else if attempts < crate::client::RETRIES_MAX {
        RetryAction::Reconnect
    } else {
        RetryAction::GiveUp
    }
}

} // verus!
