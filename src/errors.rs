//! Errors of the client side.
use vstd::prelude::*;
use vstd::string::StringExecFns;

verus! {

#[derive(PartialEq, Eq, Copy, Clone, Debug, Structural)]
pub enum ErrorKind {
    ClientProtocolError,
    InvalidClientConfig,
    IoError,
    InvalidSchemeError,
    ServerProtocolError,
    TypeError,
    ClusterUnreachable,
}

/// A client error: its kind, a fixed description, for some errors the
/// offending text, and for an error that wraps one of the transport or of the
/// URL parser, that error's own text.
#[derive(Debug)]
pub struct NatsClientError {
    pub kind: ErrorKind,
    pub description: &'static str,
    pub detail: Option<String>,
    pub source: Option<String>,
}

/// Relies on the `Display` impl of `url::ParseError` for its message.
#[verifier::external_body]
fn url_error_text(e: &url::ParseError) -> (r: String) {
    e.to_string()
}

#[verifier::external_type_specification]
#[verifier::external_body]
pub struct ExUrlParseError(url::ParseError);

impl NatsClientError {
    pub fn new(kind: ErrorKind, description: &'static str) -> (r: NatsClientError)
        ensures
            r.kind == kind,
            r.description == description,
            r.detail is None,
            r.source is None,
    {
        NatsClientError { kind, description, detail: None, source: None }
    }

    pub fn with_detail(kind: ErrorKind, description: &'static str, detail: String) -> (r:
        NatsClientError)
        ensures
            r.kind == kind,
            r.description == description,
            r.detail == Some(detail),
            r.source is None,
    {
        NatsClientError { kind, description, detail: Some(detail), source: None }
    }

    /// An error that wraps another one, whose text is `source`.
    pub fn from_source(kind: ErrorKind, description: &'static str, source: String) -> (r:
        NatsClientError)
        ensures
            r.kind == kind,
            r.description == description,
            r.detail is None,
            r.source == Some(source),
    {
        NatsClientError { kind, description, detail: None, source: Some(source) }
    }

    /// A URI that does not parse is a configuration error.
    pub fn from_url_error(e: url::ParseError) -> (r: NatsClientError)
        ensures
            r.kind == ErrorKind::InvalidClientConfig,
            r.description == "Invalid URI",
            r.detail is None,
            r.source is Some,
    {
        NatsClientError::from_source(ErrorKind::InvalidClientConfig, "Invalid URI", url_error_text(&e))
    }

    pub fn kind(&self) -> (r: ErrorKind)
        ensures
            r == self.kind,
    {
        self.kind
    }

    pub fn description(&self) -> (r: &'static str)
        ensures
            r == self.description,
    {
        self.description
    }

    /// The wrapped error's own text where there is one; else the description,
    /// followed by `": "` and the detail where there is one.
    pub fn message(&self) -> (r: String)
        ensures
            r@ == match self.source {
                Some(t) => t@,
                None => match self.detail {
                    Some(d) => self.description@ + ": "@ + d@,
                    None => self.description@,
                },
            },
    {
        if let Some(t) = &self.source {
            return t.clone();
        }
        let s = String::from_str(self.description);
        match &self.detail {
            Some(d) => s.concat(": ").concat(d.as_str()),
            None => s,
        }
    }
}

} // verus!
