use vstd::prelude::*;

verus! {

pub const ERROR_PARSE: i32 = 1;

pub const ERROR_MESSAGE_SIZE_TOO_LARGE: i32 = 2;

pub const ERROR_INVALID_SUBJECT: i32 = 3;

pub const ERROR_SUBSCRIBTION_NOT_FOUND: i32 = 4;

pub const ERROR_CONNECTION_CLOSED: i32 = 5;

pub const ERROR_UNKOWN_ERROR: i32 = 1000;

/// An error of the decoder, identified by one of the `ERROR_*` codes.
#[derive(Debug)]
pub struct NError {
    pub error_code: i32,
}

/// The text that `NError::description` gives for an error code.
pub open spec fn description_of(code: i32) -> Seq<char> {
    if code == ERROR_PARSE {
        "parse error"@
    } else {
        "unknown error"@
    }
}

impl NError {
    pub fn new(error_code: i32) -> (r: NError)
        ensures
            r.error_code == error_code,
    {
        NError { error_code }
    }

    pub fn description(&self) -> (r: &'static str)
        ensures
            r@ == description_of(self.error_code),
    {
        if self.error_code == ERROR_PARSE {
            "parse error"
        } else {
            "unknown error"
        }
    }
}

} // verus!
