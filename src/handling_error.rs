//! Why a resource did not produce its normal response, and which response code to send.
use crate::message::{
    CODE_BAD_REQUEST, CODE_INTERNAL_SERVER_ERROR, CODE_METHOD_NOT_ALLOWED, CODE_NOT_FOUND,
};
use vstd::prelude::*;

verus! {

/// A response code to send with a text message, or no code: the request is dropped unanswered.
#[derive(Debug)]
pub struct HandlingError {
    pub code: Option<u8>,
    pub message: String,
}

impl HandlingError {
    /// The resource declines the request: no reply.
    pub fn not_handled() -> (r: HandlingError)
        ensures
            r.code is None,
            r.message@ == "Not handled"@,
    {
        HandlingError { code: None, message: "Not handled".to_owned() }
    }

    /// 4.04.
    pub fn not_found() -> (r: HandlingError)
        ensures
            r.code == Some(CODE_NOT_FOUND),
            r.message@ == "Not found"@,
    {
        Self::with_code(CODE_NOT_FOUND, "Not found")
    }

    /// 4.00 with `e` as the body.
    pub fn bad_request(e: &str) -> (r: HandlingError)
        ensures
            r.code == Some(CODE_BAD_REQUEST),
            r.message@ == e@,
    {
        Self::with_code(CODE_BAD_REQUEST, e)
    }

    /// 5.00 with `e` as the body.
    pub fn internal(e: &str) -> (r: HandlingError)
        ensures
            r.code == Some(CODE_INTERNAL_SERVER_ERROR),
            r.message@ == e@,
    {
        Self::with_code(CODE_INTERNAL_SERVER_ERROR, e)
    }

    /// 4.05.
    pub fn method_not_supported() -> (r: HandlingError)
        ensures
            r.code == Some(CODE_METHOD_NOT_ALLOWED),
            r.message@ == "Method not supported"@,
    {
        Self::with_code(CODE_METHOD_NOT_ALLOWED, "Method not supported")
    }

    /// Response code `code` with `e` as the body.
    pub fn with_code(code: u8, e: &str) -> (r: HandlingError)
        ensures
            r.code == Some(code),
            r.message@ == e@,
    {
        HandlingError { code: Some(code), message: e.to_owned() }
    }
}

} // verus!
