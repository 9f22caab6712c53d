//! HTTP status codes, as actix-web's `StatusCode` defines them.

use vstd::prelude::*;
use actix_web::http::StatusCode;

verus! {

/// `StatusCode::from_u16` followed by `StatusCode::as_u16` (the `http` crate
/// that actix-web re-exports). The source accepts exactly the numbers from 100
/// to 999 and stores the number it was given, which `as_u16` hands back.
#[verifier::external_body]
fn http_status_from_u16(n: u16) -> (r: Option<u16>)
    ensures
        r == (if 100 <= n <= 999 { Some(n) } else { None::<u16> }),
{
    match StatusCode::from_u16(n) {
        Ok(s) => Some(s.as_u16()),
        Err(_) => None,
    }
}

/// `StatusCode::OK.as_u16()`: the constant is defined with the number 200.
#[verifier::external_body]
fn http_status_ok() -> (r: u16)
    ensures
        r == 200,
{
    StatusCode::OK.as_u16()
}

/// `StatusCode::UNAUTHORIZED.as_u16()`: the constant is defined with the number 401.
#[verifier::external_body]
fn http_status_unauthorized() -> (r: u16)
    ensures
        r == 401,
{
    StatusCode::UNAUTHORIZED.as_u16()
}

/// `StatusCode::NOT_FOUND.as_u16()`: the constant is defined with the number 404.
#[verifier::external_body]
fn http_status_not_found() -> (r: u16)
    ensures
        r == 404,
{
    StatusCode::NOT_FOUND.as_u16()
}

/// `StatusCode::INTERNAL_SERVER_ERROR.as_u16()`: the constant is defined with
/// the number 500.
#[verifier::external_body]
fn http_status_internal_server_error() -> (r: u16)
    ensures
        r == 500,
{
    StatusCode::INTERNAL_SERVER_ERROR.as_u16()
}

/// The numbers that an HTTP status code can take.
pub open spec fn valid_status(n: int) -> bool {
    100 <= n <= 999
}

/// A valid HTTP status code: a number from 100 to 999.
#[derive(Clone, Copy, Debug, PartialEq, Eq, Structural)]
pub struct Status {
    code: u16,
}

impl View for Status {
    type V = u16;

    closed spec fn view(&self) -> u16 {
        self.code
    }
}

impl Status {
    #[verifier::type_invariant]
    spec fn inv(self) -> bool {
        valid_status(self.code as int)
    }

    /// The status with the given number, if the number is a valid status code.
    pub fn from_u16(n: u16) -> (r: Option<Status>)
        ensures
            r is Some <==> valid_status(n as int),
            r matches Some(s) ==> s@ == n,
    {
        match http_status_from_u16(n) {
            Some(code) => Some(Status { code }),
            None => None,
        }
    }

    /// The number of the status code.
    pub fn as_u16(&self) -> (r: u16)
        ensures
            r == self@,
            valid_status(r as int),
    {
        proof {
            use_type_invariant(self);
        }
        self.code
    }

    /// 200 OK.
    pub fn ok() -> (r: Status)
        ensures
            r@ == 200,
    {
        Status { code: http_status_ok() }
    }

    /// 401 Unauthorized.
    pub fn unauthorized() -> (r: Status)
        ensures
            r@ == 401,
    {
        Status { code: http_status_unauthorized() }
    }

    /// 404 Not Found.
    pub fn not_found() -> (r: Status)
        ensures
            r@ == 404,
    {
        Status { code: http_status_not_found() }
    }

    /// 500 Internal Server Error.
    pub fn internal_server_error() -> (r: Status)
        ensures
            r@ == 500,
    {
        Status { code: http_status_internal_server_error() }
    }
}

} // verus!
