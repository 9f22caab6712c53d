//! The authentication middleware: every request must carry a `token` header.

use vstd::prelude::*;
use crate::response::Response;
use crate::text::push_char;

verus! {

/// The middleware factory: wraps a service in an `AuthenticationMiddleware`.
pub struct Authentication;

/// The middleware around the next service.
pub struct AuthenticationMiddleware<S> {
    /// The next service to call
    service: S,
}

impl Authentication {
    /// Wraps the next service.
    pub fn new_transform<S>(&self, service: S) -> (r: AuthenticationMiddleware<S>)
        ensures
            r.next() == service,
    {
        AuthenticationMiddleware { service }
    }
}

/// A header byte that `HeaderValue::to_str` accepts: a visible ASCII
/// character, a space or a tab.
pub open spec fn is_visible_ascii(b: u8) -> bool {
    (32 <= b && b < 127) || b == 9
}

/// `HeaderValue::to_str` reads the value as text: every byte is accepted.
pub open spec fn readable_token(t: Seq<u8>) -> bool {
    forall|i: int| 0 <= i < t.len() ==> is_visible_ascii(#[trigger] t[i])
}

/// The text of a readable header value: one character per byte.
pub open spec fn token_text(t: Seq<u8>) -> Seq<char> {
    t.map_values(|b: u8| b as char)
}

/// The outcome of checking a request's token.
pub enum TokenCheck {
    /// The token is present and readable as text; the reply of the next
    /// service goes out unchanged.
    Accept(String),
    /// There is no token: the request is refused with this reply.
    Reject(Response<()>),
    /// The token is present but not readable as text: no reply goes out.
    Abort,
}

impl<S> AuthenticationMiddleware<S> {
    /// The service that the middleware wraps.
    pub closed spec fn next(&self) -> S {
        self.service
    }

    /// The service that the middleware wraps.
    pub fn service(&self) -> (r: &S)
        ensures
            *r == self.next(),
    {
        &self.service
    }

    /// Checks the value of the `token` header, if the request has one.
    pub fn check_token(&self, token: Option<&[u8]>) -> (r: TokenCheck)
        ensures
            (match token {
                None => {
                    &&& r matches TokenCheck::Reject(resp)
                    &&& resp.code == 401
                    &&& resp.msg@ == "token is None"@
                },
                Some(t) => if readable_token(t@) {
                    &&& r matches TokenCheck::Accept(text)
                    &&& text@ == token_text(t@)
                } else {
                    r is Abort
                },
            }),
            (match token {
                None => r is Reject,
                Some(t) => {
                    &&& ((forall|i: int| 0 <= i < t@.len() ==> (32 <= #[trigger] t@[i] <= 126 || t@[i] == 9))
                        <==> r is Accept)
                    &&& (r matches TokenCheck::Accept(text) ==> text@.len() == t@.len() && forall|i: int|
                        0 <= i < t@.len() ==> #[trigger] text@[i] == t@[i] as char)
                },
            }),
    {
        match token {
            None => TokenCheck::Reject(Response::<()>::unauthorized(String::from_str("token is None"))),
            Some(t) => {
                let n = t.len();
                let mut text = String::new();
                let mut i: usize = 0;
                while i < n
                    invariant
                        token == Some(t),
                        n == t@.len(),
                        i <= n,
                        forall|j: int| 0 <= j < i ==> is_visible_ascii(#[trigger] t@[j]),
                        text@ == t@.take(i as int).map_values(|b: u8| b as char),
                    decreases n - i,
                {
                    let b = t[i];
                    if !((32 <= b && b < 127) || b == 9) {
                        assert(!is_visible_ascii(t@[i as int]));
                        assert(!readable_token(t@));
                        return TokenCheck::Abort;
                    }
                    push_char(&mut text, b as char);
                    i = i + 1;
                    assert(text@ =~= t@.take(i as int).map_values(|b: u8| b as char));
                }
                assert(t@.take(n as int) =~= t@);
                TokenCheck::Accept(text)
            },
        }
    }
}

/// A header value is read as text exactly when each of its bytes is a
/// printable ASCII character (from the space to `~`) or a tab.
pub proof fn law_readable_token(t: Seq<u8>)
    ensures
        readable_token(t) <==> forall|i: int| 0 <= i < t.len() ==> (32 <= #[trigger] t[i] <= 126 || t[i] == 9),
{
}

} // verus!
