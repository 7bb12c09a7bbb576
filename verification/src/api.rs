//! The v1 HTTP API's request and reply handling that does not depend on the
//! server framework: the bearer token of an `Authorization` header and the
//! status code an error reply carries.

use vstd::prelude::*;
use crate::text::{has_prefix, starts_with, string_of_range, to_chars};

verus! {

/// The token of an `Authorization: Bearer <token>` header; empty for any
/// other scheme.
pub open spec fn bearer_of(authorization: Seq<char>) -> Seq<char> {
    if starts_with(authorization, "Bearer "@) {
        authorization.skip(7)
    } else {
        Seq::empty()
    }
}

/// The bearer token of an `Authorization` header value.
pub fn bearer_token(authorization: &str) -> (t: String)
    ensures
        t@ == bearer_of(authorization@),
{
    let v = to_chars(authorization);
    if has_prefix(v.as_slice(), "Bearer ") {
        proof {
            reveal_strlit("Bearer ");
        }
        let t = string_of_range(v.as_slice(), 7, v.len());
        assert(t@ =~= authorization@.skip(7));
        t
    } else {
        String::new()
    }
}

/// The HTTP status of an error reply: the error's code when it is a
/// valid status (100 to 999), else 500.
pub open spec fn reply_status_of(code: u16) -> u16 {
    if 100 <= code <= 999 {
        code
    } else {
        500
    }
}

/// The HTTP status an error reply carries.
pub fn reply_status(code: u16) -> (s: u16)
    ensures
        s == reply_status_of(code),
{
    if 100 <= code && code <= 999 {
        code
    } else {
        500
    }
}

} // verus!
