use crate::payload::{Payload, PayloadView};
use vstd::prelude::*;

verus! {

/// An authentication request: the name a client wants to be known by and
/// the shared token it presents.
pub struct Request {
    pub name: String,
    pub token: String,
}

impl Request {
    pub fn new(name: String, token: String) -> (r: Request)
        ensures
            r.name@ == name@,
            r.token@ == token@,
    {
        Request { name, token }
    }

    /// The request as a wire payload.
    pub fn into_payload(self) -> (r: Payload)
        ensures
            r@ == (PayloadView::Auth { name: self.name@, token: self.token@ }),
    {
        Payload::Auth { name: self.name, token: self.token }
    }
}

/// The server's answer to an authentication request.
pub struct Response {
    pub success: bool,
}

impl Response {
    pub fn new(success: bool) -> (r: Response)
        ensures
            r.success == success,
    {
        Response { success }
    }

    /// The response as a wire payload.
    pub fn into_payload(self) -> (r: Payload)
        ensures
            r@ == (PayloadView::AuthResult { success: self.success }),
    {
        Payload::AuthResult { success: self.success }
    }
}

} // verus!
