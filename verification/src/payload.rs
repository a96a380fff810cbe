use crate::clip::{Clip, ClipView};
use crate::clock::now_secs;
use vstd::prelude::*;

verus! {

/// An application-level message: an authentication request, the server's
/// answer to one, or a clip.
pub enum Payload {
    Auth { name: String, token: String },
    AuthResult { success: bool },
    Clip(Clip),
}

/// The mathematical value of a `Payload`.
pub enum PayloadView {
    Auth { name: Seq<char>, token: Seq<char> },
    AuthResult { success: bool },
    Clip(ClipView),
}

impl View for Payload {
    type V = PayloadView;

    open spec fn view(&self) -> PayloadView {
        match self {
            Payload::Auth { name, token } => PayloadView::Auth { name: name@, token: token@ },
            Payload::AuthResult { success } => PayloadView::AuthResult { success: *success },
            Payload::Clip(c) => PayloadView::Clip(c@),
        }
    }
}

impl Payload {
    /// An authentication request carrying a name and a token.
    pub fn auth(name: String, token: String) -> (r: Payload)
        ensures
            r@ == (PayloadView::Auth { name: name@, token: token@ }),
    {
        Payload::Auth { name, token }
    }

    /// The server's answer to an authentication request.
    pub fn auth_result(success: bool) -> (r: Payload)
        ensures
            r@ == (PayloadView::AuthResult { success }),
    {
        Payload::AuthResult { success }
    }

    /// A clip of the given text, stamped with the wall clock.
    pub fn clip(text: String) -> (r: Payload)
        ensures
            r@ matches PayloadView::Clip(c) && c.text == text@,
    {
        Payload::Clip(Clip::new(text))
    }
}

} // verus!
