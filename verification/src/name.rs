use crate::errors::HandshakeError;
use vstd::prelude::*;
use vstd::string::StringSliceAdditionalSpecFns;

verus! {

/// The longest connection name the relay accepts, in bytes of UTF-8.
pub const NAME_CAP: usize = 64;

/// How many bytes a character sequence occupies as UTF-8.
pub open spec fn byte_len(s: Seq<char>) -> nat {
    vstd::utf8::encode_utf8(s).len()
}

/// A connection name: the bounded-length identifier a client supplies during
/// the handshake and by which it is known to the connection registry.
pub struct Name {
    value: String,
}

impl View for Name {
    type V = Seq<char>;

    closed spec fn view(&self) -> Seq<char> {
        self.value@
    }
}

impl Name {
    /// The length-cap invariant every constructed name satisfies.
    pub open spec fn wf(&self) -> bool {
        byte_len(self@) <= NAME_CAP
    }

    /// Validates a presented name: over-length names are rejected with a
    /// validation error, anything else is accepted unchanged.
    pub fn new(name: String) -> (r: Result<Name, HandshakeError>)
        ensures
            r is Ok <==> byte_len(name@) <= NAME_CAP,
            r matches Ok(n) ==> n@ == name@ && n.wf(),
            r matches Err(e) ==> e is Validation,
    {
        let bytes = name.as_str().as_bytes();
        let n = bytes.len();
        proof {
            broadcast use vstd::slice::axiom_spec_len;

            assert(bytes@ == vstd::utf8::encode_utf8(name@));
            assert(n == byte_len(name@));
        }
        if n <= NAME_CAP {
            Ok(Name { value: name })
        } else {
            Err(HandshakeError::Validation)
        }
    }

    /// The name's characters.
    pub fn as_str(&self) -> (r: &str)
        ensures
            r@ == self@,
    {
        self.value.as_str()
    }

    /// A copy of the name.
    pub fn duplicate(&self) -> (r: Name)
        ensures
            r@ == self@,
            r.wf() == self.wf(),
    {
        Name { value: self.value.clone() }
    }
}

impl PartialEq for Name {
    fn eq(&self, other: &Name) -> bool {
        self.value == other.value
    }
}

impl vstd::std_specs::cmp::PartialEqSpecImpl for Name {
    open spec fn obeys_eq_spec() -> bool {
        true
    }

    open spec fn eq_spec(&self, other: &Name) -> bool {
        self@ == other@
    }
}

} // verus!
