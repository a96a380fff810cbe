use crate::clock::now_secs;
use vstd::prelude::*;

verus! {

/// A timestamped text snippet, the unit of clipboard content.
/// Immutable once constructed; no identity beyond its fields.
pub struct Clip {
    pub text: String,
    pub timestamp: u64,
}

/// The mathematical value of a `Clip`: its text as a character sequence
/// together with its timestamp.
pub struct ClipView {
    pub text: Seq<char>,
    pub timestamp: u64,
}

impl View for Clip {
    type V = ClipView;

    open spec fn view(&self) -> ClipView {
        ClipView { text: self.text@, timestamp: self.timestamp }
    }
}

impl Clip {
    /// A clip of the given text, stamped with the wall clock.
    pub fn new(text: String) -> (r: Clip)
        ensures
            r@.text == text@,
    {
        Clip { text, timestamp: now_secs() }
    }

    /// A field-for-field copy.
    pub fn duplicate(&self) -> (r: Clip)
        ensures
            r@ == self@,
    {
        Clip { text: self.text.clone(), timestamp: self.timestamp }
    }
}

} // verus!
