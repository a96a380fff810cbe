use crate::clip::{Clip, ClipView};
use vstd::prelude::*;

verus! {

/// Holds the single current clip, if any, and decides whether a candidate
/// clip replaces it: a last-writer-wins register with a duplicate-text guard.
pub struct Store {
    clip: Option<Clip>,
}

impl View for Store {
    type V = Option<ClipView>;

    closed spec fn view(&self) -> Option<ClipView> {
        match self.clip {
            Some(c) => Some(c@),
            None => None,
        }
    }
}

/// Whether a candidate clip becomes the new current clip: always on an empty
/// store; otherwise only with a strictly greater timestamp and different text.
pub open spec fn accepts(current: Option<ClipView>, candidate: ClipView) -> bool {
    match current {
        None => true,
        Some(c) => candidate.timestamp > c.timestamp && candidate.text != c.text,
    }
}

/// The store contents after offering a candidate clip.
pub open spec fn next_store(current: Option<ClipView>, candidate: ClipView) -> Option<ClipView> {
    if accepts(current, candidate) {
        Some(candidate)
    } else {
        current
    }
}

impl Store {
    /// An empty store.
    pub fn new() -> (r: Store)
        ensures
            r@ is None,
    {
        Store { clip: None }
    }

    /// A snapshot of the current clip.
    pub fn current(&self) -> (r: Option<Clip>)
        ensures
            match r {
                Some(c) => self@ == Some(c@),
                None => self@ is None,
            },
    {
        match &self.clip {
            Some(c) => Some(c.duplicate()),
            None => None,
        }
    }

    /// Offers a candidate clip; returns whether it became the new current
    /// clip and therefore must be broadcast.
    pub fn add(&mut self, clip: &Clip) -> (accepted: bool)
        ensures
            accepted == accepts(old(self)@, clip@),
            final(self)@ == next_store(old(self)@, clip@),
    {
        match &self.clip {
            Some(current) => {
                if clip.timestamp > current.timestamp && clip.text != current.text {
                    self.clip = Some(clip.duplicate());
                    true
                } else {
                    false
                }
            }
            None => {
                self.clip = Some(clip.duplicate());
                true
            }
        }
    }
}

/// Last-writer-wins monotonicity: once a clip `a` is current, a candidate
/// `b` with a strictly greater timestamp and different text is accepted and
/// becomes current.
pub proof fn lemma_lww_monotonicity(st: Option<ClipView>, a: ClipView, b: ClipView)
    requires
        next_store(st, a) == Some(a),
        b.timestamp > a.timestamp,
        b.text != a.text,
    ensures
        accepts(next_store(st, a), b),
        next_store(next_store(st, a), b) == Some(b),
{
}

/// Duplicate guard: a candidate with a strictly greater timestamp but the
/// same text as the current clip is rejected and the store is unchanged.
pub proof fn lemma_dedup_guard(c: ClipView, candidate: ClipView)
    requires
        candidate.timestamp > c.timestamp,
        candidate.text == c.text,
    ensures
        !accepts(Some(c), candidate),
        next_store(Some(c), candidate) == Some(c),
{
}

/// Stale rejection: a candidate whose timestamp does not exceed the current
/// clip's is rejected regardless of its text, and the store is unchanged.
pub proof fn lemma_stale_rejection(c: ClipView, candidate: ClipView)
    requires
        candidate.timestamp <= c.timestamp,
    ensures
        !accepts(Some(c), candidate),
        next_store(Some(c), candidate) == Some(c),
{
}

/// First-write acceptance: an empty store accepts any clip, which becomes
/// the current clip.
pub proof fn lemma_first_write(candidate: ClipView)
    ensures
        accepts(None, candidate),
        next_store(None, candidate) == Some(candidate),
{
}

} // verus!
