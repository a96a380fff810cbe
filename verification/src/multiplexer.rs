use crate::name::Name;
use vstd::prelude::*;

verus! {

/// What one registered channel reported when it was polled: nothing yet, a
/// closed or failed transport, a keepalive acknowledgement, a text frame,
/// or a frame of an unexpected kind.
#[derive(Debug)]
pub enum SocketEvent {
    Idle,
    Closed,
    Pong,
    Text(String),
    Other,
}

/// A message pulled out of the registry: a keepalive acknowledgement or a
/// text frame, together with the connection it came from.
#[derive(Debug)]
pub enum InboundMessage {
    Pong,
    Text(String),
}

/// Whether an event costs the reporting connection its registration: a
/// closed or failed transport, or a frame of an unexpected kind.
pub open spec fn drops(e: SocketEvent) -> bool {
    match e {
        SocketEvent::Closed => true,
        SocketEvent::Other => true,
        _ => false,
    }
}

/// Whether an event carries an inbound message to hand to the caller.
pub open spec fn yields(e: SocketEvent) -> bool {
    match e {
        SocketEvent::Pong => true,
        SocketEvent::Text(_) => true,
        _ => false,
    }
}

/// The message a yielding event turns into.
pub open spec fn message_of(e: SocketEvent, m: InboundMessage) -> bool {
    match (e, m) {
        (SocketEvent::Pong, InboundMessage::Pong) => true,
        (SocketEvent::Text(s), InboundMessage::Text(t)) => s@ == t@,
        _ => false,
    }
}

/// No name registered twice.
pub open spec fn distinct(names: Seq<Seq<char>>) -> bool {
    forall|i: int, j: int| 0 <= i < j < names.len() ==> names[i] != names[j]
}

/// The per-connection removal verdicts drawn from a round of poll events.
pub open spec fn dead_flags(events: Seq<SocketEvent>) -> Seq<bool> {
    events.map_values(|e: SocketEvent| drops(e))
}

/// The names that survive a mark-then-remove pass: entry `i` of `names` is
/// kept, in order, exactly when `dead[i]` is false.
pub open spec fn filtered(names: Seq<Seq<char>>, dead: Seq<bool>) -> Seq<Seq<char>>
    recommends
        names.len() == dead.len(),
    decreases names.len(),
{
    if names.len() == 0 {
        Seq::empty()
    } else {
        let rest = filtered(names.drop_last(), dead.drop_last());
        if dead.len() > 0 && dead.last() {
            rest
        } else {
            rest.push(names.last())
        }
    }
}

/// Everything that survives a mark-then-remove pass was registered before it.
pub proof fn lemma_filtered_subset(names: Seq<Seq<char>>, dead: Seq<bool>)
    requires
        names.len() == dead.len(),
    ensures
        forall|x: Seq<char>| #[trigger] filtered(names, dead).contains(x) ==> names.contains(x),
    decreases names.len(),
{
    if names.len() > 0 {
        lemma_filtered_subset(names.drop_last(), dead.drop_last());
        assert forall|x: Seq<char>| #[trigger] filtered(names, dead).contains(x) implies names.contains(
            x,
        ) by {
            let rest = filtered(names.drop_last(), dead.drop_last());
            if rest.contains(x) {
                let i = choose|i: int|
                    0 <= i < names.drop_last().len() && names.drop_last()[i] == x;
                assert(names[i] == x);
            } else {
                assert(x == names.last());
            }
        }
    }
}

/// A mark-then-remove pass never duplicates a name.
pub proof fn lemma_filtered_distinct(names: Seq<Seq<char>>, dead: Seq<bool>)
    requires
        names.len() == dead.len(),
        distinct(names),
    ensures
        distinct(filtered(names, dead)),
    decreases names.len(),
{
    if names.len() > 0 {
        let prefix = names.drop_last();
        let rest = filtered(prefix, dead.drop_last());
        lemma_filtered_distinct(prefix, dead.drop_last());
        lemma_filtered_subset(prefix, dead.drop_last());
        if !(dead.len() > 0 && dead.last()) {
            assert(!prefix.contains(names.last()));
            assert(!rest.contains(names.last()));
            assert forall|i: int, j: int|
                0 <= i < j < rest.push(names.last()).len() implies rest.push(names.last())[i]
                != rest.push(names.last())[j] by {
                if j < rest.len() {
                    assert(rest[i] != rest[j]);
                } else {
                    assert(rest.contains(rest[i]));
                }
            }
        }
    }
}

/// A connection that was not marked survives the pass.
pub proof fn lemma_filtered_keeps(names: Seq<Seq<char>>, dead: Seq<bool>, i: int)
    requires
        names.len() == dead.len(),
        0 <= i < names.len(),
        !dead[i],
    ensures
        filtered(names, dead).contains(names[i]),
    decreases names.len(),
{
    let rest = filtered(names.drop_last(), dead.drop_last());
    if i == names.len() - 1 {
        assert(filtered(names, dead) == rest.push(names.last()));
        assert(filtered(names, dead).last() == names[i]);
    } else {
        lemma_filtered_keeps(names.drop_last(), dead.drop_last(), i);
        assert(names.drop_last()[i] == names[i]);
        if !(dead.len() > 0 && dead.last()) {
            let k = choose|k: int| 0 <= k < rest.len() && rest[k] == names[i];
            assert(rest.push(names.last())[k] == names[i]);
        }
    }
}

/// A connection that was marked is gone after the pass.
pub proof fn lemma_filtered_removes(names: Seq<Seq<char>>, dead: Seq<bool>, i: int)
    requires
        names.len() == dead.len(),
        distinct(names),
        0 <= i < names.len(),
        dead[i],
    ensures
        !filtered(names, dead).contains(names[i]),
    decreases names.len(),
{
    let rest = filtered(names.drop_last(), dead.drop_last());
    lemma_filtered_subset(names.drop_last(), dead.drop_last());
    if i == names.len() - 1 {
        assert(!names.drop_last().contains(names[i]));
        assert(filtered(names, dead) == rest);
    } else {
        lemma_filtered_removes(names.drop_last(), dead.drop_last(), i);
        assert(names.drop_last()[i] == names[i]);
        if !(dead.len() > 0 && dead.last()) {
            assert forall|k: int|
                0 <= k < rest.push(names.last()).len() implies rest.push(names.last())[k]
                != names[i] by {
                if k < rest.len() {
                    assert(!rest.contains(names[i]));
                } else {
                    assert(names.last() != names[i]);
                }
            }
        }
    }
}

/// The sequence of name values held by a registry vector, in order.
pub open spec fn views_of(names: Seq<Name>) -> Seq<Seq<char>> {
    names.map_values(|n: Name| n@)
}

/// Owns the set of registered, authenticated connections by name. Offers
/// one pull of the next inbound message per round of poll events, and the
/// mark-then-remove pruning that both pulling and broadcasting use: a
/// connection is never removed while the round's events are still being
/// walked, only in a second pass over the verdicts.
pub struct Multiplexer {
    names: Vec<Name>,
}

impl View for Multiplexer {
    type V = Seq<Seq<char>>;

    closed spec fn view(&self) -> Seq<Seq<char>> {
        views_of(self.names@)
    }
}

impl Multiplexer {
    /// No two registered connections share a name.
    pub open spec fn wf(&self) -> bool {
        distinct(self@)
    }

    /// An empty registry.
    pub fn new() -> (r: Multiplexer)
        ensures
            r@ == Seq::<Seq<char>>::empty(),
            r.wf(),
    {
        let r = Multiplexer { names: Vec::new() };
        proof {
            assert(r@ =~= Seq::<Seq<char>>::empty());
        }
        r
    }

    /// How many connections are registered.
    pub fn len(&self) -> (r: usize)
        ensures
            r == self@.len(),
    {
        self.names.len()
    }

    /// Whether a connection of this name is registered.
    pub fn contains(&self, name: &Name) -> (r: bool)
        ensures
            r == self@.contains(name@),
    {
        let n = self.names.len();
        let mut i: usize = 0;
        while i < n
            invariant
                0 <= i <= n,
                n == self@.len(),
                forall|k: int| 0 <= k < i ==> self@[k] != name@,
            decreases n - i,
        {
            if self.names[i] == *name {
                assert(self@[i as int] == name@);
                return true;
            }
            i += 1;
        }
        assert(!self@.contains(name@));
        false
    }

    /// Registers a connection under a name; a name already present stays as
    /// it is.
    pub fn insert(&mut self, name: Name)
        requires
            old(self).wf(),
        ensures
            final(self).wf(),
            old(self)@.contains(name@) ==> final(self)@ == old(self)@,
            !old(self)@.contains(name@) ==> final(self)@ == old(self)@.push(name@),
            final(self)@.contains(name@),
    {
        if !self.contains(&name) {
            let ghost before = self@;
            self.names.push(name);
            proof {
                assert(self@ =~= before.push(name@));
                assert(self@.last() == name@);
                assert forall|i: int, j: int| 0 <= i < j < self@.len() implies self@[i]
                    != self@[j] by {
                    if j < before.len() {
                    } else {
                        assert(before.contains(before[i]));
                    }
                }
            }
        } else {
            proof {
                let i = choose|i: int| 0 <= i < self@.len() && self@[i] == name@;
                assert(self@.contains(name@));
            }
        }
    }

    /// Unregisters the connection of this name, if present; every other
    /// registration is kept, in order.
    pub fn remove(&mut self, name: &Name) -> (was: bool)
        requires
            old(self).wf(),
        ensures
            final(self).wf(),
            was == old(self)@.contains(name@),
            !was ==> final(self)@ == old(self)@,
            was ==> exists|i: int|
                0 <= i < old(self)@.len() && old(self)@[i] == name@ && final(self)@ == old(
                    self,
                )@.remove(i),
            !final(self)@.contains(name@),
    {
        let n = self.names.len();
        let mut i: usize = 0;
        while i < n
            invariant
                0 <= i <= n,
                n == self@.len(),
                *self == *old(self),
                old(self).wf(),
                forall|k: int| 0 <= k < i ==> self@[k] != name@,
            decreases n - i,
        {
            if self.names[i] == *name {
                let ghost before = self@;
                self.names.remove(i);
                proof {
                    assert(before[i as int] == name@);
                    assert(self@ =~= before.remove(i as int));
                    assert(before.contains(name@));
                    assert forall|k: int| 0 <= k < self@.len() implies self@[k] != name@ by {
                        if k >= i {
                            assert(before[i as int] != before[k + 1]);
                        }
                    }
                    assert forall|p: int, q: int| 0 <= p < q < self@.len() implies self@[p]
                        != self@[q] by {
                        let bp = if p < i { p } else { p + 1 };
                        let bq = if q < i { q } else { q + 1 };
                        assert(before[bp] != before[bq]);
                    }
                }
                return true;
            }
            i += 1;
        }
        assert(!self@.contains(name@));
        false
    }

    /// The registered names, in registration order: the recipients of a
    /// broadcast, the sender of an accepted clip included.
    pub fn names(&self) -> (r: &Vec<Name>)
        ensures
            r@.len() == self@.len(),
            forall|i: int| 0 <= i < r@.len() ==> r@[i]@ == self@[i],
    {
        &self.names
    }

    /// One pull: given this round's poll events, one per registered
    /// connection in registration order, yields the first inbound message,
    /// and prunes every connection whose event reported closure, failure or
    /// an unexpected frame — whether or not it was the one that yielded.
    pub fn pull(&mut self, events: &Vec<SocketEvent>) -> (r: Option<(Name, InboundMessage)>)
        requires
            old(self).wf(),
            events@.len() == old(self)@.len(),
        ensures
            final(self).wf(),
            final(self)@ == filtered(old(self)@, dead_flags(events@)),
            match r {
                None => forall|j: int| 0 <= j < events@.len() ==> !yields(events@[j]),
                Some((nm, m)) => {
                    &&& exists|j: int|
                        {
                            &&& 0 <= j < events@.len()
                            &&& #[trigger] yields(events@[j])
                            &&& nm@ == old(self)@[j]
                            &&& message_of(events@[j], m)
                            &&& !drops(events@[j])
                            &&& forall|k: int| 0 <= k < j ==> !yields(events@[k])
                        }
                    &&& final(self)@.contains(nm@)
                },
            },
    {
        let n = self.names.len();
        let mut found: Option<(Name, InboundMessage)> = None;
        let ghost mut fj: int = 0;
        let mut i: usize = 0;
        while i < n
            invariant
                0 <= i <= n,
                n == self@.len(),
                *self == *old(self),
                events@.len() == n,
                match found {
                    None => forall|k: int| 0 <= k < i ==> !yields(events@[k]),
                    Some((nm, m)) => {
                        &&& 0 <= fj < i
                        &&& yields(events@[fj])
                        &&& nm@ == self@[fj]
                        &&& message_of(events@[fj], m)
                        &&& !drops(events@[fj])
                        &&& forall|k: int| 0 <= k < fj ==> !yields(events@[k])
                    },
                },
            decreases n - i,
        {
            if found.is_none() {
                match &events[i] {
                    SocketEvent::Pong => {
                        found = Some((self.names[i].duplicate(), InboundMessage::Pong));
                        proof {
                            fj = i as int;
                        }
                    }
                    SocketEvent::Text(s) => {
                        found = Some((self.names[i].duplicate(), InboundMessage::Text(s.clone())));
                        proof {
                            fj = i as int;
                        }
                    }
                    _ => {}
                }
            }
            i += 1;
        }
        self.discard_marked(events);
        proof {
            if found is Some {
                lemma_filtered_keeps(old(self)@, dead_flags(events@), fj);
            }
        }
        found
    }

    /// The removal pass shared by pulling and broadcasting: drops every
    /// connection whose event was a removal verdict.
    fn discard_marked(&mut self, events: &Vec<SocketEvent>)
        requires
            old(self).wf(),
            events@.len() == old(self)@.len(),
        ensures
            final(self).wf(),
            final(self)@ == filtered(old(self)@, dead_flags(events@)),
    {
        let ghost dead = dead_flags(events@);
        let n = self.names.len();
        let mut kept: Vec<Name> = Vec::new();
        let mut i: usize = 0;
        proof {
            assert(views_of(kept@) =~= filtered(old(self)@.take(0), dead.take(0)));
        }
        while i < n
            invariant
                0 <= i <= n,
                n == old(self)@.len(),
                *self == *old(self),
                events@.len() == n,
                dead == dead_flags(events@),
                views_of(kept@) == filtered(old(self)@.take(i as int), dead.take(i as int)),
            decreases n - i,
        {
            let ghost before = kept@;
            let keep = match &events[i] {
                SocketEvent::Closed => false,
                SocketEvent::Other => false,
                _ => true,
            };
            if keep {
                kept.push(self.names[i].duplicate());
            }
            i += 1;
            proof {
                let t = i as int;
                assert(old(self)@.take(t).drop_last() =~= old(self)@.take(t - 1));
                assert(dead.take(t).drop_last() =~= dead.take(t - 1));
                assert(old(self)@.take(t).last() == old(self)@[t - 1]);
                assert(dead.take(t).last() == dead[t - 1]);
                if keep {
                    assert(views_of(kept@) =~= views_of(before).push(old(self)@[t - 1]));
                } else {
                    assert(views_of(kept@) == views_of(before));
                }
            }
        }
        self.names = kept;
        proof {
            assert(old(self)@.take(n as int) =~= old(self)@);
            assert(dead.take(n as int) =~= dead);
            lemma_filtered_distinct(old(self)@, dead);
        }
    }

    /// The removal pass after a broadcast or keepalive round: `failed[i]`
    /// says whether the write to connection `i` failed; failed connections
    /// are dropped, the rest kept in order.
    pub fn prune(&mut self, failed: &Vec<bool>)
        requires
            old(self).wf(),
            failed@.len() == old(self)@.len(),
        ensures
            final(self).wf(),
            final(self)@ == filtered(old(self)@, failed@),
    {
        let n = self.names.len();
        let mut kept: Vec<Name> = Vec::new();
        let mut i: usize = 0;
        proof {
            assert(views_of(kept@) =~= filtered(old(self)@.take(0), failed@.take(0)));
        }
        while i < n
            invariant
                0 <= i <= n,
                n == old(self)@.len(),
                *self == *old(self),
                failed@.len() == n,
                views_of(kept@) == filtered(old(self)@.take(i as int), failed@.take(i as int)),
            decreases n - i,
        {
            let ghost before = kept@;
            let keep = !failed[i];
            if keep {
                kept.push(self.names[i].duplicate());
            }
            i += 1;
            proof {
                let t = i as int;
                assert(old(self)@.take(t).drop_last() =~= old(self)@.take(t - 1));
                assert(failed@.take(t).drop_last() =~= failed@.take(t - 1));
                assert(old(self)@.take(t).last() == old(self)@[t - 1]);
                assert(failed@.take(t).last() == failed@[t - 1]);
                if keep {
                    assert(views_of(kept@) =~= views_of(before).push(old(self)@[t - 1]));
                } else {
                    assert(views_of(kept@) == views_of(before));
                }
            }
        }
        self.names = kept;
        proof {
            assert(old(self)@.take(n as int) =~= old(self)@);
            assert(failed@.take(n as int) =~= failed@);
            lemma_filtered_distinct(old(self)@, failed@);
        }
    }
}

} // verus!
