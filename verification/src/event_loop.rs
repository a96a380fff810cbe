use crate::clip::Clip;
use crate::codec::{decode_payload, lemma_decode_encode, lemma_encode_decode, spec_decode};
use crate::config::Config;
use crate::errors::HandshakeError;
use crate::ids::fresh_id;
use crate::multiplexer::{InboundMessage, Multiplexer};
use crate::name::{byte_len, Name, NAME_CAP};
use crate::payload::{Payload, PayloadView};
use crate::store::{accepts, next_store, Store};
use vstd::prelude::*;

verus! {

/// What became of a pending connection that was driven through the
/// handshake: it closed before authenticating, it was rejected (the caller
/// owes it a negative acknowledgement before discarding it), or it was
/// promoted into the registry (the caller owes it a positive
/// acknowledgement and the current clip, if any).
pub enum AuthOutcome {
    Closed,
    Rejected(HandshakeError),
    Promoted { name: Name, initial: Option<Clip> },
}

/// The coordinator's state: the configuration, the clip store, the
/// registry of authenticated connections, and the registry of pending
/// connections still in their handshake. The surrounding process owns the
/// sockets and the timer; every decision over this state is made here.
pub struct EventLoop {
    pub config: Config,
    pub store: Store,
    pub clients: Multiplexer,
    pub pending: Multiplexer,
}

impl EventLoop {
    /// Both registries hold each connection at most once.
    pub open spec fn wf(&self) -> bool {
        self.clients.wf() && self.pending.wf()
    }

    /// A fresh coordinator with no connections and no clip.
    pub fn new(config: Config) -> (r: EventLoop)
        ensures
            r.wf(),
            r.config == config,
            r.store@ is None,
            r.clients@ == Seq::<Seq<char>>::empty(),
            r.pending@ == Seq::<Seq<char>>::empty(),
    {
        EventLoop {
            config,
            store: Store::new(),
            clients: Multiplexer::new(),
            pending: Multiplexer::new(),
        }
    }

    /// Admits a freshly accepted transport: draws a fresh identifier and
    /// registers the connection as pending. Nothing else changes; the
    /// connection gains no trust and no name yet.
    pub fn accept(&mut self) -> (id: Name)
        requires
            old(self).wf(),
        ensures
            final(self).wf(),
            id.wf(),
            final(self).pending@.contains(id@),
            old(self).pending@.contains(id@) ==> final(self).pending@ == old(self).pending@,
            !old(self).pending@.contains(id@) ==> final(self).pending@ == old(self).pending@.push(id@),
            final(self).clients == old(self).clients,
            final(self).store == old(self).store,
            final(self).config == old(self).config,
    {
        let raw = fresh_id();
        proof {
            broadcast use vstd::utf8::is_ascii_chars_encode_utf8;

            assert(byte_len(raw@) == 36);
        }
        match Name::new(raw) {
            Ok(id) => {
                self.pending.insert(id.duplicate());
                id
            }
            Err(_) => vstd::pervasive::unreached(),
        }
    }

    /// Drives one pending connection through its authentication: `frame` is
    /// the first text frame it sent, or nothing if it closed first. The
    /// connection always leaves the pending registry. It is promoted
    /// exactly when the frame is a canonical authentication request whose
    /// token equals the shared secret and whose name fits the cap; the
    /// promoted outcome carries the store's current clip for the caller to
    /// push to the newcomer. A wrong token, an over-length name or an
    /// unreadable frame is rejected, and the caller sends the negative
    /// acknowledgement before discarding the connection.
    pub fn authenticate(&mut self, id: &Name, frame: Option<String>) -> (r: AuthOutcome)
        requires
            old(self).wf(),
        ensures
            final(self).wf(),
            !final(self).pending@.contains(id@),
            !old(self).pending@.contains(id@) ==> final(self).pending@ == old(self).pending@,
            old(self).pending@.contains(id@) ==> exists|i: int|
                0 <= i < old(self).pending@.len() && old(self).pending@[i] == id@ && final(self).pending@ == old(self).pending@.remove(i),
            final(self).store@ == old(self).store@,
            final(self).config == old(self).config,
            match r {
                AuthOutcome::Closed => frame is None && final(self).clients == old(self).clients,
                AuthOutcome::Rejected(e) => {
                    &&& frame matches Some(f)
                    &&& final(self).clients == old(self).clients
                    &&& match e {
                        HandshakeError::Protocol => !(spec_decode(f@) matches Some(
                            PayloadView::Auth { .. },
                        )),
                        HandshakeError::Auth => spec_decode(f@) matches Some(
                            PayloadView::Auth { name, token },
                        ) && token != old(self).config.token@,
                        HandshakeError::Validation => spec_decode(f@) matches Some(
                            PayloadView::Auth { name, token },
                        ) && token == old(self).config.token@ && byte_len(name) > NAME_CAP,
                    }
                },
                AuthOutcome::Promoted { name, initial } => {
                    &&& frame matches Some(f)
                    &&& spec_decode(f@) == Some(
                        PayloadView::Auth { name: name@, token: old(self).config.token@ },
                    )
                    &&& name.wf()
                    &&& old(self).clients@.contains(name@) ==> final(self).clients@ == old(self).clients@
                    &&& !old(self).clients@.contains(name@) ==> final(self).clients@ == old(self).clients@.push(name@)
                    &&& final(self).clients@.contains(name@)
                    &&& match initial {
                        Some(c) => old(self).store@ == Some(c@),
                        None => old(self).store@ is None,
                    }
                },
            },
    {
        self.pending.remove(id);
        let frame = match frame {
            None => {
                return AuthOutcome::Closed;
            }
            Some(f) => f,
        };
        match decode_payload(frame.as_str()) {
            Err(_) => {
                proof {
                    if spec_decode(frame@) is Some {
                        lemma_encode_decode(frame@);
                    }
                }
                AuthOutcome::Rejected(HandshakeError::Protocol)
            }
            Ok(p) => {
                proof {
                    lemma_decode_encode(p@);
                }
                match p {
                    Payload::Auth { name, token } => {
                        if !(token == self.config.token) {
                            AuthOutcome::Rejected(HandshakeError::Auth)
                        } else {
                            match Name::new(name) {
                                Err(e) => AuthOutcome::Rejected(e),
                                Ok(n) => {
                                    let initial = self.store.current();
                                    self.clients.insert(n.duplicate());
                                    AuthOutcome::Promoted { name: n, initial }
                                }
                            }
                        }
                    }
                    _ => AuthOutcome::Rejected(HandshakeError::Protocol),
                }
            }
        }
    }

    /// Handles one message pulled from an authenticated connection. A
    /// keepalive acknowledgement is dropped. A text frame that reads as a
    /// canonical clip is offered to the store; the result says whether the
    /// clip became current and must be broadcast to every registered
    /// connection, the sender included. Any other frame is a protocol
    /// violation by that peer: it is unregistered and nothing is broadcast.
    pub fn process_new_message(&mut self, name: &Name, message: InboundMessage) -> (broadcast: bool)
        requires
            old(self).wf(),
        ensures
            final(self).wf(),
            final(self).pending == old(self).pending,
            final(self).config == old(self).config,
            match message {
                InboundMessage::Pong => {
                    &&& !broadcast
                    &&& final(self).store@ == old(self).store@
                    &&& final(self).clients == old(self).clients
                },
                InboundMessage::Text(t) => match spec_decode(t@) {
                    Some(PayloadView::Clip(c)) => {
                        &&& broadcast == accepts(old(self).store@, c)
                        &&& final(self).store@ == next_store(old(self).store@, c)
                        &&& final(self).clients == old(self).clients
                    },
                    _ => {
                        &&& !broadcast
                        &&& final(self).store@ == old(self).store@
                        &&& !final(self).clients@.contains(name@)
                        &&& !old(self).clients@.contains(name@) ==> final(self).clients@ == old(self).clients@
                        &&& old(self).clients@.contains(name@) ==> exists|i: int|
                            0 <= i < old(self).clients@.len() && old(self).clients@[i] == name@
                                && final(self).clients@ == old(self).clients@.remove(i)
                    },
                },
            },
    {
        match message {
            InboundMessage::Pong => false,
            InboundMessage::Text(t) => {
                match decode_payload(t.as_str()) {
                    Ok(p) => {
                        proof {
                            lemma_decode_encode(p@);
                        }
                        match p {
                            Payload::Clip(c) => self.store.add(&c),
                            _ => {
                                self.clients.remove(name);
                                false
                            }
                        }
                    }
                    Err(_) => {
                        proof {
                            if spec_decode(t@) is Some {
                                lemma_encode_decode(t@);
                            }
                        }
                        self.clients.remove(name);
                        false
                    }
                }
            }
        }
    }
}

} // verus!
