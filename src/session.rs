//! The lifecycle of one streaming connection.
use vstd::prelude::*;
use crate::broker::{Connect, Disconnect, SSEEvent};
use crate::text::{frame, frame_of};

verus! {

/// Where a session is in its life; `Stopped` is final.
#[derive(Clone, Copy, Debug, PartialEq, Eq, Structural)]
pub enum SessionState {
    Starting,
    Active,
    Stopping,
    Stopped,
}

/// One open streaming connection, bound to a topic and known to the broker
/// by its handle `id`.
pub struct SSEClient {
    topic: String,
    id: u64,
    state: SessionState,
}

impl SSEClient {
    /// The topic the session follows.
    pub closed spec fn spec_topic(&self) -> Seq<char> {
        self.topic@
    }

    /// The handle the broker knows the session by.
    pub closed spec fn spec_id(&self) -> u64 {
        self.id
    }

    /// The session's state.
    pub closed spec fn spec_state(&self) -> SessionState {
        self.state
    }

    /// A session on `topic` with handle `id`, waiting for its subscription to
    /// be acknowledged.
    pub fn new(topic: String, id: u64) -> (r: SSEClient)
        ensures
            r.spec_topic() == topic@,
            r.spec_id() == id,
            r.spec_state() == SessionState::Starting,
    {
        SSEClient { topic, id, state: SessionState::Starting }
    }

    /// The session's state.
    pub fn state(&self) -> (r: SessionState)
        ensures
            r == self.spec_state(),
    {
        self.state
    }

    /// The topic the session follows.
    pub fn topic(&self) -> (r: &String)
        ensures
            r@ == self.spec_topic(),
    {
        &self.topic
    }

    /// The handle the broker knows the session by.
    pub fn id(&self) -> (r: u64)
        ensures
            r == self.spec_id(),
    {
        self.id
    }

    /// The subscription that the session asks the broker for when it starts.
    pub fn started(&self) -> (r: Connect)
        ensures
            r.topic@ == self.spec_topic(),
            r.addr == self.spec_id(),
    {
        Connect { topic: self.topic.clone(), addr: self.id }
    }

    /// Takes the broker's answer to the subscription: a starting session
    /// becomes active when it was acknowledged, and stops at once when the
    /// broker could not be reached. In any other state nothing changes.
    pub fn connect_result(&mut self, acknowledged: bool)
        ensures
            final(self).spec_topic() == old(self).spec_topic(),
            final(self).spec_id() == old(self).spec_id(),
            final(self).spec_state() == (if old(self).spec_state() == SessionState::Starting {
                if acknowledged {
                    SessionState::Active
                } else {
                    SessionState::Stopped
                }
            } else {
                old(self).spec_state()
            }),
    {
        if self.state == SessionState::Starting {
            self.state = if acknowledged {
                SessionState::Active
            } else {
                SessionState::Stopped
            };
        }
    }

    /// The frame to write for `msg`: only an active session writes, and only
    /// events of its own topic.
    pub fn handle(&self, msg: &SSEEvent) -> (r: Option<String>)
        ensures
            match r {
                Some(f) => self.spec_state() == SessionState::Active && msg.topic@
                    == self.spec_topic() && f@ == frame_of(msg.text@),
                None => !(self.spec_state() == SessionState::Active && msg.topic@
                    == self.spec_topic()),
            },
    {
        if self.state == SessionState::Active && msg.topic == self.topic {
            Some(frame(msg.text.as_str()))
        } else {
            None
        }
    }

    /// Takes the outcome of a write: a failed write stops an active session.
    pub fn write_result(&mut self, written: bool)
        ensures
            final(self).spec_topic() == old(self).spec_topic(),
            final(self).spec_id() == old(self).spec_id(),
            final(self).spec_state() == (if old(self).spec_state() == SessionState::Active
                && !written {
                SessionState::Stopping
            } else {
                old(self).spec_state()
            }),
    {
        if self.state == SessionState::Active && !written {
            self.state = SessionState::Stopping;
        }
    }

    /// The transport closed: a session that is starting or active begins to
    /// stop.
    pub fn transport_closed(&mut self)
        ensures
            final(self).spec_topic() == old(self).spec_topic(),
            final(self).spec_id() == old(self).spec_id(),
            final(self).spec_state() == (if old(self).spec_state() == SessionState::Starting
                || old(self).spec_state() == SessionState::Active {
                SessionState::Stopping
            } else {
                old(self).spec_state()
            }),
    {
        if self.state == SessionState::Starting || self.state == SessionState::Active {
            self.state = SessionState::Stopping;
        }
    }

    /// Finishes a stopping session: it is stopped, and the broker is to be
    /// told to forget its handle. In any other state nothing changes and
    /// nothing is to be sent.
    pub fn stopping(&mut self) -> (r: Option<Disconnect>)
        ensures
            final(self).spec_topic() == old(self).spec_topic(),
            final(self).spec_id() == old(self).spec_id(),
            old(self).spec_state() == SessionState::Stopping ==> final(self).spec_state()
                == SessionState::Stopped && r == Some(Disconnect { addr: old(self).spec_id() }),
            old(self).spec_state() != SessionState::Stopping ==> final(self).spec_state()
                == old(self).spec_state() && r.is_none(),
    {
        if self.state == SessionState::Stopping {
            self.state = SessionState::Stopped;
            Some(Disconnect { addr: self.id })
        } else {
            None
        }
    }
}

} // verus!
