//! The sync session: one synchronization attempt with a remote peer. The
//! session is a state machine driven by the events the transport delivers.
//! On connect it pushes the full local snapshot entry by entry, in key order;
//! while syncing it decodes each inbound message and applies it to the store,
//! discarding malformed messages without closing the session. The transport
//! itself lives outside this crate: the caller opens the connection to the
//! session's target, feeds events in, and carries the returned messages out.

use crate::codec::decode;
use crate::codec::encode;
use crate::codec::lemma_round_trip;
use crate::codec::spec_decode;
use crate::codec::spec_encode;
use crate::codec::DecodeError;
use crate::order::lex_lt;
use crate::store::MemoryCache;
use vstd::prelude::*;

verus! {

/// Where a session stands. `Closed` and `Errored` are terminal: a new
/// synchronization request makes a new session rather than resuming one.
#[derive(Clone, Copy, Debug, PartialEq, Eq, Structural)]
pub enum SessionState {
    /// Created, not yet asked to connect.
    Idle,
    /// Waiting for the transport to report the connection open.
    Connecting,
    /// Connected: the snapshot has been handed over for pushing and inbound
    /// messages are applied as they arrive.
    Syncing,
    /// The connection closed normally.
    Closed,
    /// A connection, send, or transport failure ended the session.
    Errored,
}

/// What the transport reports to the session.
pub enum TransportEvent {
    /// The connection to the peer is open.
    Opened,
    /// One whole inbound message.
    Message(Vec<u8>),
    /// The connection closed normally.
    Closed,
    /// The connection could not be established, or failed underway.
    Failed,
}

/// What the session asks of its caller after an event.
pub enum SyncOutcome {
    /// The event carried no work in the session's current state.
    Ignored,
    /// Send these messages to the peer, first to last; report a failed send
    /// with [`SyncSession::on_send_failed`] and stop pushing.
    Push(Vec<Vec<u8>>),
    /// An inbound entry was decoded and applied to the store.
    Applied,
    /// An inbound message was malformed and discarded; the session goes on.
    Rejected(DecodeError),
    /// The connection was never established; surface this to whoever asked
    /// for the sync.
    ConnectFailed,
    /// The connection closed normally; nothing further will change.
    Disconnected,
    /// The transport failed underway; the store keeps what was applied.
    TransportFailed,
}

/// The pushed messages are the snapshot's entries, encoded one to one and in
/// order.
pub open spec fn push_messages_match(msgs: Seq<Vec<u8>>, s: Seq<(Seq<char>, Seq<char>)>) -> bool {
    msgs.len() == s.len() && forall|i: int|
        0 <= i < s.len() ==> (#[trigger] msgs[i])@ == spec_encode(s[i].0, s[i].1)
}

/// One synchronization relationship with a remote peer. The session does not
/// own the store; the store outlives it.
pub struct SyncSession {
    state: SessionState,
    target: String,
}

impl SyncSession {
    /// Where the session stands.
    pub closed spec fn state_spec(&self) -> SessionState {
        self.state
    }

    /// The address the session was asked to synchronize with.
    pub closed spec fn target_spec(&self) -> Seq<char> {
        self.target@
    }

    /// Creates a session for `target`, not yet connecting.
    pub fn new(target: String) -> (s: SyncSession)
        ensures
            s.state_spec() is Idle,
            s.target_spec() == target@,
    {
        SyncSession { state: SessionState::Idle, target }
    }

    /// Requests synchronization with `target`: a fresh session, already asked
    /// to connect. The caller opens the transport to the target and drives
    /// the session with the events the transport reports.
    pub fn start_sync(target: String) -> (s: SyncSession)
        ensures
            s.state_spec() is Connecting,
            s.target_spec() == target@,
    {
        let mut s = SyncSession::new(target);
        s.start();
        s
    }

    /// Asks the session to connect. The caller then opens the transport to
    /// the session's target and reports what came of it.
    pub fn start(&mut self)
        requires
            old(self).state_spec() is Idle,
        ensures
            final(self).state_spec() is Connecting,
            final(self).target_spec() == old(self).target_spec(),
    {
        self.state = SessionState::Connecting;
    }

    /// Where the session stands, for the caller driving the transport.
    pub fn state(&self) -> (r: SessionState)
        ensures
            r == self.state_spec(),
    {
        self.state
    }

    /// The address to open the transport to.
    pub fn target(&self) -> (r: &String)
        ensures
            r@ == self.target_spec(),
    {
        &self.target
    }

    /// Drives the session by one transport event.
    ///
    /// In `Connecting`, an open connection moves the session to `Syncing` and
    /// hands back the store's full snapshot, encoded entry by entry in key
    /// order, for the caller to send; a failure or early close ends the
    /// session in `Errored`. In `Syncing`, each inbound message that decodes
    /// is applied to the store, overwriting any prior value for its key; a
    /// malformed message is discarded and changes nothing; a normal close
    /// ends in `Closed`, a transport failure in `Errored`. Events reaching a
    /// session that is idle or already ended change nothing.
    pub fn on_event(&mut self, cache: &mut MemoryCache, ev: TransportEvent) -> (r: SyncOutcome)
        requires
            old(cache).wf(),
        ensures
            final(cache).wf(),
            final(self).target_spec() == old(self).target_spec(),
            (old(self).state_spec() is Idle || old(self).state_spec() is Closed || old(self).state_spec() is Errored)
                ==> (*final(self) == *old(self) && *final(cache) == *old(cache) && r is Ignored),
            (old(self).state_spec() is Connecting && ev is Opened)
                ==> (final(self).state_spec() is Syncing && *final(cache) == *old(cache)
                    && (r matches SyncOutcome::Push(msgs)
                    && push_messages_match(msgs@, old(cache).seq_view()))),
            (old(self).state_spec() is Connecting && (ev is Failed || ev is Closed))
                ==> (final(self).state_spec() is Errored && *final(cache) == *old(cache)
                    && r is ConnectFailed),
            (old(self).state_spec() is Connecting && ev is Message)
                ==> (*final(self) == *old(self) && *final(cache) == *old(cache) && r is Ignored),
            old(self).state_spec() is Syncing ==> (ev matches TransportEvent::Message(b)
                ==> match spec_decode(b@) {
                    Some(kv) => final(self).state_spec() is Syncing
                        && final(cache)@ == old(cache)@.insert(kv.0, kv.1) && r is Applied,
                    None => *final(self) == *old(self) && *final(cache) == *old(cache)
                        && r is Rejected,
                }),
            (old(self).state_spec() is Syncing && ev is Opened)
                ==> (*final(self) == *old(self) && *final(cache) == *old(cache) && r is Ignored),
            (old(self).state_spec() is Syncing && ev is Closed)
                ==> (final(self).state_spec() is Closed && *final(cache) == *old(cache)
                    && r is Disconnected),
            (old(self).state_spec() is Syncing && ev is Failed)
                ==> (final(self).state_spec() is Errored && *final(cache) == *old(cache)
                    && r is TransportFailed),
    {
        match self.state {
            SessionState::Connecting => {
                match ev {
                    TransportEvent::Opened => {
                        self.state = SessionState::Syncing;
                        let snap = cache.snapshot();
                        let mut msgs: Vec<Vec<u8>> = Vec::new();
                        let n = snap.len();
                        let mut i: usize = 0;
                        while i < n
                            invariant
                                i <= n,
                                n == snap@.len(),
                                snap@.len() == cache.seq_view().len(),
                                forall|j: int|
                                    0 <= j < n ==> (#[trigger] snap@[j]).key@
                                        == cache.seq_view()[j].0 && snap@[j].value@
                                        == cache.seq_view()[j].1,
                                msgs@.len() == i,
                                forall|j: int|
                                    0 <= j < i ==> (#[trigger] msgs@[j])@ == spec_encode(
                                        cache.seq_view()[j].0,
                                        cache.seq_view()[j].1,
                                    ),
                            decreases n - i,
                        {
                            let m = encode(&snap[i]);
                            msgs.push(m);
                            i = i + 1;
                        }
                        SyncOutcome::Push(msgs)
                    },
                    TransportEvent::Message(_) => SyncOutcome::Ignored,
                    TransportEvent::Closed => {
                        self.state = SessionState::Errored;
                        SyncOutcome::ConnectFailed
                    },
                    TransportEvent::Failed => {
                        self.state = SessionState::Errored;
                        SyncOutcome::ConnectFailed
                    },
                }
            },
            SessionState::Syncing => {
                match ev {
                    TransportEvent::Opened => SyncOutcome::Ignored,
                    TransportEvent::Message(b) => {
                        match decode(b.as_slice()) {
                            Ok(e) => {
                                cache.insert(e.key, e.value);
                                SyncOutcome::Applied
                            },
                            Err(err) => SyncOutcome::Rejected(err),
                        }
                    },
                    TransportEvent::Closed => {
                        self.state = SessionState::Closed;
                        SyncOutcome::Disconnected
                    },
                    TransportEvent::Failed => {
                        self.state = SessionState::Errored;
                        SyncOutcome::TransportFailed
                    },
                }
            },
            _ => SyncOutcome::Ignored,
        }
    }

    /// Reports that sending a pushed message failed. Fatal to the push: the
    /// session ends in `Errored`, the store keeps what it had.
    pub fn on_send_failed(&mut self)
        ensures
            final(self).target_spec() == old(self).target_spec(),
            old(self).state_spec() is Syncing ==> final(self).state_spec() is Errored,
            !(old(self).state_spec() is Syncing) ==> *final(self) == *old(self),
    {
        if let SessionState::Syncing = self.state {
            self.state = SessionState::Errored;
        }
    }
}

/// Push ordering law: the messages pushed on connect decode back to exactly
/// the store's entries, whose keys ascend strictly; the peer reads them in
/// key order.
pub proof fn lemma_push_ordered(msgs: Seq<Vec<u8>>, cache: MemoryCache)
    requires
        cache.wf(),
        push_messages_match(msgs, cache.seq_view()),
    ensures
        forall|i: int|
            0 <= i < msgs.len() ==> spec_decode((#[trigger] msgs[i])@) == Some(
                (cache.seq_view()[i].0, cache.seq_view()[i].1),
            ),
        forall|i: int, j: int|
            0 <= i < j < msgs.len() ==> lex_lt(
                (#[trigger] cache.seq_view()[i]).0,
                (#[trigger] cache.seq_view()[j]).0,
            ),
{
    cache.lemma_snapshot_complete();
    assert forall|i: int|
        0 <= i < msgs.len() implies spec_decode((#[trigger] msgs[i])@) == Some(
        (cache.seq_view()[i].0, cache.seq_view()[i].1),
    ) by {
        lemma_round_trip(cache.seq_view()[i].0, cache.seq_view()[i].1);
    }
}

} // verus!
