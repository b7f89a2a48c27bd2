//! The parts of a query: its configuration, its progress, and the peers that
//! it knows.

use vstd::prelude::*;

use crate::key::Key;
use crate::time::{Duration, Instant};

verus! {

/// The configuration of a query.
#[derive(Clone, Copy, PartialEq, Eq, Structural, Debug)]
pub struct QueryConfig {
    /// The number of requests allowed in flight while the query iterates.
    /// Also the number of answers without progress after which it stalls.
    pub parallelism: usize,
    /// The number of closest peers that the query is to find.
    pub num_results: usize,
    /// How long to wait for the answer of a single peer.
    pub peer_timeout: Duration,
    /// How long the query as a whole may take.
    pub overall_timeout: Duration,
}

/// The stage that a query has reached.
#[derive(Clone, Copy, PartialEq, Eq, Structural, Debug)]
pub enum QueryProgress {
    /// The query is working towards the target; `no_progress` counts the
    /// answers in a row that brought it no nearer.
    Iterating { no_progress: usize },
    /// The query has stopped making progress and asks more peers at once.
    Stalled,
    /// The query is over.
    Finished,
}

/// The state of a single peer within a query.
#[derive(Clone, Copy, PartialEq, Eq, Structural, Debug)]
pub enum QueryPeerState {
    /// The peer has not been asked.
    NotContacted,
    /// The peer has been asked and has until the given instant to answer.
    Waiting(Instant),
    /// The peer has not answered in time. It may still do so.
    Unresponsive,
    /// Asking the peer has failed.
    Failed,
    /// The peer has answered.
    Succeeded,
}

/// What a query wants done next.
#[derive(Clone, PartialEq, Eq, Debug)]
pub enum QueryState<TNodeId> {
    /// The query is waiting for answers. If it names a peer, that peer is to
    /// be asked now.
    Waiting(Option<TNodeId>),
    /// The query is waiting for answers and may not ask any further peer.
    WaitingAtCapacity,
    /// The query wants content from the given peer validated.
    Validating(TNodeId),
    /// The query is over.
    Finished,
}

/// A peer that a query knows.
#[derive(Clone, Debug)]
pub struct QueryPeer<TNodeId> {
    pub key: Key<TNodeId>,
    /// The number of peers that this peer has reported.
    pub peers_returned: usize,
    pub state: QueryPeerState,
}

impl<TNodeId> QueryPeer<TNodeId> {
    /// This peer, in another state.
    pub open spec fn in_state(self, state: QueryPeerState) -> Self {
        QueryPeer { state, ..self }
    }

    /// This peer, having answered with `returned` peers.
    pub open spec fn answered(self, returned: int) -> Self {
        QueryPeer {
            state: QueryPeerState::Succeeded,
            peers_returned: (self.peers_returned + returned) as usize,
            ..self
        }
    }

    /// A peer that has reported nothing yet.
    pub fn new(key: Key<TNodeId>, state: QueryPeerState) -> (r: Self)
        ensures
            r == (QueryPeer { key, peers_returned: 0, state }),
    {
        QueryPeer { key, peers_returned: 0, state }
    }

    /// The key of the peer.
    pub fn key(&self) -> (r: &Key<TNodeId>)
        ensures
            *r == self.key,
    {
        &self.key
    }

    /// The state of the peer.
    pub fn state(&self) -> (r: &QueryPeerState)
        ensures
            *r == self.state,
    {
        &self.state
    }

    /// Moves the peer to another state.
    pub fn set_state(&mut self, state: QueryPeerState)
        ensures
            *final(self) == old(self).in_state(state),
            final(self).state == state,
            final(self).key == old(self).key,
            final(self).peers_returned == old(self).peers_returned,
    {
        self.state = state;
    }

    /// Records that the peer has reported `num_peers` more peers.
    pub fn increment_peers_returned(&mut self, num_peers: usize)
        requires
            old(self).peers_returned + num_peers <= usize::MAX,
        ensures
            *final(self) == (QueryPeer {
                peers_returned: (old(self).peers_returned + num_peers) as usize,
                ..*old(self)
            }),
    {
        self.peers_returned = self.peers_returned + num_peers;
    }
}

} // verus!
