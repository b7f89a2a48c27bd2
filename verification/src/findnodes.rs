//! The iterative lookup of the nodes closest to a target.

use vstd::prelude::*;

use crate::key::{key_of, keyed_as, keyed_each, keys_of, Key};
use crate::model::{
    brings_forward, first_of, lemma_brings_forward_step, lemma_failure_valid, lemma_initial_valid,
    lemma_marked, lemma_poll_valid, lemma_stop_from, lemma_success_valid, lemma_timed_out_step,
    pending, timed_out, PollOutcome, QueryModel,
};
use crate::peers::{
    all_fresh, count, is_succeeded, is_waiting, lemma_all_fresh, lemma_count_bound,
    lemma_count_take, lemma_count_update, lemma_with_all_new, lemma_with_all_new_count, locate,
    ordered, with_all_new,
};
use crate::query::{QueryConfig, QueryPeer, QueryPeerState, QueryProgress, QueryState};
use crate::time::Instant;

verus! {

/// A query for the nodes closest to a target.
#[derive(Debug, Clone)]
pub struct FindNodeQuery<TNodeId> {
    /// The target key we are looking for
    target_key: Key<TNodeId>,
    /// The instant when the query started.
    started: Option<Instant>,
    /// The current state of progress of the query.
    progress: QueryProgress,
    /// The closest peers to the target, ordered by increasing distance.
    closest_peers: Vec<QueryPeer<TNodeId>>,
    /// The number of peers for which the query is currently waiting for results.
    num_waiting: usize,
    /// The configuration of the query.
    config: QueryConfig,
}

impl<TNodeId> View for FindNodeQuery<TNodeId> {
    type V = QueryModel<TNodeId>;

    closed spec fn view(&self) -> QueryModel<TNodeId> {
        QueryModel {
            target: self.target_key,
            started: self.started,
            progress: self.progress,
            peers: self.closest_peers@,
            num_waiting: self.num_waiting as nat,
            config: self.config,
        }
    }
}

impl<TNodeId> FindNodeQuery<TNodeId> where TNodeId: Into<Key<TNodeId>> + Eq + Clone {
    /// Creates a new query with the given configuration.
    ///
    /// Of the known peers the first `num_results` are taken; where two of them
    /// have the same key, the later one.
    pub fn with_config(
        config: QueryConfig,
        target_key: Key<TNodeId>,
        known_closest_peers: Vec<Key<TNodeId>>,
    ) -> (r: Self)
        ensures
            r@ == QueryModel::initial(config, target_key, known_closest_peers@),
            r@.valid(),
    {
        let ghost hash = target_key.hash;
        let ghost keys = first_of(known_closest_peers@, config.num_results as int);
        let mut taken = known_closest_peers;
        taken.truncate(config.num_results);
        let mut closest_peers: Vec<QueryPeer<TNodeId>> = Vec::new();
        assert(taken@ == keys);
        assert(keys.take(0) =~= Seq::empty());
        for key in iter: taken
            invariant
                iter.seq() == keys,
                hash == target_key.hash,
                closest_peers@ == all_fresh(hash, keys.take(iter.index())),
        {
            let ghost n = iter.index();
            proof {
                assert(keys.take(n + 1).drop_last() =~= keys.take(n));
                assert(keys.take(n + 1).last() == keys[n]);
                lemma_all_fresh(hash, keys.take(n));
            }
            let (at, known) = locate(&target_key.hash, &closest_peers, &key.hash);
            let peer = QueryPeer::new(key, QueryPeerState::NotContacted);
            if known {
                closest_peers[at] = peer;
            } else {
                closest_peers.insert(at, peer);
            }
        }
        proof {
            assert(keys.take(keys.len() as int) =~= keys);
            lemma_initial_valid(config, target_key, known_closest_peers@);
        }
        // The query initially makes progress by iterating towards the target.
        FindNodeQuery {
            target_key,
            started: None,
            progress: QueryProgress::Iterating { no_progress: 0 },
            closest_peers,
            num_waiting: 0,
            config,
        }
    }

    /// The closest peers that have answered, at most `num_results` of them, the
    /// closest first.
    pub fn into_result(self) -> (r: Vec<TNodeId>)
        ensures
            r@.len() == self@.result().len(),
            forall|i: int|
                0 <= i < r@.len() ==> cloned(
                    self@.result()[i].key.preimage,
                    #[trigger] r@[i],
                ),
    {
        let mut result: Vec<TNodeId> = Vec::new();
        let mut i: usize = 0;
        let ghost peers = self@.peers;
        let ghost answered = peers.take(0).filter(is_succeeded());
        proof {
            reveal(Seq::filter);
        }
        while i < self.closest_peers.len() && result.len() < self.config.num_results
            invariant
                peers == self@.peers,
                peers == self.closest_peers@,
                i <= peers.len(),
                answered == peers.take(i as int).filter(is_succeeded()),
                result@.len() == answered.len(),
                result@.len() <= self.config.num_results,
                forall|j: int|
                    0 <= j < result@.len() ==> cloned(
                        answered[j].key.preimage,
                        #[trigger] result@[j],
                    ),
            decreases peers.len() - i,
        {
            proof {
                reveal(Seq::filter);
                assert(peers.take(i + 1).drop_last() =~= peers.take(i as int));
                assert(peers.take(i + 1).last() == peers[i as int]);
                answered = peers.take(i + 1).filter(is_succeeded());
            }
            if let QueryPeerState::Succeeded = self.closest_peers[i].state {
                result.push(self.closest_peers[i].key.preimage.clone());
            }
            i = i + 1;
        }
        proof {
            let rest = peers.skip(i as int);
            assert(peers =~= peers.take(i as int) + rest);
            Seq::filter_distributes_over_add(peers.take(i as int), rest, is_succeeded());
            if i == peers.len() {
                assert(peers.take(i as int) =~= peers);
            }
            assert(self@.result() =~= answered);
        }
        result
    }

    /// Notes the instant when the query started.
    pub fn start(&mut self, start: Instant)
        ensures
            final(self)@ == (QueryModel { started: Some(start), ..old(self)@ }),
    {
        self.started = Some(start);
    }

    /// The instant when the query started, if it has.
    pub fn started(&self) -> (r: Option<Instant>)
        ensures
            r == self@.started,
    {
        self.started
    }

    /// The configuration of the query.
    pub fn config(&self) -> (r: &QueryConfig)
        ensures
            *r == self@.config,
    {
        &self.config
    }

    /// The key that the query is looking for.
    pub fn target(&self) -> (r: Key<TNodeId>)
        ensures
            r.hash == self@.target.hash,
            cloned(self@.target.preimage, r.preimage),
    {
        self.target_key.clone()
    }

    /// The stage that the query has reached.
    pub fn progress(&self) -> (r: QueryProgress)
        ensures
            r == self@.progress,
    {
        self.progress
    }

    /// The number of peers whose answer is being waited for.
    pub fn num_waiting(&self) -> (r: usize)
        ensures
            r == self@.num_waiting,
    {
        self.num_waiting
    }

    /// The known peers, the closest to the target first.
    pub fn closest_peers(&self) -> (r: &Vec<QueryPeer<TNodeId>>)
        ensures
            r@ == self@.peers,
    {
        &self.closest_peers
    }

    /// Checks if the query is at capacity w.r.t. the permitted parallelism.
    ///
    /// While the query is stalled, up to `num_results` parallel requests are
    /// allowed. This is a slightly more permissive variant of the requirement
    /// that the initiator "resends the FIND_NODE to all of the k closest nodes
    /// it has not already queried".
    pub fn at_capacity(&self) -> (r: bool)
        ensures
            r == self@.at_capacity(),
    {
        match self.progress {
            QueryProgress::Stalled => self.num_waiting >= self.config.num_results,
            QueryProgress::Iterating { .. } => self.num_waiting >= self.config.parallelism,
            QueryProgress::Finished => true,
        }
    }

    /// Whether an answer or a failure of the peer with this key would be recorded.
    pub fn awaits(&self, key: &Key<TNodeId>) -> (r: bool)
        requires
            self@.valid(),
        ensures
            r == self@.awaits(key.hash),
    {
        if let QueryProgress::Finished = self.progress {
            return false;
        }
        let (i, known) = locate(&self.target_key.hash, &self.closest_peers, &key.hash);
        if !known {
            return false;
        }
        match self.closest_peers[i].state {
            QueryPeerState::Waiting(_) | QueryPeerState::Unresponsive => true,
            _ => false,
        }
    }

    /// Records that the peer with the given key could not be reached.
    pub fn record_failure(&mut self, key: &Key<TNodeId>)
        requires
            old(self)@.valid(),
        ensures
            final(self)@ == old(self)@.after_failure(key.hash),
            final(self)@.valid(),
    {
        let ghost q = self@;
        proof {
            lemma_failure_valid(q, key.hash);
        }
        if let QueryProgress::Finished = self.progress {
            return;
        }
        let (i, known) = locate(&self.target_key.hash, &self.closest_peers, &key.hash);
        if !known {
            return;
        }
        proof {
            let peer = q.peers[i as int].in_state(QueryPeerState::Failed);
            lemma_count_update(q.peers, i as int, peer, is_waiting());
        }
        match self.closest_peers[i].state {
            QueryPeerState::Waiting(_) => {
                self.num_waiting = self.num_waiting - 1;
                self.closest_peers[i].set_state(QueryPeerState::Failed);
            },
            QueryPeerState::Unresponsive => {
                self.closest_peers[i].set_state(QueryPeerState::Failed);
            },
            _ => {},
        }
    }

    /// Records that the peer with the given key has answered with `closer_peers`.
    pub fn record_success(&mut self, key: &Key<TNodeId>, closer_peers: Vec<Key<TNodeId>>)
        requires
            old(self)@.valid(),
        ensures
            final(self)@ == old(self)@.after_success(key.hash, closer_peers@),
            final(self)@.valid(),
    {
        let ghost q = self@;
        let ghost keys = closer_peers@;
        proof {
            lemma_success_valid(q, key.hash, keys);
        }
        if !self.awaits(key) {
            return;
        }
        proof {
            lemma_marked(q, key.hash, keys.len() as int);
        }
        let (i, _) = locate(&self.target_key.hash, &self.closest_peers, &key.hash);
        if let QueryPeerState::Waiting(_) = self.closest_peers[i].state {
            self.num_waiting = self.num_waiting - 1;
        }
        self.closest_peers[i].increment_peers_returned(closer_peers.len());
        self.closest_peers[i].set_state(QueryPeerState::Succeeded);
        let ghost marked = self.closest_peers@;
        assert(marked == q.peers.update(i as int, q.peers[i as int].answered(keys.len() as int)));

        // Incorporate the reported closer peers into the query.
        let mut progress = false;
        let num_closest = self.closest_peers.len();
        assert(keys.take(0) =~= Seq::empty());
        for peer in iter: closer_peers
            invariant
                iter.seq() == keys,
                ordered(q.target.hash, marked),
                num_closest == marked.len(),
                self.target_key == q.target,
                self.started == q.started,
                self.progress == q.progress,
                self.config == q.config,
                self.num_waiting == count(marked, is_waiting()),
                self.closest_peers@ == with_all_new(
                    q.target.hash,
                    marked,
                    keys.take(iter.index()),
                ),
                progress == brings_forward(
                    q.target.hash,
                    marked,
                    keys.take(iter.index()),
                    q.config.num_results as int,
                ),
        {
            let ghost n = iter.index();
            proof {
                assert(keys.take(n + 1).drop_last() =~= keys.take(n));
                assert(keys.take(n + 1).last() == keys[n]);
                lemma_with_all_new(q.target.hash, marked, keys.take(n));
                lemma_brings_forward_step(
                    q.target.hash,
                    marked,
                    keys,
                    n,
                    q.config.num_results as int,
                );
            }
            let (at, known) = locate(&self.target_key.hash, &self.closest_peers, &peer.hash);
            if !known {
                self.closest_peers.insert(at, QueryPeer::new(peer, QueryPeerState::NotContacted));
                // The query makes progress if the new peer is either closer to the
                // target than any peer seen so far, or the query did not yet
                // accumulate enough closest peers.
                if at == 0 || num_closest < self.config.num_results {
                    progress = true;
                }
            }
        }
        proof {
            assert(keys.take(keys.len() as int) =~= keys);
            lemma_with_all_new_count(q.target.hash, marked, keys, is_waiting());
        }

        // Update the query progress.
        self.progress = match self.progress {
            QueryProgress::Iterating { no_progress } => {
                let no_progress: usize = if progress {
                    0
                } else {
                    no_progress + 1
                };
                if no_progress >= self.config.parallelism {
                    QueryProgress::Stalled
                } else {
                    QueryProgress::Iterating { no_progress }
                }
            },
            QueryProgress::Stalled => {
                if progress {
                    QueryProgress::Iterating { no_progress: 0 }
                } else {
                    QueryProgress::Stalled
                }
            },
            QueryProgress::Finished => QueryProgress::Finished,
        };
    }

    /// Reports that `peer` could not be reached.
    pub fn on_failure(&mut self, peer: &TNodeId)
        requires
            old(self)@.valid(),
        ensures
            final(self)@.valid(),
            if old(self)@.progress is Finished {
                final(self)@ == old(self)@
            } else {
                exists|key: Key<TNodeId>| #[trigger]
                    keyed_as(*peer, key) && final(self)@ == old(self)@.after_failure(key.hash)
            },
    {
        if let QueryProgress::Finished = self.progress {
            return;
        }
        let key = key_of(peer);
        self.record_failure(&key);
    }

    /// Delivering results of requests back to the query allows the query to make
    /// progress. The query is said to make progress either when the given
    /// `peer_response` contains a peer closer to the target than any peer seen so
    /// far, or when the query did not yet accumulate `num_results` closest peers
    /// and `peer_response` contains a new peer, regardless of its distance to the
    /// target.
    pub fn on_success(&mut self, peer: &TNodeId, peer_response: Vec<TNodeId>)
        requires
            old(self)@.valid(),
        ensures
            final(self)@.valid(),
            if old(self)@.progress is Finished {
                final(self)@ == old(self)@
            } else {
                exists|key: Key<TNodeId>| #[trigger]
                    keyed_as(*peer, key) && if old(self)@.awaits(key.hash) {
                        exists|keys: Seq<Key<TNodeId>>| #[trigger]
                            keyed_each(peer_response@, keys) && final(self)@
                                == old(self)@.after_success(key.hash, keys)
                    } else {
                        final(self)@ == old(self)@
                    }
            },
    {
        if let QueryProgress::Finished = self.progress {
            return;
        }
        let key = key_of(peer);
        if self.awaits(&key) {
            let keys = keys_of(peer_response);
            self.record_success(&key, keys);
        }
    }

    /// Advances the query at time `now` and says what is to be done next.
    ///
    /// The peers are visited in the order of their distance to the target.
    /// Those that have run out of time become unresponsive. The query is
    /// finished when the closest peers have given `num_results` answers with
    /// none of them pending, or when all peers have been dealt with.
    pub fn poll(&mut self, now: Instant) -> (r: QueryState<TNodeId>)
        requires
            old(self)@.valid(),
            old(self)@.poll_outcome(now) is Contact ==> now.reaches(
                old(self)@.config.peer_timeout,
            ),
        ensures
            final(self)@ == old(self)@.after_poll(now),
            final(self)@.valid(),
            match old(self)@.poll_outcome(now) {
                PollOutcome::Finished => r is Finished,
                PollOutcome::Contact(i) => r matches QueryState::Waiting(Some(peer)) && cloned(
                    old(self)@.peers[i].key.preimage,
                    peer,
                ),
                PollOutcome::AtCapacity => r is WaitingAtCapacity,
                PollOutcome::Idle => r matches QueryState::Waiting(None),
            },
    {
        let ghost q = self@;
        if let QueryProgress::Finished = self.progress {
            return QueryState::Finished;
        }
        proof {
            lemma_poll_valid(q, now);
        }
        // The answers among the closest peers; `None` once one of them is
        // pending, as the query can only finish when they have all responded.
        let mut result_counter: Option<usize> = Some(0);
        let at_capacity = self.at_capacity();
        let mut i: usize = 0;
        assert(timed_out(q.peers, now, 0) =~= q.peers);
        assert(q.with_peers(q.peers) =~= q);
        while i < self.closest_peers.len()
            invariant
                q.valid(),
                q.after_poll(now).valid(),
                !(q.progress is Finished),
                q.poll_outcome(now) is Contact ==> now.reaches(q.config.peer_timeout),
                q == old(self)@,
                at_capacity == q.at_capacity(),
                i <= q.peers.len(),
                self@ == q.with_peers(timed_out(q.peers, now, i as int)),
                forall|j: int| 0 <= j < i ==> !#[trigger] q.stops_at(now, j),
                result_counter is None <==> exists|j: int|
                    0 <= j < i && pending(#[trigger] q.peers[j], now),
                result_counter matches Some(c) ==> c == count(
                    q.peers.take(i as int),
                    is_succeeded(),
                ),
            decreases q.peers.len() - i,
        {
            proof {
                lemma_timed_out_step(q.peers, now, i as int);
                lemma_count_take(q.peers, i as int, is_succeeded());
                lemma_count_bound(q.peers.take(i as int), is_succeeded());
                if q.stops_at(now, i as int) {
                    lemma_stop_from(q, now, 0, i as int);
                }
            }
            let ghost before = self.closest_peers@;
            match self.closest_peers[i].state {
                QueryPeerState::NotContacted => {
                    if !at_capacity {
                        let timeout = Instant {
                            nanos: now.nanos + self.config.peer_timeout.nanos,
                        };
                        let waiting = QueryPeerState::Waiting(timeout);
                        proof {
                            let peer = before[i as int].in_state(waiting);
                            lemma_count_update(before, i as int, peer, is_waiting());
                            lemma_count_bound(before.update(i as int, peer), is_waiting());
                        }
                        self.closest_peers[i].set_state(waiting);
                        self.num_waiting = self.num_waiting + 1;
                        let peer = self.closest_peers[i].key.preimage.clone();
                        return QueryState::Waiting(Some(peer));
                    } else {
                        return QueryState::WaitingAtCapacity;
                    }
                },
                QueryPeerState::Waiting(timeout) => {
                    if timeout.is_due(now) {
                        proof {
                            let peer = before[i as int].in_state(QueryPeerState::Unresponsive);
                            lemma_count_update(before, i as int, peer, is_waiting());
                        }
                        self.num_waiting = self.num_waiting - 1;
                        self.closest_peers[i].set_state(QueryPeerState::Unresponsive);
                    } else if at_capacity {
                        return QueryState::WaitingAtCapacity;
                    } else {
                        assert(pending(q.peers[i as int], now));
                        result_counter = None;
                    }
                },
                QueryPeerState::Succeeded => {
                    if let Some(counted) = result_counter {
                        let counted: usize = counted + 1;
                        result_counter = Some(counted);
                        if counted >= self.config.num_results {
                            self.progress = QueryProgress::Finished;
                            return QueryState::Finished;
                        }
                    }
                },
                QueryPeerState::Failed | QueryPeerState::Unresponsive => {},
            }
            i = i + 1;
        }
        proof {
            lemma_stop_from(q, now, 0, i as int);
        }
        if self.num_waiting > 0 {
            QueryState::Waiting(None)
        } else {
            self.progress = QueryProgress::Finished;
            QueryState::Finished
        }
    }
}

} // verus!
