//! The states of a node lookup and the steps between them.

use vstd::prelude::*;

use crate::key::{distance, Key};
use crate::peers::{
    all_fresh, count, is_succeeded, is_waiting, lemma_all_fresh, lemma_count_none, lemma_count_same,
    lemma_count_update, lemma_rank_splits, lemma_with_all_new, lemma_with_all_new_count, occupied,
    ordered, peer_distance, rank, with_all_new,
};
use crate::query::{QueryConfig, QueryPeer, QueryPeerState, QueryProgress};
use crate::time::Instant;

verus! {

/// The first `n` items, or all where there are fewer.
pub open spec fn first_of<A>(items: Seq<A>, n: int) -> Seq<A> {
    if items.len() <= n {
        items
    } else {
        items.take(n)
    }
}

/// The state of a node lookup.
#[verifier::ext_equal]
pub struct QueryModel<T> {
    pub target: Key<T>,
    pub started: Option<Instant>,
    pub progress: QueryProgress,
    /// The known peers, the closest to the target first.
    pub peers: Seq<QueryPeer<T>>,
    /// The number of peers whose answer is being waited for.
    pub num_waiting: nat,
    pub config: QueryConfig,
}

/// What a poll of a query finds.
pub enum PollOutcome {
    /// The query is over.
    Finished,
    /// The peer at this place is to be asked.
    Contact(int),
    /// No peer may be asked before another one answers.
    AtCapacity,
    /// No peer is left to ask, but answers are outstanding.
    Idle,
}

/// The peer is waited for and its time is up.
pub open spec fn expired<T>(peer: QueryPeer<T>, now: Instant) -> bool {
    peer.state matches QueryPeerState::Waiting(deadline) && now.nanos >= deadline.nanos
}

/// The peer is waited for and has time left.
pub open spec fn pending<T>(peer: QueryPeer<T>, now: Instant) -> bool {
    peer.state is Waiting && !expired(peer, now)
}

/// Nothing is to be done about the peer: it has been asked and is not waited for.
pub open spec fn settled<T>(peer: QueryPeer<T>) -> bool {
    !(peer.state is NotContacted) && !(peer.state is Waiting)
}

/// The first `end` peers with those that have run out of time marked as
/// unresponsive, and the other peers as they are.
pub open spec fn timed_out<T>(
    peers: Seq<QueryPeer<T>>,
    now: Instant,
    end: int,
) -> Seq<QueryPeer<T>> {
    Seq::new(
        peers.len(),
        |i: int|
            if i < end && expired(peers[i], now) {
                peers[i].in_state(QueryPeerState::Unresponsive)
            } else {
                peers[i]
            },
    )
}

/// The first `k` peers are settled, and they are all peers or hold enough answers.
pub open spec fn conclusive_at<T>(
    peers: Seq<QueryPeer<T>>,
    num_results: int,
    k: int,
) -> bool {
    &&& 0 <= k <= peers.len()
    &&& forall|j: int| 0 <= j < k ==> settled(#[trigger] peers[j])
    &&& k == peers.len() || count(peers.take(k), is_succeeded()) >= num_results
}

/// A finished query has either enough answers, from the closest peers that
/// could be reached, or has settled every peer.
pub open spec fn conclusive<T>(peers: Seq<QueryPeer<T>>, num_results: int) -> bool {
    exists|k: int| conclusive_at(peers, num_results, k)
}

/// Whether a peer reported to a query brings it forward: the peer is closer to
/// the target than every peer known so far, or it is new and fewer than
/// `num_results` peers are known so far.
pub open spec fn brings_nearer<T>(
    target: [u8; 32],
    peers: Seq<QueryPeer<T>>,
    key: Key<T>,
    num_results: int,
) -> bool {
    let d = distance(key.hash, target);
    ||| forall|i: int| 0 <= i < peers.len() ==> d < peer_distance(target, #[trigger] peers[i])
    ||| peers.len() < num_results && !occupied(target, peers, d)
}

/// Whether one of the peers reported to a query brings it forward.
pub open spec fn brings_forward<T>(
    target: [u8; 32],
    peers: Seq<QueryPeer<T>>,
    keys: Seq<Key<T>>,
    num_results: int,
) -> bool {
    exists|j: int|
        0 <= j < keys.len() && brings_nearer(target, peers, #[trigger] keys[j], num_results)
}

/// The stage of an unfinished query after an answer.
pub open spec fn next_progress(
    progress: QueryProgress,
    forward: bool,
    parallelism: int,
) -> QueryProgress {
    match progress {
        QueryProgress::Iterating { no_progress } => {
            let in_a_row = if forward {
                0
            } else {
                no_progress + 1
            };
            if in_a_row >= parallelism {
                QueryProgress::Stalled
            } else {
                QueryProgress::Iterating { no_progress: in_a_row as usize }
            }
        },
        QueryProgress::Stalled => if forward {
            QueryProgress::Iterating { no_progress: 0 }
        } else {
            QueryProgress::Stalled
        },
        QueryProgress::Finished => QueryProgress::Finished,
    }
}

impl<T> QueryModel<T> {
    /// A query that has just been set up, with the first `num_results` of the
    /// peers known at the start.
    pub open spec fn initial(config: QueryConfig, target: Key<T>, known: Seq<Key<T>>) -> Self {
        QueryModel {
            target,
            started: None,
            progress: QueryProgress::Iterating { no_progress: 0 },
            peers: all_fresh(target.hash, first_of(known, config.num_results as int)),
            num_waiting: 0,
            config,
        }
    }

    /// What holds of every query.
    pub open spec fn valid(self) -> bool {
        &&& ordered(self.target.hash, self.peers)
        &&& self.num_waiting == count(self.peers, is_waiting())
        &&& self.num_waiting <= self.config.parallelism || self.num_waiting
            <= self.config.num_results
        &&& self.progress matches QueryProgress::Iterating { no_progress } ==> no_progress == 0
            || no_progress < self.config.parallelism
        &&& forall|i: int|
            0 <= i < self.peers.len() && !((#[trigger] self.peers[i]).state is Succeeded)
                ==> self.peers[i].peers_returned == 0
        &&& self.progress is Finished ==> conclusive(
            self.peers,
            self.config.num_results as int,
        )
    }

    /// The number of requests that may be in flight.
    pub open spec fn capacity(self) -> nat {
        match self.progress {
            QueryProgress::Stalled => self.config.num_results as nat,
            QueryProgress::Iterating { .. } => self.config.parallelism as nat,
            QueryProgress::Finished => 0,
        }
    }

    /// No further request may be made.
    pub open spec fn at_capacity(self) -> bool {
        self.num_waiting >= self.capacity()
    }

    /// The place of a point of the key space among the known peers.
    pub open spec fn place(self, hash: [u8; 32]) -> int {
        rank(self.target.hash, self.peers, distance(hash, self.target.hash)) as int
    }

    /// A peer at that point is known.
    pub open spec fn knows(self, hash: [u8; 32]) -> bool {
        occupied(self.target.hash, self.peers, distance(hash, self.target.hash))
    }

    /// An answer or a failure of the peer at that point would be recorded: the
    /// query is not over, and the peer has been asked and has not replied.
    pub open spec fn awaits(self, hash: [u8; 32]) -> bool {
        &&& !(self.progress is Finished)
        &&& self.knows(hash)
        &&& self.peers[self.place(hash)].state is Waiting || self.peers[self.place(hash)].state
            is Unresponsive
    }

    /// This query with other peers.
    pub open spec fn with_peers(self, peers: Seq<QueryPeer<T>>) -> Self {
        QueryModel { peers, num_waiting: count(peers, is_waiting()), ..self }
    }

    /// The query after the peer at `hash` has failed to answer.
    pub open spec fn after_failure(self, hash: [u8; 32]) -> Self {
        if self.awaits(hash) {
            let i = self.place(hash);
            self.with_peers(self.peers.update(i, self.peers[i].in_state(QueryPeerState::Failed)))
        } else {
            self
        }
    }

    /// The query after the peer at `hash` has answered with `keys`.
    pub open spec fn after_success(self, hash: [u8; 32], keys: Seq<Key<T>>) -> Self {
        if self.awaits(hash) {
            let i = self.place(hash);
            let marked = self.peers.update(i, self.peers[i].answered(keys.len() as int));
            QueryModel {
                progress: next_progress(
                    self.progress,
                    brings_forward(
                        self.target.hash,
                        marked,
                        keys,
                        self.config.num_results as int,
                    ),
                    self.config.parallelism as int,
                ),
                ..self.with_peers(with_all_new(self.target.hash, marked, keys))
            }
        } else {
            self
        }
    }

    /// A poll goes no further than peer `i`: the peer has not been asked, it is
    /// pending while no further request may be made, or with it the closest
    /// peers have given enough answers and none of them is pending.
    pub open spec fn stops_at(self, now: Instant, i: int) -> bool {
        match self.peers[i].state {
            QueryPeerState::NotContacted => true,
            QueryPeerState::Waiting(_) => self.at_capacity() && pending(self.peers[i], now),
            QueryPeerState::Succeeded => {
                &&& forall|j: int| 0 <= j < i ==> !pending(#[trigger] self.peers[j], now)
                &&& count(self.peers.take(i + 1), is_succeeded()) >= self.config.num_results
            },
            _ => false,
        }
    }

    /// The first peer from `i` on at which a poll stops, or the number of peers.
    pub open spec fn stop_from(self, now: Instant, i: int) -> int
        decreases self.peers.len() - i,
    {
        if i >= self.peers.len() || self.stops_at(now, i) {
            i
        } else {
            self.stop_from(now, i + 1)
        }
    }

    /// The peer at which a poll stops, or the number of peers.
    pub open spec fn stop(self, now: Instant) -> int {
        self.stop_from(now, 0)
    }

    /// The peers after a poll has noted those out of time.
    pub open spec fn swept(self, now: Instant) -> Seq<QueryPeer<T>> {
        timed_out(self.peers, now, self.stop(now))
    }

    /// What a poll finds.
    pub open spec fn poll_outcome(self, now: Instant) -> PollOutcome {
        let i = self.stop(now);
        if self.progress is Finished {
            PollOutcome::Finished
        } else if i == self.peers.len() {
            if count(self.swept(now), is_waiting()) > 0 {
                PollOutcome::Idle
            } else {
                PollOutcome::Finished
            }
        } else if self.peers[i].state is Succeeded {
            PollOutcome::Finished
        } else if self.at_capacity() {
            PollOutcome::AtCapacity
        } else {
            PollOutcome::Contact(i)
        }
    }

    /// The query after a poll.
    pub open spec fn after_poll(self, now: Instant) -> Self {
        if self.progress is Finished {
            self
        } else {
            let swept = self.swept(now);
            match self.poll_outcome(now) {
                PollOutcome::Finished => QueryModel {
                    progress: QueryProgress::Finished,
                    ..self.with_peers(swept)
                },
                PollOutcome::Contact(i) => self.with_peers(
                    swept.update(
                        i,
                        swept[i].in_state(
                            QueryPeerState::Waiting(now.after(self.config.peer_timeout)),
                        ),
                    ),
                ),
                _ => self.with_peers(swept),
            }
        }
    }

    /// The peers that have answered, the closest first.
    pub open spec fn succeeded(self) -> Seq<QueryPeer<T>> {
        self.peers.filter(is_succeeded())
    }

    /// The result of the query: the closest peers that have answered, at most
    /// as many as are asked for.
    pub open spec fn result(self) -> Seq<QueryPeer<T>> {
        first_of(self.succeeded(), self.config.num_results as int)
    }
}

/// Noting one more peer out of time changes that peer alone.
pub proof fn lemma_timed_out_step<T>(peers: Seq<QueryPeer<T>>, now: Instant, end: int)
    requires
        0 <= end < peers.len(),
    ensures
        timed_out(peers, now, end + 1) == if expired(peers[end], now) {
            timed_out(peers, now, end).update(
                end,
                peers[end].in_state(QueryPeerState::Unresponsive),
            )
        } else {
            timed_out(peers, now, end)
        },
        timed_out(peers, now, end)[end] == peers[end],
{
    assert(timed_out(peers, now, end + 1) =~= if expired(peers[end], now) {
        timed_out(peers, now, end).update(end, peers[end].in_state(QueryPeerState::Unresponsive))
    } else {
        timed_out(peers, now, end)
    });
}

/// Noting peers out of time starts no waiting, and changes no count of answers.
pub proof fn lemma_timed_out_counts<T>(peers: Seq<QueryPeer<T>>, now: Instant, end: int)
    requires
        0 <= end <= peers.len(),
    ensures
        count(timed_out(peers, now, end), is_waiting()) <= count(peers, is_waiting()),
        forall|k: int|
            0 <= k <= peers.len() ==> count(
                #[trigger] timed_out(peers, now, end).take(k),
                is_succeeded(),
            ) == count(peers.take(k), is_succeeded()),
    decreases end,
{
    let swept = timed_out(peers, now, end);
    if end == 0 {
        assert(swept =~= peers);
    } else {
        lemma_timed_out_counts(peers, now, end - 1);
        lemma_timed_out_step(peers, now, end - 1);
        lemma_count_update(
            timed_out(peers, now, end - 1),
            end - 1,
            peers[end - 1].in_state(QueryPeerState::Unresponsive),
            is_waiting(),
        );
    }
    assert forall|k: int| 0 <= k <= peers.len() implies count(
        #[trigger] swept.take(k),
        is_succeeded(),
    ) == count(peers.take(k), is_succeeded()) by {
        lemma_count_same(swept.take(k), peers.take(k), is_succeeded());
    }
}

/// A poll stops at the first peer at which it stops.
pub proof fn lemma_stop_from<T>(q: QueryModel<T>, now: Instant, i: int, end: int)
    requires
        0 <= i <= end <= q.peers.len(),
        forall|j: int| i <= j < end ==> !#[trigger] q.stops_at(now, j),
        end < q.peers.len() ==> q.stops_at(now, end),
    ensures
        q.stop_from(now, i) == end,
    decreases end - i,
{
    if i < end {
        lemma_stop_from(q, now, i + 1, end);
    }
}

/// No peer before the one at which a poll stops stops it.
pub proof fn lemma_stop<T>(q: QueryModel<T>, now: Instant, i: int)
    requires
        0 <= i <= q.peers.len(),
    ensures
        i <= q.stop_from(now, i) <= q.peers.len(),
        forall|j: int| i <= j < q.stop_from(now, i) ==> !#[trigger] q.stops_at(now, j),
        q.stop_from(now, i) < q.peers.len() ==> q.stops_at(now, q.stop_from(now, i)),
    decreases q.peers.len() - i,
{
    if i < q.peers.len() && !q.stops_at(now, i) {
        lemma_stop(q, now, i + 1);
    }
}

/// A point that is known has its peer at its place.
pub proof fn lemma_place<T>(q: QueryModel<T>, hash: [u8; 32])
    requires
        ordered(q.target.hash, q.peers),
    ensures
        0 <= q.place(hash) <= q.peers.len(),
        q.knows(hash) ==> q.place(hash) < q.peers.len() && peer_distance(
            q.target.hash,
            q.peers[q.place(hash)],
        ) == distance(hash, q.target.hash),
{
    lemma_rank_splits(q.target.hash, q.peers, distance(hash, q.target.hash));
}

/// Taking the reported peers one by one, it is a new peer that brings the query
/// forward: one that becomes the first, or any while too few are known.
pub proof fn lemma_brings_forward_step<T>(
    target: [u8; 32],
    peers: Seq<QueryPeer<T>>,
    keys: Seq<Key<T>>,
    n: int,
    num_results: int,
)
    requires
        ordered(target, peers),
        0 <= n < keys.len(),
    ensures
        ({
            let known = with_all_new(target, peers, keys.take(n));
            let d = distance(keys[n].hash, target);
            brings_forward(target, peers, keys.take(n + 1), num_results) == (brings_forward(
                target,
                peers,
                keys.take(n),
                num_results,
            ) || (!occupied(target, known, d) && (rank(target, known, d) == 0 || peers.len()
                < num_results)))
        }),
{
    let front = keys.take(n);
    let next = keys.take(n + 1);
    let known = with_all_new(target, peers, front);
    let d = distance(keys[n].hash, target);
    lemma_with_all_new(target, peers, front);
    lemma_rank_splits(target, known, d);
    assert(forall|j: int| 0 <= j < n ==> #[trigger] front[j] == next[j]);
    assert(next[n] == keys[n]);
    let new = !occupied(target, known, d);
    if brings_forward(target, peers, front, num_results) {
        let j = choose|j: int|
            0 <= j < n && brings_nearer(target, peers, #[trigger] front[j], num_results);
        assert(brings_nearer(target, peers, next[j], num_results));
    }
    if new && rank(target, known, d) == 0 {
        assert forall|i: int| 0 <= i < peers.len() implies d < peer_distance(
            target,
            #[trigger] peers[i],
        ) by {
            let e = peer_distance(target, peers[i]);
            assert(occupied(target, peers, e));
            assert(occupied(target, known, e));
        }
        assert(brings_nearer(target, peers, next[n], num_results));
    }
    if new && peers.len() < num_results {
        assert(brings_nearer(target, peers, next[n], num_results));
    }
    if brings_forward(target, peers, next, num_results) && !brings_forward(
        target,
        peers,
        front,
        num_results,
    ) {
        let j = choose|j: int|
            0 <= j < next.len() && brings_nearer(target, peers, #[trigger] next[j], num_results);
        if j < n {
            assert(brings_nearer(target, peers, front[j], num_results));
        }
        if !new {
            if occupied(target, peers, d) {
                let i = choose|i: int|
                    0 <= i < peers.len() && peer_distance(target, #[trigger] peers[i]) == d;
                assert(false);
            }
            let m = choose|m: int|
                0 <= m < front.len() && distance(#[trigger] front[m].hash, target) == d;
            assert(brings_nearer(target, peers, front[m], num_results));
        }
        if rank(target, known, d) > 0 && peers.len() >= num_results {
            let e = peer_distance(target, known[0]);
            assert(occupied(target, known, e));
            if occupied(target, peers, e) {
                let i = choose|i: int|
                    0 <= i < peers.len() && peer_distance(target, #[trigger] peers[i]) == e;
                assert(false);
            }
            let m = choose|m: int|
                0 <= m < front.len() && distance(#[trigger] front[m].hash, target) == e;
            assert(brings_nearer(target, peers, front[m], num_results));
        }
    }
}

/// A new query is as every query is to be.
pub proof fn lemma_initial_valid<T>(config: QueryConfig, target: Key<T>, known: Seq<Key<T>>)
    ensures
        QueryModel::initial(config, target, known).valid(),
{
    let q = QueryModel::initial(config, target, known);
    lemma_all_fresh(target.hash, first_of(known, config.num_results as int));
    lemma_count_none(q.peers, is_waiting());
}

/// A failure keeps what holds of every query.
pub proof fn lemma_failure_valid<T>(q: QueryModel<T>, hash: [u8; 32])
    requires
        q.valid(),
    ensures
        q.after_failure(hash).valid(),
{
    if q.awaits(hash) {
        lemma_place(q, hash);
        let i = q.place(hash);
        let peer = q.peers[i].in_state(QueryPeerState::Failed);
        lemma_count_update(q.peers, i, peer, is_waiting());
        let after = q.after_failure(hash);
        assert forall|a: int, b: int| 0 <= a < b < after.peers.len() implies peer_distance(
            q.target.hash,
            #[trigger] after.peers[a],
        ) < peer_distance(q.target.hash, #[trigger] after.peers[b]) by {
            assert(peer_distance(q.target.hash, q.peers[a]) < peer_distance(
                q.target.hash,
                q.peers[b],
            ));
        }
        assert forall|j: int|
            0 <= j < after.peers.len() && !((#[trigger] after.peers[j]).state is Succeeded) implies
            after.peers[j].peers_returned == 0 by {
            assert(!(q.peers[j].state is Succeeded));
        }
    }
}

/// Marking a peer as having answered keeps the order and counts it as answered.
pub proof fn lemma_marked<T>(q: QueryModel<T>, hash: [u8; 32], returned: int)
    requires
        q.valid(),
        q.awaits(hash),
    ensures
        ({
            let i = q.place(hash);
            let marked = q.peers.update(i, q.peers[i].answered(returned));
            &&& 0 <= i < q.peers.len()
            &&& ordered(q.target.hash, marked)
            &&& count(marked, is_waiting()) == q.num_waiting - (if q.peers[i].state is Waiting {
                1int
            } else {
                0
            })
        }),
{
    lemma_place(q, hash);
    let i = q.place(hash);
    let peer = q.peers[i].answered(returned);
    let marked = q.peers.update(i, peer);
    lemma_count_update(q.peers, i, peer, is_waiting());
    assert forall|a: int, b: int| 0 <= a < b < marked.len() implies peer_distance(
        q.target.hash,
        #[trigger] marked[a],
    ) < peer_distance(q.target.hash, #[trigger] marked[b]) by {
        assert(peer_distance(q.target.hash, q.peers[a]) < peer_distance(
            q.target.hash,
            q.peers[b],
        ));
    }
}

/// An answer keeps what holds of every query.
pub proof fn lemma_success_valid<T>(q: QueryModel<T>, hash: [u8; 32], keys: Seq<Key<T>>)
    requires
        q.valid(),
    ensures
        q.after_success(hash, keys).valid(),
{
    if q.awaits(hash) {
        let returned = keys.len() as int;
        lemma_marked(q, hash, returned);
        let i = q.place(hash);
        let marked = q.peers.update(i, q.peers[i].answered(returned));
        let after = q.after_success(hash, keys);
        lemma_with_all_new(q.target.hash, marked, keys);
        lemma_with_all_new_count(q.target.hash, marked, keys, is_waiting());
        assert forall|j: int|
            0 <= j < after.peers.len() && !((#[trigger] after.peers[j]).state is Succeeded) implies
            after.peers[j].peers_returned == 0 by {
            let p = after.peers[j];
            assert(after.peers.contains(p));
            if marked.contains(p) {
                let k = choose|k: int| 0 <= k < marked.len() && marked[k] == p;
                assert(k != i);
                assert(q.peers[k] == p);
            }
        }
    }
}

/// A poll keeps what holds of every query.
pub proof fn lemma_poll_valid<T>(q: QueryModel<T>, now: Instant)
    requires
        q.valid(),
    ensures
        q.after_poll(now).valid(),
{
    if !(q.progress is Finished) {
        lemma_stop(q, now, 0);
        let i = q.stop(now);
        let swept = q.swept(now);
        let after = q.after_poll(now);
        let num_results = q.config.num_results as int;
        lemma_timed_out_counts(q.peers, now, i);
        if q.poll_outcome(now) is Contact {
            lemma_count_update(
                swept,
                i,
                swept[i].in_state(QueryPeerState::Waiting(now.after(q.config.peer_timeout))),
                is_waiting(),
            );
        }
        assert forall|a: int, b: int| 0 <= a < b < after.peers.len() implies peer_distance(
            q.target.hash,
            #[trigger] after.peers[a],
        ) < peer_distance(q.target.hash, #[trigger] after.peers[b]) by {
            assert(peer_distance(q.target.hash, q.peers[a]) < peer_distance(
                q.target.hash,
                q.peers[b],
            ));
        }
        assert forall|j: int|
            0 <= j < after.peers.len() && !((#[trigger] after.peers[j]).state is Succeeded) implies
            after.peers[j].peers_returned == 0 by {
            assert(!(q.peers[j].state is Succeeded));
        }
        if q.poll_outcome(now) is Finished {
            let k = if i < q.peers.len() {
                i + 1
            } else {
                i
            };
            lemma_count_none(swept, is_waiting());
            assert forall|j: int| 0 <= j < k implies settled(#[trigger] swept[j]) by {
                if j < i {
                    assert(!q.stops_at(now, j));
                }
            }
            assert(conclusive_at(swept, num_results, k));
        }
    }
}

} // verus!
