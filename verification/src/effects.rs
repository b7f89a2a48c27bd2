//! What each step of a node lookup does, told by the states, the deadlines and
//! the distances of the peers before and after it.

use vstd::prelude::*;

use crate::key::{distance, equidistant_points_are_equal, Key};
use crate::laws::{
    lemma_brings_forward_marked, lemma_filter_ordered, lemma_only_at_place, parallelism_is_bounded,
};
use crate::model::{
    brings_forward, brings_nearer, first_of, lemma_failure_valid, lemma_initial_valid, lemma_marked,
    lemma_place, lemma_poll_valid, lemma_stop, lemma_success_valid, pending, PollOutcome,
    QueryModel,
};
use crate::peers::{
    all_fresh, count, fresh, is_succeeded, is_waiting, lemma_all_fresh, lemma_count_none,
    lemma_count_update, lemma_rank_splits, lemma_with_all_new, lemma_with_all_new_count,
    lemma_with_new, occupied, ordered, peer_distance, rank, with_all_new,
};
use crate::query::{QueryConfig, QueryPeer, QueryPeerState, QueryProgress};
use crate::time::Instant;

verus! {

/// How many peers have answered.
pub open spec fn answers<T>(peers: Seq<QueryPeer<T>>) -> nat
    decreases peers.len(),
{
    if peers.len() == 0 {
        0
    } else {
        answers(peers.drop_last()) + if peers.last().state is Succeeded {
            1nat
        } else {
            0
        }
    }
}

/// How many requests are in flight.
pub open spec fn in_flight<T>(peers: Seq<QueryPeer<T>>) -> nat
    decreases peers.len(),
{
    if peers.len() == 0 {
        0
    } else {
        in_flight(peers.drop_last()) + if peers.last().state is Waiting {
            1nat
        } else {
            0
        }
    }
}

/// The peer has been asked and its deadline has come.
pub open spec fn overdue<T>(peer: QueryPeer<T>, now: Instant) -> bool {
    peer.state matches QueryPeerState::Waiting(deadline) && deadline.nanos <= now.nanos
}

/// The peer has been asked and its deadline is still to come.
pub open spec fn in_time<T>(peer: QueryPeer<T>, now: Instant) -> bool {
    peer.state matches QueryPeerState::Waiting(deadline) && now.nanos < deadline.nanos
}

/// Each of the first `k` peers has been asked, and none of them is in time to answer.
pub open spec fn done_with<T>(peers: Seq<QueryPeer<T>>, now: Instant, k: int) -> bool {
    &&& 0 <= k <= peers.len()
    &&& forall|j: int|
        0 <= j < k ==> !((#[trigger] peers[j]).state is NotContacted) && !in_time(peers[j], now)
}

/// The query may end with its first `k` peers: it is done with them, and they
/// are all peers or have given the answers that are asked for, at least one.
pub open spec fn may_end_with<T>(q: QueryModel<T>, now: Instant, k: int) -> bool {
    &&& done_with(q.peers, now, k)
    &&& {
        ||| k == q.peers.len()
        ||| answers(q.peers.take(k)) >= q.config.num_results && answers(q.peers.take(k)) > 0
    }
}

/// The query may end.
pub open spec fn may_end<T>(q: QueryModel<T>, now: Instant) -> bool {
    exists|k: int| may_end_with(q, now, k)
}

/// As many requests are in flight as the stage of the query allows.
pub open spec fn full<T>(q: QueryModel<T>) -> bool {
    match q.progress {
        QueryProgress::Iterating { .. } => in_flight(q.peers) >= q.config.parallelism,
        QueryProgress::Stalled => in_flight(q.peers) >= q.config.num_results,
        QueryProgress::Finished => true,
    }
}

/// The peer at `i` is the closest that has not been asked.
pub open spec fn first_unasked<T>(peers: Seq<QueryPeer<T>>, i: int) -> bool {
    &&& 0 <= i < peers.len()
    &&& peers[i].state is NotContacted
    &&& forall|j: int| 0 <= j < i ==> !((#[trigger] peers[j]).state is NotContacted)
}

/// `after` is `before` with the overdue ones among the first `end` peers made
/// unresponsive; the peer at `but` is left open.
pub open spec fn overdue_given_up<T>(
    before: Seq<QueryPeer<T>>,
    after: Seq<QueryPeer<T>>,
    now: Instant,
    end: int,
    but: int,
) -> bool {
    &&& after.len() == before.len()
    &&& forall|j: int|
        0 <= j < after.len() && j != but ==> (#[trigger] after[j]).key == before[j].key
            && after[j].peers_returned == before[j].peers_returned && after[j].state == (if j < end
            && overdue(before[j], now) {
            QueryPeerState::Unresponsive
        } else {
            before[j].state
        })
}

/// The query knows the peer at `i` by this hash, has asked it, and it has
/// neither answered nor failed.
pub open spec fn asked_at<T>(q: QueryModel<T>, hash: [u8; 32], i: int) -> bool {
    &&& 0 <= i < q.peers.len()
    &&& q.peers[i].key.hash@ == hash@
    &&& q.peers[i].state is Waiting || q.peers[i].state is Unresponsive
}

/// The reported key at `j` is that of no known peer and of no key before it.
pub open spec fn newly_reported<T>(peers: Seq<QueryPeer<T>>, keys: Seq<Key<T>>, j: int) -> bool {
    &&& 0 <= j < keys.len()
    &&& forall|i: int| 0 <= i < peers.len() ==> (#[trigger] peers[i]).key.hash@ != keys[j].hash@
    &&& forall|m: int| 0 <= m < j ==> (#[trigger] keys[m]).hash@ != keys[j].hash@
}

/// The reported key at `j` is closer to the target than all known peers, or it
/// is that of no known peer while fewer peers are known than results asked for.
pub open spec fn moves_query<T>(q: QueryModel<T>, keys: Seq<Key<T>>, j: int) -> bool {
    &&& 0 <= j < keys.len()
    &&& {
        ||| forall|i: int|
            0 <= i < q.peers.len() ==> distance(keys[j].hash, q.target.hash) < distance(
                (#[trigger] q.peers[i]).key.hash,
                q.target.hash,
            )
        ||| q.peers.len() < q.config.num_results && forall|i: int|
            0 <= i < q.peers.len() ==> (#[trigger] q.peers[i]).key.hash@ != keys[j].hash@
    }
}

proof fn lemma_answers<T>(peers: Seq<QueryPeer<T>>)
    ensures
        answers(peers) == count(peers, is_succeeded()),
    decreases peers.len(),
{
    if peers.len() > 0 {
        lemma_answers(peers.drop_last());
    }
}

proof fn lemma_in_flight<T>(peers: Seq<QueryPeer<T>>)
    ensures
        in_flight(peers) == count(peers, is_waiting()),
    decreases peers.len(),
{
    if peers.len() > 0 {
        lemma_in_flight(peers.drop_last());
    }
}

/// If some of the first `k` peers have answered, the last of these to have done
/// so completes the answers.
proof fn lemma_last_answer<T>(peers: Seq<QueryPeer<T>>, k: int) -> (m: int)
    requires
        0 <= k <= peers.len(),
        answers(peers.take(k)) > 0,
    ensures
        0 <= m < k,
        peers[m].state is Succeeded,
        answers(peers.take(m + 1)) == answers(peers.take(k)),
    decreases k,
{
    assert(k > 0);
    assert(peers.take(k).drop_last() =~= peers.take(k - 1));
    if peers[k - 1].state is Succeeded {
        k - 1
    } else {
        lemma_last_answer(peers, k - 1)
    }
}

/// A query may not end with fewer peers than a poll passes.
proof fn lemma_end_not_before_stop<T>(q: QueryModel<T>, now: Instant, k: int)
    requires
        q.valid(),
        !(q.progress is Finished),
        may_end_with(q, now, k),
    ensures
        q.stop(now) < k || k == q.peers.len(),
        q.stop(now) < q.peers.len() && q.stop(now) < k ==> q.peers[q.stop(now)].state is Succeeded,
{
    lemma_stop(q, now, 0);
    let i = q.stop(now);
    if k <= i && k < q.peers.len() {
        let m = lemma_last_answer(q.peers, k);
        lemma_answers(q.peers.take(m + 1));
        assert forall|j: int| 0 <= j < m implies !pending(#[trigger] q.peers[j], now) by {
            assert(!in_time(q.peers[j], now));
        }
        assert(q.stops_at(now, m));
    }
    if i < q.peers.len() && i < k {
        assert(q.stops_at(now, i));
        assert(!(q.peers[i].state is NotContacted) && !in_time(q.peers[i], now));
    }
}

/// A poll that finds the end stops where the query may end, and not earlier.
proof fn lemma_end_at_stop<T>(q: QueryModel<T>, now: Instant) -> (k: int)
    requires
        q.valid(),
        !(q.progress is Finished),
        q.poll_outcome(now) is Finished,
    ensures
        may_end_with(q, now, k),
        forall|m: int| m < k ==> !#[trigger] may_end_with(q, now, m),
        q.stop(now) == k || q.stop(now) == k - 1 && q.peers[k - 1].state is Succeeded,
{
    lemma_stop(q, now, 0);
    let i = q.stop(now);
    let k = if i < q.peers.len() {
        i + 1
    } else {
        i
    };
    assert forall|j: int| 0 <= j < k implies !((#[trigger] q.peers[j]).state is NotContacted)
        && !in_time(q.peers[j], now) by {
        if j < i {
            assert(!q.stops_at(now, j));
            if i < q.peers.len() {
                assert(q.stops_at(now, i));
                assert(!pending(q.peers[j], now));
            } else {
                lemma_count_none(q.swept(now), is_waiting());
                assert(!(q.swept(now)[j].state is Waiting));
            }
        }
    }
    if i < q.peers.len() {
        lemma_answers(q.peers.take(k));
        assert(q.stops_at(now, i));
        assert(q.peers.take(k).drop_last() =~= q.peers.take(i));
    }
    assert forall|m: int| m < k implies !#[trigger] may_end_with(q, now, m) by {
        if may_end_with(q, now, m) {
            lemma_end_not_before_stop(q, now, m);
        }
    }
    k
}

/// The number of requests in flight is known, and the number of requests allowed
/// is the parallelism while the query iterates and the number of results while
/// it is stalled.
pub proof fn capacity_depends_on_stage<T>(q: QueryModel<T>)
    requires
        q.valid(),
    ensures
        q.num_waiting == in_flight(q.peers),
        q.progress is Iterating ==> (q.at_capacity() <==> in_flight(q.peers)
            >= q.config.parallelism),
        q.progress is Stalled ==> (q.at_capacity() <==> in_flight(q.peers)
            >= q.config.num_results),
        q.progress is Finished ==> q.at_capacity(),
{
    lemma_in_flight(q.peers);
}

/// What an unfinished query answers to a poll. It ends if and only if it may.
/// Otherwise, if and only if as many requests are in flight as are allowed, it is
/// at capacity. Otherwise it hands out the closest peer that has not been asked,
/// and if there is none it waits.
pub proof fn poll_answers_by_rule<T>(q: QueryModel<T>, now: Instant)
    requires
        q.valid(),
        !(q.progress is Finished),
    ensures
        q.poll_outcome(now) is Finished <==> may_end(q, now),
        q.poll_outcome(now) is AtCapacity <==> !may_end(q, now) && full(q),
        forall|i: int|
            q.poll_outcome(now) == PollOutcome::Contact(i) <==> !may_end(q, now) && !full(q)
                && #[trigger] first_unasked(q.peers, i),
        q.poll_outcome(now) is Idle <==> !may_end(q, now) && !full(q) && forall|i: int|
            0 <= i < q.peers.len() ==> !((#[trigger] q.peers[i]).state is NotContacted),
{
    lemma_stop(q, now, 0);
    capacity_depends_on_stage(q);
    let i = q.stop(now);
    let swept = q.swept(now);
    lemma_count_none(swept, is_waiting());
    if may_end(q, now) {
        let k = choose|k: int| may_end_with(q, now, k);
        lemma_end_not_before_stop(q, now, k);
        if i == q.peers.len() {
            assert forall|j: int| 0 <= j < swept.len() implies !((#[trigger] swept[j]).state
                is Waiting) by {
                assert(!in_time(q.peers[j], now));
            }
        }
        assert(q.poll_outcome(now) is Finished);
    } else if q.poll_outcome(now) is Finished {
        let k = lemma_end_at_stop(q, now);
    }
    if !may_end(q, now) {
        assert forall|j: int| 0 <= j < i implies !((#[trigger] q.peers[j]).state
            is NotContacted) by {
            assert(!q.stops_at(now, j));
        }
        if i < q.peers.len() {
            assert(q.stops_at(now, i));
            if !full(q) {
                assert(first_unasked(q.peers, i));
            }
        } else if full(q) {
            assert forall|j: int| 0 <= j < swept.len() implies !((#[trigger] swept[j]).state
                is Waiting) by {
                assert(!q.stops_at(now, j));
            }
        }
    }
}

/// An unfinished query, iterating or stalled, ends as soon as its closest peers
/// are dealt with and have given the answers that are asked for, at least one.
pub proof fn enough_answers_end_query<T>(q: QueryModel<T>, now: Instant, k: int)
    requires
        q.valid(),
        0 <= k <= q.peers.len(),
        forall|j: int|
            0 <= j < k ==> !((#[trigger] q.peers[j]).state is NotContacted)
                && !(q.peers[j].state is Waiting),
        answers(q.peers.take(k)) >= q.config.num_results,
        answers(q.peers.take(k)) > 0,
    ensures
        q.poll_outcome(now) is Finished,
        q.after_poll(now).progress is Finished,
{
    if !(q.progress is Finished) {
        assert(may_end_with(q, now, k));
        poll_answers_by_rule(q, now);
    }
}

/// What a poll changes: the overdue peers that it passes become unresponsive, a
/// peer that it hands out is waited for until its timeout, and a query that it
/// finds to be over is finished. Nothing else changes.
pub proof fn poll_changes_only_this<T>(q: QueryModel<T>, now: Instant)
    requires
        q.valid(),
        !(q.progress is Finished),
    ensures
        ({
            let after = q.after_poll(now);
            &&& after.target == q.target
            &&& after.started == q.started
            &&& after.config == q.config
            &&& after.num_waiting == in_flight(after.peers)
            &&& after.progress == (if q.poll_outcome(now) is Finished {
                QueryProgress::Finished
            } else {
                q.progress
            })
            &&& match q.poll_outcome(now) {
                PollOutcome::Contact(i) => {
                    &&& overdue_given_up(q.peers, after.peers, now, i, i)
                    &&& 0 <= i < after.peers.len()
                    &&& after.peers[i].key == q.peers[i].key
                    &&& after.peers[i].peers_returned == q.peers[i].peers_returned
                    &&& now.nanos + q.config.peer_timeout.nanos <= u128::MAX ==> (
                    after.peers[i].state matches QueryPeerState::Waiting(deadline)
                        && deadline.nanos == now.nanos + q.config.peer_timeout.nanos)
                },
                PollOutcome::Idle => overdue_given_up(
                    q.peers,
                    after.peers,
                    now,
                    q.peers.len() as int,
                    -1,
                ),
                PollOutcome::AtCapacity => exists|i: int|
                    {
                        &&& #[trigger] done_with(q.peers, now, i)
                        &&& i < q.peers.len()
                        &&& q.peers[i].state is NotContacted || in_time(q.peers[i], now)
                        &&& overdue_given_up(q.peers, after.peers, now, i, -1)
                    },
                PollOutcome::Finished => exists|k: int|
                    {
                        &&& #[trigger] may_end_with(q, now, k)
                        &&& forall|m: int| m < k ==> !#[trigger] may_end_with(q, now, m)
                        &&& overdue_given_up(q.peers, after.peers, now, k, -1)
                    },
            }
        }),
{
    let after = q.after_poll(now);
    lemma_stop(q, now, 0);
    lemma_poll_valid(q, now);
    lemma_in_flight(after.peers);
    let i = q.stop(now);
    match q.poll_outcome(now) {
        PollOutcome::AtCapacity => {
            assert(q.stops_at(now, i));
            assert forall|j: int|
                0 <= j < i implies !((#[trigger] q.peers[j]).state is NotContacted) && !in_time(
                q.peers[j],
                now,
            ) by {
                assert(!q.stops_at(now, j));
            }
            assert(done_with(q.peers, now, i));
        },
        PollOutcome::Finished => {
            let k = lemma_end_at_stop(q, now);
            assert(overdue_given_up(q.peers, after.peers, now, k, -1));
        },
        _ => {},
    }
}

/// A poll that hands out a peer leaves at most `parallelism` requests in flight
/// while the query iterates, and at most `num_results` while it is stalled.
pub proof fn requests_stay_within_limits<T>(q: QueryModel<T>, now: Instant)
    requires
        q.valid(),
        q.poll_outcome(now) is Contact,
    ensures
        !(q.progress is Finished),
        q.progress is Iterating ==> q.after_poll(now).num_waiting <= q.config.parallelism,
        q.progress is Stalled ==> q.after_poll(now).num_waiting <= q.config.num_results,
        q.after_poll(now).num_waiting == in_flight(q.after_poll(now).peers),
{
    lemma_poll_valid(q, now);
    lemma_in_flight(q.after_poll(now).peers);
    parallelism_is_bounded(q, now);
}

/// An unfinished query takes in what it hears of a peer if and only if it has
/// asked the peer and the peer has neither answered nor failed, however many
/// requests are in flight.
pub proof fn every_asked_peer_is_heard<T>(q: QueryModel<T>, hash: [u8; 32])
    requires
        q.valid(),
    ensures
        q.awaits(hash) <==> !(q.progress is Finished) && exists|i: int|
            #[trigger] asked_at(q, hash, i),
        forall|i: int|
            0 <= i < q.peers.len() && !(q.progress is Finished) && ((
            #[trigger] q.peers[i]).state is Waiting || q.peers[i].state is Unresponsive)
                ==> q.awaits(q.peers[i].key.hash),
{
    let target = q.target.hash;
    lemma_place(q, hash);
    if exists|i: int| #[trigger] asked_at(q, hash, i) {
        let i = choose|i: int| #[trigger] asked_at(q, hash, i);
        equidistant_points_are_equal(q.peers[i].key.hash, hash, target);
        lemma_only_at_place(q, hash, i);
    }
    if q.awaits(hash) {
        let i = q.place(hash);
        equidistant_points_are_equal(q.peers[i].key.hash, hash, target);
        assert(asked_at(q, hash, i));
    }
    assert forall|i: int|
        0 <= i < q.peers.len() && !(q.progress is Finished) && ((
        #[trigger] q.peers[i]).state is Waiting || q.peers[i].state is Unresponsive) implies
        q.awaits(q.peers[i].key.hash) by {
        lemma_only_at_place(q, q.peers[i].key.hash, i);
    }
}

/// What is heard of a peer that was not asked, or that has answered or failed
/// already, changes nothing, and neither does anything heard by a finished query.
pub proof fn unasked_peer_changes_nothing<T>(
    q: QueryModel<T>,
    hash: [u8; 32],
    keys: Seq<Key<T>>,
)
    requires
        q.valid(),
        q.progress is Finished || forall|i: int| !#[trigger] asked_at(q, hash, i),
    ensures
        q.after_failure(hash) == q,
        q.after_success(hash, keys) == q,
{
    every_asked_peer_is_heard(q, hash);
}

/// A failure of an asked peer makes that peer failed and takes its request out
/// of flight. Nothing else changes, the progress of the query included.
pub proof fn failure_changes_only_the_peer<T>(q: QueryModel<T>, hash: [u8; 32], i: int)
    requires
        q.valid(),
        !(q.progress is Finished),
        asked_at(q, hash, i),
    ensures
        ({
            let after = q.after_failure(hash);
            &&& after.target == q.target
            &&& after.started == q.started
            &&& after.config == q.config
            &&& after.progress == q.progress
            &&& after.peers.len() == q.peers.len()
            &&& forall|j: int|
                0 <= j < q.peers.len() && j != i ==> #[trigger] after.peers[j] == q.peers[j]
            &&& after.peers[i].key == q.peers[i].key
            &&& after.peers[i].peers_returned == q.peers[i].peers_returned
            &&& after.peers[i].state is Failed
            &&& after.num_waiting == in_flight(after.peers)
            &&& after.num_waiting == q.num_waiting - (if q.peers[i].state is Waiting {
                1int
            } else {
                0
            })
        }),
{
    every_asked_peer_is_heard(q, hash);
    equidistant_points_are_equal(q.peers[i].key.hash, hash, q.target.hash);
    lemma_only_at_place(q, hash, i);
    lemma_failure_valid(q, hash);
    lemma_in_flight(q.after_failure(hash).peers);
    lemma_count_update(
        q.peers,
        i,
        q.peers[i].in_state(QueryPeerState::Failed),
        is_waiting(),
    );
}

/// The known peers after an answer: the one that has answered, the others as
/// they were, and those newly reported, each once and in the order of distance.
pub open spec fn answer_taken_in<T>(
    q: QueryModel<T>,
    after: QueryModel<T>,
    i: int,
    keys: Seq<Key<T>>,
) -> bool {
    let answered = QueryPeer {
        key: q.peers[i].key,
        peers_returned: keys.len() as usize,
        state: QueryPeerState::Succeeded,
    };
    &&& forall|a: int, b: int|
        0 <= a < b < after.peers.len() ==> distance(
            (#[trigger] after.peers[a]).key.hash,
            q.target.hash,
        ) < distance((#[trigger] after.peers[b]).key.hash, q.target.hash)
    &&& after.peers.contains(answered)
    &&& forall|j: int|
        0 <= j < q.peers.len() && j != i ==> after.peers.contains(#[trigger] q.peers[j])
    &&& forall|j: int| #[trigger]
        newly_reported(q.peers, keys, j) ==> after.peers.contains(
            QueryPeer { key: keys[j], peers_returned: 0, state: QueryPeerState::NotContacted },
        )
    &&& forall|p: QueryPeer<T>| #[trigger]
        after.peers.contains(p) ==> {
            ||| p == answered
            ||| exists|j: int| 0 <= j < q.peers.len() && j != i && #[trigger] q.peers[j] == p
            ||| exists|j: int| #[trigger]
                newly_reported(q.peers, keys, j) && p == (QueryPeer {
                    key: keys[j],
                    peers_returned: 0,
                    state: QueryPeerState::NotContacted,
                })
        }
}

/// The keys that are added to ordered peers are the first of their distance
/// among those not occupied, and all such keys are added.
proof fn lemma_added_keys<T>(target: [u8; 32], peers: Seq<QueryPeer<T>>, keys: Seq<Key<T>>)
    requires
        ordered(target, peers),
    ensures
        forall|p: QueryPeer<T>| #[trigger]
            with_all_new(target, peers, keys).contains(p) ==> peers.contains(p) || exists|j: int|
                #[trigger]
                newly_reported(peers, keys, j) && p == fresh(keys[j]),
        forall|j: int| #[trigger]
            newly_reported(peers, keys, j) ==> with_all_new(target, peers, keys).contains(
                fresh(keys[j]),
            ),
    decreases keys.len(),
{
    if keys.len() > 0 {
        let front = keys.drop_last();
        let last = keys.len() - 1;
        let d = distance(keys[last].hash, target);
        let before = with_all_new(target, peers, front);
        let after = with_all_new(target, peers, keys);
        lemma_added_keys(target, peers, front);
        lemma_with_all_new(target, peers, front);
        lemma_with_new(target, before, fresh(keys[last]));
        lemma_rank_splits(target, before, d);
        assert(keys.last() == keys[last]);
        assert(forall|m: int| 0 <= m < last ==> #[trigger] front[m] == keys[m]);
        assert forall|j: int| 0 <= j < last implies #[trigger] newly_reported(peers, keys, j)
            == newly_reported(peers, front, j) by {
            if newly_reported(peers, front, j) {
                assert forall|m: int| 0 <= m < j implies (#[trigger] keys[m]).hash@
                    != keys[j].hash@ by {
                    assert(front[m].hash@ != front[j].hash@);
                }
            }
            if newly_reported(peers, keys, j) {
                assert forall|m: int| 0 <= m < j implies (#[trigger] front[m]).hash@
                    != front[j].hash@ by {
                    assert(keys[m].hash@ != keys[j].hash@);
                }
            }
        }
        assert(newly_reported(peers, keys, last) <==> !occupied(target, before, d)) by {
            assert forall|i: int| 0 <= i < peers.len() implies ((#[trigger] peers[i]).key.hash@
                == keys[last].hash@ <==> peer_distance(target, peers[i]) == d) by {
                equidistant_points_are_equal(peers[i].key.hash, keys[last].hash, target);
            }
            assert forall|m: int| 0 <= m < last implies ((#[trigger] front[m]).hash@
                == keys[last].hash@ <==> distance(front[m].hash, target) == d) by {
                equidistant_points_are_equal(front[m].hash, keys[last].hash, target);
            }
            if newly_reported(peers, keys, last) {
                if occupied(target, peers, d) {
                    let i = choose|i: int|
                        0 <= i < peers.len() && peer_distance(target, #[trigger] peers[i]) == d;
                    assert(false);
                }
                if occupied(target, before, d) {
                    let m = choose|m: int|
                        0 <= m < front.len() && distance(#[trigger] front[m].hash, target) == d;
                    assert(front[m] == keys[m]);
                    assert(keys[m].hash@ == keys[last].hash@);
                    assert(false);
                }
            }
            if !occupied(target, before, d) {
                assert forall|i: int| 0 <= i < peers.len() implies (#[trigger] peers[i]).key.hash@
                    != keys[last].hash@ by {
                    if peer_distance(target, peers[i]) == d {
                        assert(occupied(target, peers, d));
                    }
                }
                assert forall|m: int| 0 <= m < last implies (#[trigger] keys[m]).hash@
                    != keys[last].hash@ by {
                    assert(front[m] == keys[m]);
                    if distance(front[m].hash, target) == d {
                        assert(occupied(target, before, d));
                    }
                }
            }
        }
        assert forall|p: QueryPeer<T>| #[trigger]
            after.contains(p) implies peers.contains(p) || exists|j: int| #[trigger]
            newly_reported(peers, keys, j) && p == fresh(keys[j]) by {
            if before.contains(p) {
                if !peers.contains(p) {
                    let j = choose|j: int| #[trigger]
                        newly_reported(peers, front, j) && p == fresh(front[j]);
                    assert(newly_reported(peers, keys, j));
                }
            } else {
                assert(newly_reported(peers, keys, last));
            }
        }
        assert forall|j: int| #[trigger]
            newly_reported(peers, keys, j) implies after.contains(fresh(keys[j])) by {
            if j < last {
                assert(newly_reported(peers, front, j));
                assert(before.contains(fresh(front[j])));
            } else {
                assert(after[rank(target, before, d) as int] == fresh(keys[last]));
            }
        }
    } else {
        assert(with_all_new(target, peers, keys) == peers);
    }
}

/// An answer of an asked peer makes that peer succeeded, takes its request out of
/// flight, and adds the newly reported peers in their places. The other peers,
/// the target, the start and the configuration stay as they are.
pub proof fn answer_is_taken_in<T>(
    q: QueryModel<T>,
    hash: [u8; 32],
    keys: Seq<Key<T>>,
    i: int,
)
    requires
        q.valid(),
        !(q.progress is Finished),
        asked_at(q, hash, i),
        keys.len() <= usize::MAX,
    ensures
        ({
            let after = q.after_success(hash, keys);
            &&& after.target == q.target
            &&& after.started == q.started
            &&& after.config == q.config
            &&& answer_taken_in(q, after, i, keys)
            &&& after.num_waiting == in_flight(after.peers)
            &&& after.num_waiting == q.num_waiting - (if q.peers[i].state is Waiting {
                1int
            } else {
                0
            })
        }),
{
    let target = q.target.hash;
    let after = q.after_success(hash, keys);
    every_asked_peer_is_heard(q, hash);
    equidistant_points_are_equal(q.peers[i].key.hash, hash, target);
    lemma_only_at_place(q, hash, i);
    lemma_success_valid(q, hash, keys);
    lemma_in_flight(after.peers);
    lemma_marked(q, hash, keys.len() as int);
    let answered = QueryPeer {
        key: q.peers[i].key,
        peers_returned: keys.len() as usize,
        state: QueryPeerState::Succeeded,
    };
    let marked = q.peers.update(i, q.peers[i].answered(keys.len() as int));
    assert(marked[i] == answered);
    lemma_with_all_new(target, marked, keys);
    lemma_with_all_new_count(target, marked, keys, is_waiting());
    lemma_added_keys(target, marked, keys);
    assert forall|j: int| #[trigger]
        newly_reported(q.peers, keys, j) == newly_reported(marked, keys, j) by {
        if newly_reported(q.peers, keys, j) {
            assert forall|m: int| 0 <= m < marked.len() implies (#[trigger] marked[m]).key.hash@
                != keys[j].hash@ by {
                assert(q.peers[m].key.hash@ != keys[j].hash@);
            }
        }
        if newly_reported(marked, keys, j) {
            assert forall|m: int| 0 <= m < q.peers.len() implies (
            #[trigger] q.peers[m]).key.hash@ != keys[j].hash@ by {
                assert(marked[m].key.hash@ != keys[j].hash@);
            }
        }
    }
    assert(marked.contains(marked[i]));
    assert forall|j: int| 0 <= j < q.peers.len() && j != i implies after.peers.contains(
        #[trigger] q.peers[j],
    ) by {
        assert(marked[j] == q.peers[j]);
        assert(marked.contains(marked[j]));
    }
    assert forall|j: int| #[trigger] newly_reported(q.peers, keys, j) implies after.peers.contains(
        QueryPeer { key: keys[j], peers_returned: 0, state: QueryPeerState::NotContacted },
    ) by {
        assert(newly_reported(marked, keys, j));
    }
    assert forall|p: QueryPeer<T>| #[trigger] after.peers.contains(p) implies {
        ||| p == answered
        ||| exists|j: int| 0 <= j < q.peers.len() && j != i && #[trigger] q.peers[j] == p
        ||| exists|j: int| #[trigger]
            newly_reported(q.peers, keys, j) && p == (QueryPeer {
                key: keys[j],
                peers_returned: 0,
                state: QueryPeerState::NotContacted,
            })
    } by {
        if marked.contains(p) {
            let m = choose|m: int| 0 <= m < marked.len() && marked[m] == p;
            if m != i {
                assert(q.peers[m] == p);
            }
        } else {
            let j = choose|j: int| #[trigger]
                newly_reported(marked, keys, j) && p == fresh(keys[j]);
            assert(newly_reported(q.peers, keys, j));
        }
    }
    assert forall|a: int, b: int| 0 <= a < b < after.peers.len() implies distance(
        (#[trigger] after.peers[a]).key.hash,
        target,
    ) < distance((#[trigger] after.peers[b]).key.hash, target) by {
        assert(peer_distance(target, after.peers[a]) < peer_distance(target, after.peers[b]));
    }
}

/// How an answer moves the stage of a query. If one of the reported keys moves
/// the query, it iterates afresh (or is stalled at once, if it iterates with no
/// parallelism at all). If none does, a stalled query stays stalled, and an
/// iterating one counts one more answer without progress and stalls when there
/// are as many in a row as its parallelism. An answer never ends a query.
pub proof fn answer_moves_stage<T>(q: QueryModel<T>, hash: [u8; 32], keys: Seq<Key<T>>, i: int)
    requires
        q.valid(),
        !(q.progress is Finished),
        asked_at(q, hash, i),
    ensures
        ({
            let after = q.after_success(hash, keys);
            let moved = exists|j: int| #[trigger] moves_query(q, keys, j);
            &&& moved && (q.progress is Stalled || q.config.parallelism > 0) ==> after.progress
                == (QueryProgress::Iterating { no_progress: 0 })
            &&& moved && q.progress is Iterating && q.config.parallelism == 0 ==> after.progress
                is Stalled
            &&& !moved && q.progress is Stalled ==> after.progress is Stalled
            &&& !moved ==> (q.progress matches QueryProgress::Iterating { no_progress } ==> {
                &&& no_progress + 1 < q.config.parallelism ==> (
                after.progress matches QueryProgress::Iterating { no_progress: n } && n
                    == no_progress + 1)
                &&& no_progress + 1 >= q.config.parallelism ==> after.progress is Stalled
            })
        }),
{
    let target = q.target.hash;
    let n = q.config.num_results as int;
    every_asked_peer_is_heard(q, hash);
    lemma_brings_forward_marked(q, hash, keys);
    assert forall|j: int| 0 <= j < keys.len() implies #[trigger] moves_query(q, keys, j)
        == brings_nearer(target, q.peers, keys[j], n) by {
        let d = distance(keys[j].hash, target);
        assert forall|m: int| 0 <= m < q.peers.len() implies ((#[trigger] q.peers[m]).key.hash@
            == keys[j].hash@ <==> peer_distance(target, q.peers[m]) == d) by {
            equidistant_points_are_equal(q.peers[m].key.hash, keys[j].hash, target);
        }
        if !occupied(target, q.peers, d) {
            assert forall|m: int| 0 <= m < q.peers.len() implies (
            #[trigger] q.peers[m]).key.hash@ != keys[j].hash@ by {
                if peer_distance(target, q.peers[m]) == d {
                    assert(occupied(target, q.peers, d));
                }
            }
        }
        if moves_query(q, keys, j) {
            if occupied(target, q.peers, d) {
                let m = choose|m: int|
                    0 <= m < q.peers.len() && peer_distance(target, #[trigger] q.peers[m]) == d;
                assert(q.peers[m].key.hash@ == keys[j].hash@);
                assert(false);
            } else {
                assert(brings_nearer(target, q.peers, keys[j], n));
            }
        }
    }
    if exists|j: int| #[trigger] moves_query(q, keys, j) {
        let j = choose|j: int| #[trigger] moves_query(q, keys, j);
        assert(brings_nearer(target, q.peers, keys[j], n));
        assert(brings_forward(target, q.peers, keys, n));
    }
    if brings_forward(target, q.peers, keys, n) {
        let j = choose|j: int|
            0 <= j < keys.len() && brings_nearer(target, q.peers, #[trigger] keys[j], n);
        assert(moves_query(q, keys, j));
    }
}

/// Keeping the peers that have answered puts each of them at the place that
/// counts the answers before it.
proof fn lemma_filter_place<T>(peers: Seq<QueryPeer<T>>)
    ensures
        peers.filter(is_succeeded()).len() == answers(peers),
        forall|i: int|
            0 <= i < peers.len() && (#[trigger] peers[i]).state is Succeeded ==> answers(
                peers.take(i),
            ) < answers(peers) && peers.filter(is_succeeded())[answers(peers.take(i)) as int]
                == peers[i],
    decreases peers.len(),
{
    reveal(Seq::filter);
    if peers.len() > 0 {
        let front = peers.drop_last();
        let last = peers.len() - 1;
        lemma_filter_place(front);
        assert(peers.take(last) =~= front);
        assert forall|i: int| 0 <= i < last implies front.take(i) == #[trigger] peers.take(i) by {
            assert(front.take(i) =~= peers.take(i));
        }
        assert forall|i: int|
            0 <= i < peers.len() && (#[trigger] peers[i]).state is Succeeded implies answers(
            peers.take(i),
        ) < answers(peers) && peers.filter(is_succeeded())[answers(peers.take(i)) as int]
            == peers[i] by {
            if i < last {
                assert(front[i] == peers[i]);
                assert(front.take(i) == peers.take(i));
            }
        }
    }
}

/// The peer that has given the answer with number `m`.
proof fn lemma_nth_answer<T>(peers: Seq<QueryPeer<T>>, m: int) -> (i: int)
    requires
        0 <= m < answers(peers),
    ensures
        0 <= i < peers.len(),
        peers[i].state is Succeeded,
        answers(peers.take(i)) == m,
        peers[i] == peers.filter(is_succeeded())[m],
    decreases peers.len(),
{
    reveal(Seq::filter);
    let front = peers.drop_last();
    let last = peers.len() - 1;
    lemma_filter_place(front);
    assert(peers.take(last) =~= front);
    if m < answers(front) {
        let i = lemma_nth_answer(front, m);
        assert(front.take(i) =~= peers.take(i));
        i
    } else {
        last
    }
}

/// The result of a query, finished or not: a peer is in it if and only if it has
/// answered and fewer closer peers have answered than results are asked for. The
/// result stands in the order of strictly increasing distance and leaves out an
/// answer only if it is full.
pub proof fn result_holds_closest_answers<T>(q: QueryModel<T>)
    requires
        q.valid(),
    ensures
        forall|i: int|
            0 <= i < q.peers.len() ==> (q.result().contains(#[trigger] q.peers[i]) <==> (
            q.peers[i].state is Succeeded && answers(q.peers.take(i)) < q.config.num_results)),
        forall|m: int| 0 <= m < q.result().len() ==> q.peers.contains(#[trigger] q.result()[m]),
        forall|a: int, b: int|
            0 <= a < b < q.result().len() ==> distance(
                (#[trigger] q.result()[a]).key.hash,
                q.target.hash,
            ) < distance((#[trigger] q.result()[b]).key.hash, q.target.hash),
        q.result().len() == (if answers(q.peers) <= q.config.num_results {
            answers(q.peers) as int
        } else {
            q.config.num_results as int
        }),
        q.result().len() < q.config.num_results ==> forall|i: int|
            0 <= i < q.peers.len() && (#[trigger] q.peers[i]).state is Succeeded
                ==> q.result().contains(q.peers[i]),
{
    let target = q.target.hash;
    let all = q.succeeded();
    let result = q.result();
    lemma_filter_place(q.peers);
    lemma_filter_ordered(target, q.peers);
    assert(result =~= all.take(result.len() as int));
    assert forall|a: int, b: int| 0 <= a < b < result.len() implies distance(
        (#[trigger] result[a]).key.hash,
        target,
    ) < distance((#[trigger] result[b]).key.hash, target) by {
        assert(peer_distance(target, all[a]) < peer_distance(target, all[b]));
    }
    assert forall|m: int| 0 <= m < result.len() implies q.peers.contains(
        #[trigger] result[m],
    ) by {
        let i = lemma_nth_answer(q.peers, m);
        assert(result[m] == all[m]);
    }
    assert forall|i: int| 0 <= i < q.peers.len() implies (result.contains(#[trigger] q.peers[i])
        <==> (q.peers[i].state is Succeeded && answers(q.peers.take(i))
        < q.config.num_results)) by {
        let p = q.peers[i];
        if result.contains(p) {
            let m = choose|m: int| 0 <= m < result.len() && result[m] == p;
            assert(all[m] == p);
            let k = lemma_nth_answer(q.peers, m);
            if k != i {
                assert(peer_distance(target, q.peers[k]) == peer_distance(target, q.peers[i]));
            }
        }
        if p.state is Succeeded && answers(q.peers.take(i)) < q.config.num_results {
            let m = answers(q.peers.take(i)) as int;
            assert(all[m] == p);
            assert(m < result.len());
            assert(result[m] == p);
        }
    }
    if result.len() < q.config.num_results {
        assert forall|i: int|
            0 <= i < q.peers.len() && (#[trigger] q.peers[i]).state is Succeeded implies
            result.contains(q.peers[i]) by {
            assert(answers(q.peers.take(i)) < answers(q.peers));
        }
    }
}

/// The known key at `j` is taken into a new query: it is among the first
/// `num_results`, and no later one of them has the same hash.
pub open spec fn taken_at<T>(num_results: usize, known: Seq<Key<T>>, j: int) -> bool {
    &&& 0 <= j < known.len()
    &&& j < num_results
    &&& forall|m: int|
        j < m < known.len() && m < num_results ==> (#[trigger] known[m]).hash@ != known[j].hash@
}

/// No later key has the same hash as the key at `j`.
spec fn last_of_hash<T>(keys: Seq<Key<T>>, j: int) -> bool {
    &&& 0 <= j < keys.len()
    &&& forall|m: int| j < m < keys.len() ==> (#[trigger] keys[m]).hash@ != keys[j].hash@
}

/// The peers of given keys are those of the last key of each hash.
proof fn lemma_last_keys<T>(target: [u8; 32], keys: Seq<Key<T>>)
    ensures
        forall|p: QueryPeer<T>| #[trigger]
            all_fresh(target, keys).contains(p) <==> exists|j: int| #[trigger]
                last_of_hash(keys, j) && p == fresh(keys[j]),
    decreases keys.len(),
{
    let after = all_fresh(target, keys);
    if keys.len() > 0 {
        let front = keys.drop_last();
        let last = keys.len() - 1;
        let before = all_fresh(target, front);
        let peer = fresh(keys[last]);
        let d = peer_distance(target, peer);
        let r = rank(target, before, d) as int;
        lemma_last_keys(target, front);
        lemma_all_fresh(target, front);
        lemma_rank_splits(target, before, d);
        assert(keys.last() == keys[last]);
        assert(forall|m: int| 0 <= m < last ==> #[trigger] front[m] == keys[m]);
        assert(last_of_hash(keys, last));
        assert(after[r] == peer);
        assert forall|j: int| 0 <= j < last implies #[trigger] last_of_hash(keys, j) == (
        last_of_hash(front, j) && distance(keys[j].hash, target) != d) by {
            equidistant_points_are_equal(keys[j].hash, keys[last].hash, target);
            if last_of_hash(keys, j) {
                assert(keys[last].hash@ != keys[j].hash@);
                assert forall|m: int| j < m < front.len() implies (#[trigger] front[m]).hash@
                    != front[j].hash@ by {
                    assert(keys[m].hash@ != keys[j].hash@);
                }
            }
            if last_of_hash(front, j) && distance(keys[j].hash, target) != d {
                assert forall|m: int| j < m < keys.len() implies (#[trigger] keys[m]).hash@
                    != keys[j].hash@ by {
                    if m < last {
                        assert(front[m].hash@ != front[j].hash@);
                    }
                }
            }
        }
        assert forall|p: QueryPeer<T>| #[trigger]
            after.contains(p) <==> p == peer || (before.contains(p) && peer_distance(target, p)
                != d) by {
            if after.contains(p) {
                let m = choose|m: int| 0 <= m < after.len() && after[m] == p;
                if m != r {
                    let k = if m < r || occupied(target, before, d) {
                        m
                    } else {
                        m - 1
                    };
                    assert(before[k] == p);
                }
            }
            if before.contains(p) && peer_distance(target, p) != d {
                let k = choose|k: int| 0 <= k < before.len() && before[k] == p;
                let m = if k < r || occupied(target, before, d) {
                    k
                } else {
                    k + 1
                };
                assert(after[m] == p);
            }
        }
        assert forall|p: QueryPeer<T>| #[trigger]
            after.contains(p) <==> exists|j: int| #[trigger]
                last_of_hash(keys, j) && p == fresh(keys[j]) by {
            if after.contains(p) && p != peer {
                let j = choose|j: int| #[trigger] last_of_hash(front, j) && p == fresh(front[j]);
                assert(last_of_hash(keys, j));
            }
            if exists|j: int| #[trigger] last_of_hash(keys, j) && p == fresh(keys[j]) {
                let j = choose|j: int| #[trigger] last_of_hash(keys, j) && p == fresh(keys[j]);
                if j < last {
                    assert(last_of_hash(front, j));
                    assert(p == fresh(front[j]));
                    assert(before.contains(p));
                }
            }
        }
    }
}

/// A new query iterates, has asked nobody, and has in the order of distance one
/// peer for each hash among the first `num_results` known keys: that of the last
/// of them with this hash.
pub proof fn new_query_holds_first_known<T>(
    config: QueryConfig,
    target: Key<T>,
    known: Seq<Key<T>>,
)
    ensures
        ({
            let q = QueryModel::initial(config, target, known);
            &&& q.target == target
            &&& q.started is None
            &&& q.config == config
            &&& q.progress == (QueryProgress::Iterating { no_progress: 0 })
            &&& q.num_waiting == 0
            &&& forall|a: int, b: int|
                0 <= a < b < q.peers.len() ==> distance(
                    (#[trigger] q.peers[a]).key.hash,
                    target.hash,
                ) < distance((#[trigger] q.peers[b]).key.hash, target.hash)
            &&& forall|p: QueryPeer<T>| #[trigger]
                q.peers.contains(p) <==> exists|j: int| #[trigger]
                    taken_at(config.num_results, known, j) && p == (QueryPeer {
                        key: known[j],
                        peers_returned: 0,
                        state: QueryPeerState::NotContacted,
                    })
        }),
{
    let q = QueryModel::initial(config, target, known);
    let keys = first_of(known, config.num_results as int);
    lemma_initial_valid(config, target, known);
    lemma_last_keys(target.hash, keys);
    assert forall|j: int| #[trigger] taken_at(config.num_results, known, j) == last_of_hash(
        keys,
        j,
    ) by {
        if taken_at(config.num_results, known, j) {
            assert forall|m: int| j < m < keys.len() implies (#[trigger] keys[m]).hash@
                != keys[j].hash@ by {
                assert(known[m].hash@ != known[j].hash@);
            }
        }
        if last_of_hash(keys, j) {
            assert forall|m: int|
                j < m < known.len() && m < config.num_results implies (#[trigger] known[m]).hash@
                != known[j].hash@ by {
                assert(keys[m].hash@ != keys[j].hash@);
            }
        }
    }
    assert forall|p: QueryPeer<T>| #[trigger]
        q.peers.contains(p) <==> exists|j: int| #[trigger]
            taken_at(config.num_results, known, j) && p == (QueryPeer {
                key: known[j],
                peers_returned: 0,
                state: QueryPeerState::NotContacted,
            }) by {
        if q.peers.contains(p) {
            let j = choose|j: int| #[trigger] last_of_hash(keys, j) && p == fresh(keys[j]);
            assert(taken_at(config.num_results, known, j));
        }
        if exists|j: int| #[trigger]
            taken_at(config.num_results, known, j) && p == (QueryPeer {
                key: known[j],
                peers_returned: 0,
                state: QueryPeerState::NotContacted,
            }) {
            let j = choose|j: int| #[trigger]
                taken_at(config.num_results, known, j) && p == (QueryPeer {
                    key: known[j],
                    peers_returned: 0,
                    state: QueryPeerState::NotContacted,
                });
            assert(last_of_hash(keys, j));
            assert(p == fresh(keys[j]));
        }
    }
    assert forall|a: int, b: int| 0 <= a < b < q.peers.len() implies distance(
        (#[trigger] q.peers[a]).key.hash,
        target.hash,
    ) < distance((#[trigger] q.peers[b]).key.hash, target.hash) by {
        assert(peer_distance(target.hash, q.peers[a]) < peer_distance(target.hash, q.peers[b]));
    }
}

} // verus!
