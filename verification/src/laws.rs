//! What holds of a node lookup as a whole, over its states and steps.

use vstd::prelude::*;

use crate::key::{distance, equidistant_points_are_equal, Key};
use crate::model::{
    brings_forward, brings_nearer, conclusive_at, expired, first_of, lemma_failure_valid,
    lemma_initial_valid, lemma_marked, lemma_place, lemma_poll_valid, lemma_stop,
    lemma_success_valid, lemma_timed_out_counts, settled, QueryModel,
};
use crate::peers::{
    count, fresh, is_not_contacted, is_succeeded, is_waiting, lemma_all_fresh, lemma_count_all,
    lemma_count_none, lemma_count_same, lemma_count_split, lemma_count_update, lemma_with_all_new,
    lemma_with_all_new_count, lemma_with_all_new_count_new, occupied, ordered, peer_distance,
    with_all_new,
};
use crate::query::{QueryConfig, QueryPeer, QueryPeerState, QueryProgress};
use crate::time::Instant;

verus! {

/// How far a peer has come: it is asked, it may run out of time, it is done with.
pub open spec fn stage(state: QueryPeerState) -> int {
    match state {
        QueryPeerState::NotContacted => 0,
        QueryPeerState::Waiting(_) => 1,
        QueryPeerState::Unresponsive => 2,
        QueryPeerState::Failed => 3,
        QueryPeerState::Succeeded => 3,
    }
}

/// `after` is `before` or the same peer at a later stage.
pub open spec fn advances<T>(before: QueryPeer<T>, after: QueryPeer<T>) -> bool {
    after == before || after.key == before.key && stage(before.state) < stage(after.state)
}

/// Every peer of `before` is in `after`, unchanged or at a later stage.
pub open spec fn keeps_peers<T>(before: QueryModel<T>, after: QueryModel<T>) -> bool {
    forall|i: int|
        0 <= i < before.peers.len() ==> exists|j: int|
            0 <= j < after.peers.len() && advances(
                #[trigger] before.peers[i],
                #[trigger] after.peers[j],
            )
}

/// As many peers have answered as the filter for them keeps.
proof fn lemma_filter_count<T>(peers: Seq<QueryPeer<T>>)
    ensures
        peers.filter(is_succeeded()).len() == count(peers, is_succeeded()),
    decreases peers.len(),
{
    reveal(Seq::filter);
    if peers.len() > 0 {
        lemma_filter_count(peers.drop_last());
    }
}

/// The peers that have answered stand in the order of all peers.
pub(crate) proof fn lemma_filter_ordered<T>(target: [u8; 32], peers: Seq<QueryPeer<T>>)
    requires
        ordered(target, peers),
    ensures
        ordered(target, peers.filter(is_succeeded())),
    decreases peers.len(),
{
    reveal(Seq::filter);
    if peers.len() > 0 {
        let front = peers.drop_last();
        let kept = front.filter(is_succeeded());
        lemma_filter_ordered(target, front);
        assert forall|i: int| 0 <= i < kept.len() implies peer_distance(
            target,
            #[trigger] kept[i],
        ) < peer_distance(target, peers.last()) by {
            assert(kept.contains(kept[i]));
            front.lemma_filter_contains_rev(is_succeeded(), kept[i]);
            let k = choose|k: int| 0 <= k < front.len() && front[k] == kept[i];
            assert(peers[k] == kept[i]);
        }
    }
}

/// The peer at a point stands at the point's place and nowhere else.
pub(crate) proof fn lemma_only_at_place<T>(q: QueryModel<T>, hash: [u8; 32], k: int)
    requires
        q.valid(),
        0 <= k < q.peers.len(),
        peer_distance(q.target.hash, q.peers[k]) == distance(hash, q.target.hash),
    ensures
        q.knows(hash),
        q.place(hash) == k,
{
    lemma_place(q, hash);
    assert(occupied(q.target.hash, q.peers, distance(hash, q.target.hash)));
    let at = q.place(hash);
    if at != k {
        assert(peer_distance(q.target.hash, q.peers[at]) == peer_distance(
            q.target.hash,
            q.peers[k],
        ));
    }
}

/// Whether reported peers bring a query forward does not depend on the state of
/// the peer that reports them.
pub(crate) proof fn lemma_brings_forward_marked<T>(q: QueryModel<T>, hash: [u8; 32], keys: Seq<Key<T>>)
    requires
        q.valid(),
        q.awaits(hash),
    ensures
        ({
            let i = q.place(hash);
            let marked = q.peers.update(i, q.peers[i].answered(keys.len() as int));
            brings_forward(q.target.hash, marked, keys, q.config.num_results as int)
                == brings_forward(q.target.hash, q.peers, keys, q.config.num_results as int)
        }),
{
    let target = q.target.hash;
    let n = q.config.num_results as int;
    let i = q.place(hash);
    let marked = q.peers.update(i, q.peers[i].answered(keys.len() as int));
    lemma_place(q, hash);
    assert(forall|k: int|
        0 <= k < marked.len() ==> peer_distance(target, #[trigger] marked[k]) == peer_distance(
            target,
            q.peers[k],
        ));
    assert forall|d: nat| #[trigger]
        occupied(target, marked, d) == occupied(target, q.peers, d) by {
        if occupied(target, q.peers, d) {
            let k = choose|k: int|
                0 <= k < q.peers.len() && peer_distance(target, #[trigger] q.peers[k]) == d;
            assert(peer_distance(target, marked[k]) == d);
        }
    }
    assert forall|key: Key<T>| #[trigger]
        brings_nearer(target, marked, key, n) == brings_nearer(target, q.peers, key, n) by {
        let d = distance(key.hash, target);
        assert(occupied(target, marked, d) == occupied(target, q.peers, d));
        if brings_nearer(target, marked, key, n) && !(marked.len() < n) {
            assert forall|k: int| 0 <= k < q.peers.len() implies d < peer_distance(
                target,
                #[trigger] q.peers[k],
            ) by {
                assert(d < peer_distance(target, marked[k]));
            }
        }
    }
    if brings_forward(target, marked, keys, n) {
        let j = choose|j: int|
            0 <= j < keys.len() && brings_nearer(target, marked, #[trigger] keys[j], n);
        assert(brings_nearer(target, q.peers, keys[j], n));
    }
    if brings_forward(target, q.peers, keys, n) {
        let j = choose|j: int|
            0 <= j < keys.len() && brings_nearer(target, q.peers, #[trigger] keys[j], n);
        assert(brings_nearer(target, marked, keys[j], n));
    }
}

/// A new query has contacted nobody, waits for nobody, has no result, and knows
/// the first `num_results` of the peers that it was given, and only those.
pub proof fn new_query_is_untouched<T>(config: QueryConfig, target: Key<T>, known: Seq<Key<T>>)
    ensures
        ({
            let q = QueryModel::initial(config, target, known);
            let taken = first_of(known, config.num_results as int);
            &&& q.valid()
            &&& q.num_waiting == 0
            &&& q.result().len() == 0
            &&& q.peers.len() <= config.num_results
            &&& forall|i: int|
                0 <= i < q.peers.len() ==> exists|j: int|
                    0 <= j < taken.len() && #[trigger] q.peers[i] == fresh(#[trigger] taken[j])
            &&& forall|j: int| 0 <= j < taken.len() ==> q.knows((#[trigger] taken[j]).hash)
        }),
{
    let q = QueryModel::initial(config, target, known);
    let taken = first_of(known, config.num_results as int);
    lemma_initial_valid(config, target, known);
    lemma_all_fresh(target.hash, taken);
    assert forall|j: int| 0 <= j < taken.len() implies q.knows((#[trigger] taken[j]).hash) by {
        assert(occupied(target.hash, q.peers, distance(taken[j].hash, target.hash)));
    }
    lemma_count_none(q.peers, is_succeeded());
    lemma_filter_count(q.peers);
}

/// No peer is in a query twice.
pub proof fn peers_are_distinct<T>(q: QueryModel<T>, i: int, j: int)
    requires
        q.valid(),
        0 <= i < q.peers.len(),
        0 <= j < q.peers.len(),
        q.peers[i].key.hash@ == q.peers[j].key.hash@,
    ensures
        i == j,
{
    equidistant_points_are_equal(q.peers[i].key.hash, q.peers[j].key.hash, q.target.hash);
}

/// Nothing changes a finished query, and it stays finished.
pub proof fn finished_is_final<T>(
    q: QueryModel<T>,
    hash: [u8; 32],
    keys: Seq<Key<T>>,
    now: Instant,
)
    requires
        q.progress is Finished,
    ensures
        q.after_failure(hash) == q,
        q.after_success(hash, keys) == q,
        q.after_poll(now) == q,
        q.poll_outcome(now) is Finished,
{
}

/// After an answer of a peer, neither a second answer nor a failure of it counts.
pub proof fn answer_counts_once<T>(
    q: QueryModel<T>,
    hash: [u8; 32],
    keys: Seq<Key<T>>,
    again: Seq<Key<T>>,
)
    requires
        q.valid(),
    ensures
        ({
            let after = q.after_success(hash, keys);
            &&& !after.awaits(hash)
            &&& after.after_success(hash, again) == after
            &&& after.after_failure(hash) == after
        }),
{
    let after = q.after_success(hash, keys);
    if q.awaits(hash) {
        let target = q.target.hash;
        lemma_success_valid(q, hash, keys);
        lemma_marked(q, hash, keys.len() as int);
        let i = q.place(hash);
        let marked = q.peers.update(i, q.peers[i].answered(keys.len() as int));
        let peer = marked[i];
        lemma_place(q, hash);
        lemma_with_all_new(target, marked, keys);
        assert(marked.contains(peer));
        assert(after.peers.contains(peer));
        let k = choose|k: int| 0 <= k < after.peers.len() && after.peers[k] == peer;
        lemma_only_at_place(after, hash, k);
    }
}

/// After a failure of a peer, neither a second failure nor an answer of it counts.
pub proof fn failure_counts_once<T>(q: QueryModel<T>, hash: [u8; 32], keys: Seq<Key<T>>)
    requires
        q.valid(),
    ensures
        ({
            let after = q.after_failure(hash);
            &&& !after.awaits(hash)
            &&& after.after_failure(hash) == after
            &&& after.after_success(hash, keys) == after
        }),
{
    let after = q.after_failure(hash);
    if q.awaits(hash) {
        lemma_failure_valid(q, hash);
        lemma_place(q, hash);
        lemma_only_at_place(after, hash, q.place(hash));
    }
}

/// An answer makes every reported peer known.
pub proof fn reported_peers_are_known<T>(
    q: QueryModel<T>,
    hash: [u8; 32],
    keys: Seq<Key<T>>,
    j: int,
)
    requires
        q.valid(),
        q.awaits(hash),
        0 <= j < keys.len(),
    ensures
        q.after_success(hash, keys).knows(keys[j].hash),
{
    lemma_marked(q, hash, keys.len() as int);
    let i = q.place(hash);
    let marked = q.peers.update(i, q.peers[i].answered(keys.len() as int));
    lemma_with_all_new(q.target.hash, marked, keys);
    assert(occupied(
        q.target.hash,
        with_all_new(q.target.hash, marked, keys),
        distance(keys[j].hash, q.target.hash),
    ));
}

/// A failure loses no peer and sends none back to an earlier stage.
pub proof fn failure_keeps_peers<T>(q: QueryModel<T>, hash: [u8; 32])
    requires
        q.valid(),
    ensures
        keeps_peers(q, q.after_failure(hash)),
{
    let after = q.after_failure(hash);
    lemma_place(q, hash);
    assert forall|i: int| 0 <= i < q.peers.len() implies exists|j: int|
        0 <= j < after.peers.len() && advances(
            #[trigger] q.peers[i],
            #[trigger] after.peers[j],
        ) by {
        assert(advances(q.peers[i], after.peers[i]));
    }
}

/// An answer loses no peer and sends none back to an earlier stage.
pub proof fn success_keeps_peers<T>(q: QueryModel<T>, hash: [u8; 32], keys: Seq<Key<T>>)
    requires
        q.valid(),
    ensures
        keeps_peers(q, q.after_success(hash, keys)),
{
    let after = q.after_success(hash, keys);
    if q.awaits(hash) {
        lemma_marked(q, hash, keys.len() as int);
        let at = q.place(hash);
        let marked = q.peers.update(at, q.peers[at].answered(keys.len() as int));
        lemma_with_all_new(q.target.hash, marked, keys);
        assert forall|i: int| 0 <= i < q.peers.len() implies exists|j: int|
            0 <= j < after.peers.len() && advances(
                #[trigger] q.peers[i],
                #[trigger] after.peers[j],
            ) by {
            assert(marked.contains(marked[i]));
            assert(after.peers.contains(marked[i]));
            let j = choose|j: int| 0 <= j < after.peers.len() && after.peers[j] == marked[i];
            assert(advances(q.peers[i], after.peers[j]));
        }
    } else {
        assert forall|i: int| 0 <= i < q.peers.len() implies exists|j: int|
            0 <= j < after.peers.len() && advances(
                #[trigger] q.peers[i],
                #[trigger] after.peers[j],
            ) by {
            assert(advances(q.peers[i], after.peers[i]));
        }
    }
}

/// A poll loses no peer and sends none back to an earlier stage.
pub proof fn poll_keeps_peers<T>(q: QueryModel<T>, now: Instant)
    requires
        q.valid(),
    ensures
        keeps_peers(q, q.after_poll(now)),
{
    let after = q.after_poll(now);
    lemma_stop(q, now, 0);
    assert forall|i: int| 0 <= i < q.peers.len() implies exists|j: int|
        0 <= j < after.peers.len() && advances(
            #[trigger] q.peers[i],
            #[trigger] after.peers[j],
        ) by {
        assert(advances(q.peers[i], after.peers[i]));
    }
}

/// A poll hands out only a peer that has not been contacted, the closest such
/// peer, and marks it as waited for until its time is up. So a peer is handed
/// out at most once.
pub proof fn poll_hands_out_closest_new_peer<T>(q: QueryModel<T>, now: Instant)
    requires
        q.valid(),
        q.poll_outcome(now) is Contact,
    ensures
        ({
            let i = q.poll_outcome(now)->Contact_0;
            let after = q.after_poll(now);
            &&& 0 <= i < q.peers.len()
            &&& q.peers[i].state is NotContacted
            &&& forall|j: int|
                0 <= j < i ==> !((#[trigger] q.peers[j]).state is NotContacted)
            &&& after.peers[i] == q.peers[i].in_state(
                QueryPeerState::Waiting(now.after(q.config.peer_timeout)),
            )
            &&& count(after.peers, is_not_contacted()) == count(q.peers, is_not_contacted()) - 1
        }),
{
    lemma_stop(q, now, 0);
    let i = q.stop(now);
    let swept = q.swept(now);
    assert forall|j: int| 0 <= j < i implies !((#[trigger] q.peers[j]).state is NotContacted) by {
        assert(!q.stops_at(now, j));
    }
    lemma_count_same(swept, q.peers, is_not_contacted());
    lemma_count_update(
        swept,
        i,
        swept[i].in_state(QueryPeerState::Waiting(now.after(q.config.peer_timeout))),
        is_not_contacted(),
    );
}

/// The steps still owed to the known peers: to ask them, and to be done with them.
pub open spec fn work<T>(peers: Seq<QueryPeer<T>>) -> nat {
    2 * count(peers, is_not_contacted()) + count(peers, is_waiting())
}

/// Polls and failures never bring a query work, and each poll that hands out a
/// peer leaves less of it.
pub proof fn work_runs_out<T>(q: QueryModel<T>, now: Instant, hash: [u8; 32])
    requires
        q.valid(),
    ensures
        work(q.after_poll(now).peers) <= work(q.peers),
        q.poll_outcome(now) is Contact ==> work(q.after_poll(now).peers) < work(q.peers),
        work(q.after_failure(hash).peers) <= work(q.peers),
{
    if !(q.progress is Finished) {
        lemma_stop(q, now, 0);
        let i = q.stop(now);
        let swept = q.swept(now);
        lemma_timed_out_counts(q.peers, now, i);
        lemma_count_same(swept, q.peers, is_not_contacted());
        if q.poll_outcome(now) is Contact {
            let peer = swept[i].in_state(
                QueryPeerState::Waiting(now.after(q.config.peer_timeout)),
            );
            lemma_count_update(swept, i, peer, is_not_contacted());
            lemma_count_update(swept, i, peer, is_waiting());
        }
    }
    if q.awaits(hash) {
        lemma_place(q, hash);
        let i = q.place(hash);
        let peer = q.peers[i].in_state(QueryPeerState::Failed);
        lemma_count_update(q.peers, i, peer, is_not_contacted());
        lemma_count_update(q.peers, i, peer, is_waiting());
    }
}

/// An answer brings a query at most the work of the peers that are new to it;
/// the peers that it knows are not asked again.
pub proof fn only_new_peers_add_work<T>(q: QueryModel<T>, hash: [u8; 32], keys: Seq<Key<T>>)
    requires
        q.valid(),
    ensures
        ({
            let after = q.after_success(hash, keys);
            &&& after.peers.len() >= q.peers.len()
            &&& work(after.peers) <= work(q.peers) + 2 * (after.peers.len() - q.peers.len())
        }),
{
    if q.awaits(hash) {
        lemma_marked(q, hash, keys.len() as int);
        let i = q.place(hash);
        let peer = q.peers[i].answered(keys.len() as int);
        let marked = q.peers.update(i, peer);
        lemma_with_all_new(q.target.hash, marked, keys);
        lemma_with_all_new_count(q.target.hash, marked, keys, is_waiting());
        lemma_with_all_new_count_new(q.target.hash, marked, keys, is_not_contacted());
        lemma_count_update(q.peers, i, peer, is_not_contacted());
    }
}

/// A query that waits for nobody does not get stuck: it hands out a peer or
/// finishes, unless its configuration allows it no requests at all.
pub proof fn query_does_not_get_stuck<T>(q: QueryModel<T>, now: Instant)
    requires
        q.valid(),
        q.num_waiting == 0,
    ensures
        q.poll_outcome(now) is Contact || q.poll_outcome(now) is Finished || q.capacity() == 0,
{
    lemma_stop(q, now, 0);
    lemma_timed_out_counts(q.peers, now, q.stop(now));
}

/// A query all of whose peers have been asked and none of which is waited for
/// finishes at the next poll.
pub proof fn settled_query_finishes<T>(q: QueryModel<T>, now: Instant)
    requires
        q.valid(),
        forall|i: int| 0 <= i < q.peers.len() ==> settled(#[trigger] q.peers[i]),
    ensures
        q.poll_outcome(now) is Finished,
        q.after_poll(now).progress is Finished,
{
    lemma_stop(q, now, 0);
    let swept = q.swept(now);
    lemma_count_none(swept, is_waiting());
    if q.stop(now) < q.peers.len() {
        assert(q.stops_at(now, q.stop(now)));
        assert(settled(q.peers[q.stop(now)]));
    }
}

/// The number of requests in flight is bounded. It never exceeds both limits of
/// the configuration; at capacity a poll hands out no peer, and below capacity
/// it does not exceed the capacity by handing one out.
pub proof fn parallelism_is_bounded<T>(q: QueryModel<T>, now: Instant)
    requires
        q.valid(),
    ensures
        q.num_waiting <= q.config.parallelism || q.num_waiting <= q.config.num_results,
        q.at_capacity() ==> q.poll_outcome(now) is AtCapacity || q.poll_outcome(now) is Finished,
        q.poll_outcome(now) is Contact ==> q.after_poll(now).num_waiting <= q.capacity(),
        q.after_poll(now).num_waiting <= q.num_waiting + 1,
{
    lemma_stop(q, now, 0);
    lemma_timed_out_counts(q.peers, now, q.stop(now));
    let swept = q.swept(now);
    if q.at_capacity() && q.stop(now) == q.peers.len() {
        assert forall|j: int| 0 <= j < swept.len() implies !((#[trigger] swept[j]).state
            is Waiting) by {
            assert(!q.stops_at(now, j));
        }
        lemma_count_none(swept, is_waiting());
    }
    if q.poll_outcome(now) is Contact {
        let i = q.stop(now);
        lemma_count_update(
            swept,
            i,
            swept[i].in_state(QueryPeerState::Waiting(now.after(q.config.peer_timeout))),
            is_waiting(),
        );
    }
}

/// A query that finishes with fewer results than asked for has contacted every
/// peer and waits for none of them; it knows too few peers, or some of them have
/// failed or not responded. It never has more results than asked for.
pub proof fn short_result_means_all_contacted<T>(q: QueryModel<T>)
    requires
        q.valid(),
        q.progress is Finished,
    ensures
        q.result().len() <= q.config.num_results,
        q.result().len() < q.config.num_results ==> forall|i: int|
            0 <= i < q.peers.len() ==> settled(#[trigger] q.peers[i]),
        q.result().len() < q.config.num_results ==> q.peers.len() < q.config.num_results
            || exists|i: int|
            0 <= i < q.peers.len() && ((#[trigger] q.peers[i]).state is Failed || q.peers[i].state
                is Unresponsive),
{
    let num_results = q.config.num_results as int;
    let k = choose|k: int| conclusive_at(q.peers, num_results, k);
    lemma_filter_count(q.peers);
    lemma_count_split(q.peers, k, is_succeeded());
    if q.result().len() < num_results && forall|i: int|
        0 <= i < q.peers.len() ==> (#[trigger] q.peers[i]).state is Succeeded {
        lemma_count_all(q.peers, is_succeeded());
    }
}

/// The result holds peers that have answered, in the order of strictly
/// increasing distance to the target, and every peer that has answered and is
/// not in it is farther away than all that are.
pub proof fn result_is_closest_answers<T>(q: QueryModel<T>)
    requires
        q.valid(),
    ensures
        ordered(q.target.hash, q.result()),
        forall|i: int|
            0 <= i < q.result().len() ==> (#[trigger] q.result()[i]).state is Succeeded
                && q.peers.contains(q.result()[i]),
        forall|p: QueryPeer<T>, i: int|
            #![trigger q.peers.contains(p), q.result()[i]]
            q.peers.contains(p) && p.state is Succeeded && !q.result().contains(p) && 0 <= i
                < q.result().len() ==> peer_distance(q.target.hash, q.result()[i])
                < peer_distance(q.target.hash, p),
{
    let all = q.succeeded();
    let result = q.result();
    lemma_filter_ordered(q.target.hash, q.peers);
    assert(result =~= all.take(result.len() as int));
    assert forall|i: int| 0 <= i < result.len() implies (#[trigger] result[i]).state is Succeeded
        && q.peers.contains(result[i]) by {
        assert(result[i] == all[i]);
        q.peers.lemma_filter_pred(is_succeeded(), i);
        assert(all.contains(all[i]));
        q.peers.lemma_filter_contains_rev(is_succeeded(), all[i]);
    }
    assert forall|p: QueryPeer<T>, i: int|
        #![trigger q.peers.contains(p), result[i]]
        q.peers.contains(p) && p.state is Succeeded && !result.contains(p) && 0 <= i
            < result.len() implies peer_distance(q.target.hash, result[i]) < peer_distance(
        q.target.hash,
        p,
    ) by {
        let k = choose|k: int| 0 <= k < q.peers.len() && q.peers[k] == p;
        q.peers.lemma_filter_contains(is_succeeded(), k);
        let m = choose|m: int| 0 <= m < all.len() && all[m] == p;
        if m < result.len() {
            assert(result[m] == p);
        }
        assert(result[i] == all[i]);
    }
}

/// When a query is finished, every peer that it has not asked, or waits for, is
/// farther away than all of its results.
pub proof fn finished_result_is_closest<T>(q: QueryModel<T>, i: int, u: int)
    requires
        q.valid(),
        q.progress is Finished,
        0 <= i < q.result().len(),
        0 <= u < q.peers.len(),
        !settled(q.peers[u]),
    ensures
        peer_distance(q.target.hash, q.result()[i]) < peer_distance(q.target.hash, q.peers[u]),
{
    let num_results = q.config.num_results as int;
    let k = choose|k: int| conclusive_at(q.peers, num_results, k);
    assert(k < q.peers.len() && u >= k);
    let front = q.peers.take(k);
    let rest = q.peers.skip(k);
    assert(q.peers =~= front + rest);
    Seq::filter_distributes_over_add(front, rest, is_succeeded());
    lemma_filter_count(front);
    let r = q.result()[i];
    assert(r == front.filter(is_succeeded())[i]);
    assert(front.filter(is_succeeded()).contains(r));
    front.lemma_filter_contains_rev(is_succeeded(), r);
    let m = choose|m: int| 0 <= m < front.len() && front[m] == r;
    assert(q.peers[m] == r);
}

/// A poll marks each peer that it visits and whose time is up as unresponsive;
/// unless the poll ends the query, such a peer may still answer.
pub proof fn late_peer_may_still_answer<T>(q: QueryModel<T>, now: Instant, i: int)
    requires
        q.valid(),
        !(q.progress is Finished),
        0 <= i < q.stop(now),
        expired(q.peers[i], now),
    ensures
        q.after_poll(now).peers[i] == q.peers[i].in_state(QueryPeerState::Unresponsive),
        !(q.poll_outcome(now) is Finished) ==> q.after_poll(now).awaits(q.peers[i].key.hash),
{
    lemma_stop(q, now, 0);
    lemma_poll_valid(q, now);
    let after = q.after_poll(now);
    lemma_only_at_place(after, q.peers[i].key.hash, i);
}

/// The closest peer is always visited: once its time is up, a poll of an
/// unfinished query marks it as unresponsive.
pub proof fn closest_peer_times_out<T>(q: QueryModel<T>, now: Instant)
    requires
        q.valid(),
        !(q.progress is Finished),
        q.peers.len() > 0,
        expired(q.peers[0], now),
    ensures
        q.after_poll(now).peers[0] == q.peers[0].in_state(QueryPeerState::Unresponsive),
{
    lemma_stop(q, now, 0);
    assert(!q.stops_at(now, 0));
    lemma_stop(q, now, 1);
    late_peer_may_still_answer(q, now, 0);
}

/// An answer that brings the query forward sets it iterating afresh, whether it
/// was stalled or not. (A query that iterates with no parallelism at all is the
/// exception: it stalls at any answer.)
pub proof fn progress_restarts_iteration<T>(q: QueryModel<T>, hash: [u8; 32], keys: Seq<Key<T>>)
    requires
        q.valid(),
        q.awaits(hash),
        q.config.parallelism > 0 || q.progress is Stalled,
        brings_forward(q.target.hash, q.peers, keys, q.config.num_results as int),
    ensures
        q.after_success(hash, keys).progress == (QueryProgress::Iterating { no_progress: 0 }),
{
    lemma_brings_forward_marked(q, hash, keys);
}

/// An answer that does not bring the query forward stalls it once as many such
/// answers have come in a row as the configured parallelism, and never restarts
/// a stalled query.
pub proof fn no_progress_stalls<T>(q: QueryModel<T>, hash: [u8; 32], keys: Seq<Key<T>>)
    requires
        q.valid(),
        q.awaits(hash),
        !brings_forward(q.target.hash, q.peers, keys, q.config.num_results as int),
    ensures
        q.after_success(hash, keys).progress == match q.progress {
            QueryProgress::Iterating { no_progress } => if no_progress + 1
                < q.config.parallelism {
                QueryProgress::Iterating { no_progress: (no_progress + 1) as usize }
            } else {
                QueryProgress::Stalled
            },
            _ => QueryProgress::Stalled,
        },
{
    lemma_brings_forward_marked(q, hash, keys);
}

} // verus!
