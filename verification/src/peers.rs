//! Sequences of peers ordered by their distance to a target.

use vstd::prelude::*;

use crate::key::{closer, distance, equidistant_points_are_equal, Key};
use crate::query::{QueryPeer, QueryPeerState};

verus! {

/// The distance of a peer to `target`.
pub open spec fn peer_distance<T>(target: [u8; 32], peer: QueryPeer<T>) -> nat {
    distance(peer.key.hash, target)
}

/// The peers stand in the order of strictly increasing distance to `target`.
pub open spec fn ordered<T>(target: [u8; 32], peers: Seq<QueryPeer<T>>) -> bool {
    forall|i: int, j: int|
        0 <= i < j < peers.len() ==> peer_distance(target, #[trigger] peers[i]) < peer_distance(
            target,
            #[trigger] peers[j],
        )
}

/// Some peer lies at distance `d` from `target`.
pub open spec fn occupied<T>(target: [u8; 32], peers: Seq<QueryPeer<T>>, d: nat) -> bool {
    exists|i: int| 0 <= i < peers.len() && peer_distance(target, #[trigger] peers[i]) == d
}

/// The number of peers that satisfy `pred`.
pub open spec fn count<T>(peers: Seq<QueryPeer<T>>, pred: spec_fn(QueryPeer<T>) -> bool) -> nat
    decreases peers.len(),
{
    if peers.len() == 0 {
        0
    } else {
        count(peers.drop_last(), pred) + if pred(peers.last()) {
            1nat
        } else {
            0
        }
    }
}

/// The peers closer to `target` than `d`.
pub open spec fn within<T>(target: [u8; 32], d: nat) -> spec_fn(QueryPeer<T>) -> bool {
    |p: QueryPeer<T>| peer_distance(target, p) < d
}

/// The peers whose answer is being waited for.
pub open spec fn is_waiting<T>() -> spec_fn(QueryPeer<T>) -> bool {
    |p: QueryPeer<T>| p.state is Waiting
}

/// The peers that have answered.
pub open spec fn is_succeeded<T>() -> spec_fn(QueryPeer<T>) -> bool {
    |p: QueryPeer<T>| p.state is Succeeded
}

/// The peers that have not been asked.
pub open spec fn is_not_contacted<T>() -> spec_fn(QueryPeer<T>) -> bool {
    |p: QueryPeer<T>| p.state is NotContacted
}

/// The place of distance `d` among `peers`: how many of them are closer.
pub open spec fn rank<T>(target: [u8; 32], peers: Seq<QueryPeer<T>>, d: nat) -> nat {
    count(peers, within(target, d))
}

/// `peers` with `peer` put in its place, unless its distance is occupied.
pub open spec fn with_new<T>(
    target: [u8; 32],
    peers: Seq<QueryPeer<T>>,
    peer: QueryPeer<T>,
) -> Seq<QueryPeer<T>> {
    let d = peer_distance(target, peer);
    if occupied(target, peers, d) {
        peers
    } else {
        peers.insert(rank(target, peers, d) as int, peer)
    }
}

/// `peers` with `peer` put in its place, instead of the peer there, if any.
pub open spec fn with_replaced<T>(
    target: [u8; 32],
    peers: Seq<QueryPeer<T>>,
    peer: QueryPeer<T>,
) -> Seq<QueryPeer<T>> {
    let d = peer_distance(target, peer);
    let i = rank(target, peers, d) as int;
    if occupied(target, peers, d) {
        peers.update(i, peer)
    } else {
        peers.insert(i, peer)
    }
}

/// A peer that has just become known.
pub open spec fn fresh<T>(key: Key<T>) -> QueryPeer<T> {
    QueryPeer { key, peers_returned: 0, state: QueryPeerState::NotContacted }
}

/// `peers` and those of `keys` that are new, in the order of their distance.
/// Of equal keys the first is kept.
pub open spec fn with_all_new<T>(
    target: [u8; 32],
    peers: Seq<QueryPeer<T>>,
    keys: Seq<Key<T>>,
) -> Seq<QueryPeer<T>>
    decreases keys.len(),
{
    if keys.len() == 0 {
        peers
    } else {
        with_new(target, with_all_new(target, peers, keys.drop_last()), fresh(keys.last()))
    }
}

/// The peers with the given keys, in the order of their distance. Of equal
/// keys the last is kept.
pub open spec fn all_fresh<T>(target: [u8; 32], keys: Seq<Key<T>>) -> Seq<QueryPeer<T>>
    decreases keys.len(),
{
    if keys.len() == 0 {
        Seq::empty()
    } else {
        with_replaced(target, all_fresh(target, keys.drop_last()), fresh(keys.last()))
    }
}

/// No more peers have a property than there are.
pub proof fn lemma_count_bound<T>(peers: Seq<QueryPeer<T>>, pred: spec_fn(QueryPeer<T>) -> bool)
    ensures
        count(peers, pred) <= peers.len(),
    decreases peers.len(),
{
    if peers.len() > 0 {
        lemma_count_bound(peers.drop_last(), pred);
    }
}

/// A count is the sum of the counts before and from a place on.
pub proof fn lemma_count_split<T>(
    peers: Seq<QueryPeer<T>>,
    i: int,
    pred: spec_fn(QueryPeer<T>) -> bool,
)
    requires
        0 <= i <= peers.len(),
    ensures
        count(peers, pred) == count(peers.take(i), pred) + count(peers.skip(i), pred),
    decreases peers.len(),
{
    if i == peers.len() {
        assert(peers.take(i) =~= peers);
    } else {
        lemma_count_split(peers.drop_last(), i, pred);
        assert(peers.drop_last().take(i) =~= peers.take(i));
        assert(peers.drop_last().skip(i) =~= peers.skip(i).drop_last());
        assert(peers.skip(i).last() == peers.last());
    }
}

/// One more peer counts by itself.
pub proof fn lemma_count_take<T>(
    peers: Seq<QueryPeer<T>>,
    i: int,
    pred: spec_fn(QueryPeer<T>) -> bool,
)
    requires
        0 <= i < peers.len(),
    ensures
        count(peers.take(i + 1), pred) == count(peers.take(i), pred) + if pred(peers[i]) {
            1nat
        } else {
            0
        },
{
    assert(peers.take(i + 1).drop_last() =~= peers.take(i));
}

/// A count is zero if and only if no peer has the property.
pub proof fn lemma_count_none<T>(peers: Seq<QueryPeer<T>>, pred: spec_fn(QueryPeer<T>) -> bool)
    ensures
        count(peers, pred) == 0 <==> forall|i: int|
            0 <= i < peers.len() ==> !pred(#[trigger] peers[i]),
    decreases peers.len(),
{
    if peers.len() > 0 {
        lemma_count_none(peers.drop_last(), pred);
        assert forall|i: int| 0 <= i < peers.drop_last().len() implies peers.drop_last()[i]
            == #[trigger] peers[i] by {}
        assert(peers.last() == peers[peers.len() - 1]);
    }
}

/// A property that all peers have counts all of them.
pub proof fn lemma_count_all<T>(peers: Seq<QueryPeer<T>>, pred: spec_fn(QueryPeer<T>) -> bool)
    requires
        forall|i: int| 0 <= i < peers.len() ==> pred(#[trigger] peers[i]),
    ensures
        count(peers, pred) == peers.len(),
    decreases peers.len(),
{
    if peers.len() > 0 {
        lemma_count_all(peers.drop_last(), pred);
    }
}

/// Peers that agree on a property place by place have the same count of it.
pub proof fn lemma_count_same<T>(
    a: Seq<QueryPeer<T>>,
    b: Seq<QueryPeer<T>>,
    pred: spec_fn(QueryPeer<T>) -> bool,
)
    requires
        a.len() == b.len(),
        forall|i: int| 0 <= i < a.len() ==> pred(#[trigger] a[i]) == pred(b[i]),
    ensures
        count(a, pred) == count(b, pred),
    decreases a.len(),
{
    if a.len() > 0 {
        lemma_count_same(a.drop_last(), b.drop_last(), pred);
    }
}

/// Changing one peer changes a count by that peer alone.
pub proof fn lemma_count_update<T>(
    peers: Seq<QueryPeer<T>>,
    i: int,
    peer: QueryPeer<T>,
    pred: spec_fn(QueryPeer<T>) -> bool,
)
    requires
        0 <= i < peers.len(),
    ensures
        count(peers.update(i, peer), pred) + (if pred(peers[i]) {
            1nat
        } else {
            0
        }) == count(peers, pred) + (if pred(peer) {
            1nat
        } else {
            0
        }),
    decreases peers.len(),
{
    let after = peers.update(i, peer);
    if i == peers.len() - 1 {
        assert(after.drop_last() =~= peers.drop_last());
    } else {
        lemma_count_update(peers.drop_last(), i, peer, pred);
        assert(after.drop_last() =~= peers.drop_last().update(i, peer));
    }
}

/// Inserting a peer changes a count by that peer alone.
pub proof fn lemma_count_insert<T>(
    peers: Seq<QueryPeer<T>>,
    i: int,
    peer: QueryPeer<T>,
    pred: spec_fn(QueryPeer<T>) -> bool,
)
    requires
        0 <= i <= peers.len(),
    ensures
        count(peers.insert(i, peer), pred) == count(peers, pred) + if pred(peer) {
            1nat
        } else {
            0
        },
    decreases peers.len(),
{
    let after = peers.insert(i, peer);
    if i == peers.len() {
        assert(after.drop_last() =~= peers);
    } else {
        lemma_count_insert(peers.drop_last(), i, peer, pred);
        assert(after.drop_last() =~= peers.drop_last().insert(i, peer));
    }
}

/// A place with closer peers before it and no closer ones from it on is the rank.
pub proof fn lemma_rank<T>(target: [u8; 32], peers: Seq<QueryPeer<T>>, d: nat, i: int)
    requires
        0 <= i <= peers.len(),
        forall|j: int| 0 <= j < i ==> peer_distance(target, #[trigger] peers[j]) < d,
        forall|j: int| i <= j < peers.len() ==> peer_distance(target, #[trigger] peers[j]) >= d,
    ensures
        rank(target, peers, d) == i,
{
    let pred = within::<T>(target, d);
    lemma_count_split(peers, i, pred);
    lemma_count_all(peers.take(i), pred);
    lemma_count_none(peers.skip(i), pred);
}

/// The rank splits ordered peers into those closer than `d` and the rest; if a
/// peer lies at distance `d`, it stands at the rank.
pub proof fn lemma_rank_splits<T>(target: [u8; 32], peers: Seq<QueryPeer<T>>, d: nat)
    requires
        ordered(target, peers),
    ensures
        rank(target, peers, d) <= peers.len(),
        forall|j: int|
            0 <= j < rank(target, peers, d) ==> peer_distance(target, #[trigger] peers[j]) < d,
        forall|j: int|
            rank(target, peers, d) <= j < peers.len() ==> peer_distance(
                target,
                #[trigger] peers[j],
            ) >= d,
        occupied(target, peers, d) <==> rank(target, peers, d) < peers.len() && peer_distance(
            target,
            peers[rank(target, peers, d) as int],
        ) == d,
    decreases peers.len(),
{
    let r = rank(target, peers, d) as int;
    if peers.len() > 0 {
        let front = peers.drop_last();
        let last = peers.len() - 1;
        lemma_rank_splits(target, front, d);
        assert forall|j: int| 0 <= j < last implies front[j] == #[trigger] peers[j] by {}
        if peer_distance(target, peers[last]) < d {
            assert forall|j: int| 0 <= j < peers.len() implies peer_distance(
                target,
                #[trigger] peers[j],
            ) < d by {
                if j < last {
                    assert(peer_distance(target, peers[j]) < peer_distance(target, peers[last]));
                }
            }
            lemma_rank(target, peers, d, peers.len() as int);
        }
    }
    if occupied(target, peers, d) {
        let k = choose|k: int|
            0 <= k < peers.len() && peer_distance(target, #[trigger] peers[k]) == d;
        assert(k >= r);
        if k > r {
            assert(peer_distance(target, peers[r]) < peer_distance(target, peers[k]));
        }
    }
}

/// Putting a peer in its place keeps the order, keeps every other peer and
/// occupies the peer's distance.
pub proof fn lemma_with_new<T>(target: [u8; 32], peers: Seq<QueryPeer<T>>, peer: QueryPeer<T>)
    requires
        ordered(target, peers),
    ensures
        ordered(target, with_new(target, peers, peer)),
        forall|d: nat| #[trigger]
            occupied(target, with_new(target, peers, peer), d) <==> occupied(target, peers, d) || d
                == peer_distance(target, peer),
        forall|p: QueryPeer<T>| #[trigger]
            with_new(target, peers, peer).contains(p) ==> peers.contains(p) || p == peer,
        forall|p: QueryPeer<T>|
            peers.contains(p) ==> #[trigger] with_new(target, peers, peer).contains(p),
{
    let d0 = peer_distance(target, peer);
    let r = rank(target, peers, d0) as int;
    let after = with_new(target, peers, peer);
    lemma_rank_splits(target, peers, d0);
    if !occupied(target, peers, d0) {
        assert(forall|j: int| 0 <= j < r ==> #[trigger] after[j] == peers[j]);
        assert(after[r] == peer);
        assert(forall|j: int| r < j < after.len() ==> #[trigger] after[j] == peers[j - 1]);
        assert forall|j: int| r <= j < peers.len() implies peer_distance(
            target,
            #[trigger] peers[j],
        ) > d0 by {}
        assert forall|i: int, j: int| 0 <= i < j < after.len() implies peer_distance(
            target,
            #[trigger] after[i],
        ) < peer_distance(target, #[trigger] after[j]) by {}
        assert forall|d: nat| #[trigger]
            occupied(target, after, d) <==> occupied(target, peers, d) || d == d0 by {
            if occupied(target, peers, d) {
                let k = choose|k: int|
                    0 <= k < peers.len() && peer_distance(target, #[trigger] peers[k]) == d;
                if k < r {
                    assert(after[k] == peers[k]);
                } else {
                    assert(after[k + 1] == peers[k]);
                }
            }
            if d == d0 {
                assert(peer_distance(target, after[r]) == d);
            }
        }
        assert forall|p: QueryPeer<T>| #[trigger]
            after.contains(p) implies peers.contains(p) || p == peer by {
            let k = choose|k: int| 0 <= k < after.len() && after[k] == p;
            if k < r {
                assert(peers[k] == p);
            } else if k > r {
                assert(peers[k - 1] == p);
            }
        }
        assert forall|p: QueryPeer<T>| peers.contains(p) implies #[trigger] after.contains(p) by {
            let k = choose|k: int| 0 <= k < peers.len() && peers[k] == p;
            if k < r {
                assert(after[k] == p);
            } else {
                assert(after[k + 1] == p);
            }
        }
    }
}

/// A new peer raises the count of a property by one if it has the property.
pub proof fn lemma_with_new_count<T>(
    target: [u8; 32],
    peers: Seq<QueryPeer<T>>,
    peer: QueryPeer<T>,
    pred: spec_fn(QueryPeer<T>) -> bool,
)
    requires
        ordered(target, peers),
    ensures
        count(with_new(target, peers, peer), pred) == count(peers, pred) + (if pred(peer)
            && !occupied(target, peers, peer_distance(target, peer)) {
            1nat
        } else {
            0
        }),
{
    let d = peer_distance(target, peer);
    lemma_rank_splits(target, peers, d);
    lemma_count_insert(peers, rank(target, peers, d) as int, peer, pred);
}

/// What adding the peers with the given keys keeps, and what it adds.
pub proof fn lemma_with_all_new<T>(
    target: [u8; 32],
    peers: Seq<QueryPeer<T>>,
    keys: Seq<Key<T>>,
)
    requires
        ordered(target, peers),
    ensures
        ordered(target, with_all_new(target, peers, keys)),
        forall|d: nat| #[trigger]
            occupied(target, with_all_new(target, peers, keys), d) <==> occupied(target, peers, d)
                || exists|j: int|
                0 <= j < keys.len() && distance(#[trigger] keys[j].hash, target) == d,
        forall|p: QueryPeer<T>| #[trigger]
            with_all_new(target, peers, keys).contains(p) ==> peers.contains(p) || exists|j: int|
                0 <= j < keys.len() && p == fresh(#[trigger] keys[j]),
        forall|p: QueryPeer<T>|
            peers.contains(p) ==> #[trigger] with_all_new(target, peers, keys).contains(p),
        peers.len() <= with_all_new(target, peers, keys).len() <= peers.len() + keys.len(),
    decreases keys.len(),
{
    if keys.len() > 0 {
        let front = keys.drop_last();
        let last = keys.len() - 1;
        let before = with_all_new(target, peers, front);
        let after = with_all_new(target, peers, keys);
        lemma_with_all_new(target, peers, front);
        lemma_with_new(target, before, fresh(keys.last()));
        lemma_rank_splits(target, before, distance(keys.last().hash, target));
        assert forall|d: nat| #[trigger]
            occupied(target, after, d) <==> occupied(target, peers, d) || exists|j: int|
                0 <= j < keys.len() && distance(#[trigger] keys[j].hash, target) == d by {
            if exists|j: int|
                0 <= j < keys.len() && distance(#[trigger] keys[j].hash, target) == d {
                let j = choose|j: int|
                    0 <= j < keys.len() && distance(#[trigger] keys[j].hash, target) == d;
                if j < last {
                    assert(distance(front[j].hash, target) == d);
                    assert(occupied(target, before, d));
                }
            }
            if occupied(target, after, d) && !occupied(target, peers, d) {
                if occupied(target, before, d) {
                    let j = choose|j: int|
                        0 <= j < front.len() && distance(#[trigger] front[j].hash, target) == d;
                    assert(distance(keys[j].hash, target) == d);
                } else {
                    assert(distance(keys[last].hash, target) == d);
                }
            }
        }
        assert forall|p: QueryPeer<T>| #[trigger]
            after.contains(p) implies peers.contains(p) || exists|j: int|
            0 <= j < keys.len() && p == fresh(#[trigger] keys[j]) by {
            if before.contains(p) {
                if !peers.contains(p) {
                    let j = choose|j: int| 0 <= j < front.len() && p == fresh(#[trigger] front[j]);
                    assert(p == fresh(keys[j]));
                }
            } else {
                assert(p == fresh(keys[last]));
            }
        }
        assert forall|p: QueryPeer<T>| peers.contains(p) implies #[trigger] after.contains(p) by {
            assert(before.contains(p));
        }
    }
}

/// Adding fresh peers leaves the count of a property alone that none of them has.
pub proof fn lemma_with_all_new_count<T>(
    target: [u8; 32],
    peers: Seq<QueryPeer<T>>,
    keys: Seq<Key<T>>,
    pred: spec_fn(QueryPeer<T>) -> bool,
)
    requires
        ordered(target, peers),
        forall|k: Key<T>| !pred(#[trigger] fresh(k)),
    ensures
        count(with_all_new(target, peers, keys), pred) == count(peers, pred),
    decreases keys.len(),
{
    if keys.len() > 0 {
        let front = keys.drop_last();
        lemma_with_all_new_count(target, peers, front, pred);
        lemma_with_all_new(target, peers, front);
        lemma_with_new_count(
            target,
            with_all_new(target, peers, front),
            fresh(keys.last()),
            pred,
        );
    }
}

/// Adding fresh peers raises the count of a property that all of them have by
/// one for each peer that is new.
pub proof fn lemma_with_all_new_count_new<T>(
    target: [u8; 32],
    peers: Seq<QueryPeer<T>>,
    keys: Seq<Key<T>>,
    pred: spec_fn(QueryPeer<T>) -> bool,
)
    requires
        ordered(target, peers),
        forall|k: Key<T>| pred(#[trigger] fresh(k)),
    ensures
        count(with_all_new(target, peers, keys), pred) == count(peers, pred) + with_all_new(
            target,
            peers,
            keys,
        ).len() - peers.len(),
    decreases keys.len(),
{
    if keys.len() > 0 {
        let front = keys.drop_last();
        let before = with_all_new(target, peers, front);
        lemma_with_all_new_count_new(target, peers, front, pred);
        lemma_with_all_new(target, peers, front);
        lemma_with_new_count(target, before, fresh(keys.last()), pred);
        lemma_rank_splits(target, before, distance(keys.last().hash, target));
    }
}

/// The peers of given keys are ordered, all of them fresh, and one for each
/// distance that occurs among the keys.
pub proof fn lemma_all_fresh<T>(target: [u8; 32], keys: Seq<Key<T>>)
    ensures
        ordered(target, all_fresh(target, keys)),
        all_fresh(target, keys).len() <= keys.len(),
        forall|i: int|
            0 <= i < all_fresh(target, keys).len() ==> exists|j: int|
                0 <= j < keys.len() && #[trigger] all_fresh(target, keys)[i] == fresh(
                    #[trigger] keys[j],
                ),
        forall|d: nat| #[trigger]
            occupied(target, all_fresh(target, keys), d) <==> exists|j: int|
                0 <= j < keys.len() && distance(#[trigger] keys[j].hash, target) == d,
    decreases keys.len(),
{
    let after = all_fresh(target, keys);
    if keys.len() > 0 {
        let front = keys.drop_last();
        let last = keys.len() - 1;
        let before = all_fresh(target, front);
        let peer = fresh(keys.last());
        let d0 = peer_distance(target, peer);
        let r = rank(target, before, d0) as int;
        lemma_all_fresh(target, front);
        lemma_rank_splits(target, before, d0);
        lemma_with_new(target, before, peer);
        assert(forall|j: int| 0 <= j < front.len() ==> #[trigger] front[j] == keys[j]);
        if occupied(target, before, d0) {
            assert forall|i: int, j: int| 0 <= i < j < after.len() implies peer_distance(
                target,
                #[trigger] after[i],
            ) < peer_distance(target, #[trigger] after[j]) by {
                assert(peer_distance(target, before[i]) < peer_distance(target, before[j]));
            }
        }
        assert forall|i: int| 0 <= i < after.len() implies exists|j: int|
            0 <= j < keys.len() && #[trigger] after[i] == fresh(#[trigger] keys[j]) by {
            if after[i] == peer {
                assert(after[i] == fresh(keys[last]));
            } else {
                let k = if i < r || occupied(target, before, d0) {
                    i
                } else {
                    i - 1
                };
                assert(after[i] == before[k]);
                let j = choose|j: int|
                    0 <= j < front.len() && before[k] == fresh(#[trigger] front[j]);
                assert(after[i] == fresh(keys[j]));
            }
        }
        assert forall|d: nat| #[trigger]
            occupied(target, after, d) <==> exists|j: int|
                0 <= j < keys.len() && distance(#[trigger] keys[j].hash, target) == d by {
            assert(occupied(target, after, d) <==> occupied(target, before, d) || d == d0) by {
                if occupied(target, before, d0) {
                    if occupied(target, before, d) {
                        let k = choose|k: int|
                            0 <= k < before.len() && peer_distance(target, #[trigger] before[k])
                                == d;
                        assert(peer_distance(target, after[k]) == d);
                    }
                    if occupied(target, after, d) {
                        let k = choose|k: int|
                            0 <= k < after.len() && peer_distance(target, #[trigger] after[k]) == d;
                        assert(peer_distance(target, before[k]) == d);
                    }
                    assert(peer_distance(target, after[r]) == d0);
                } else {
                    assert(after == with_new(target, before, peer));
                }
            }
            if occupied(target, before, d) {
                let j = choose|j: int|
                    0 <= j < front.len() && distance(#[trigger] front[j].hash, target) == d;
                assert(distance(keys[j].hash, target) == d);
            }
            if d == d0 {
                assert(distance(keys[last].hash, target) == d);
            }
            if exists|j: int|
                0 <= j < keys.len() && distance(#[trigger] keys[j].hash, target) == d {
                let j = choose|j: int|
                    0 <= j < keys.len() && distance(#[trigger] keys[j].hash, target) == d;
                if j < last {
                    assert(distance(front[j].hash, target) == d);
                }
            }
        }
    }
}

/// Finds the place of `hash` among `peers`, and whether a peer is there.
pub fn locate<T>(target: &[u8; 32], peers: &Vec<QueryPeer<T>>, hash: &[u8; 32]) -> (r: (
    usize,
    bool,
))
    requires
        ordered(*target, peers@),
    ensures
        r.0 == rank(*target, peers@, distance(*hash, *target)),
        r.0 <= peers@.len(),
        r.1 == occupied(*target, peers@, distance(*hash, *target)),
        r.1 ==> r.0 < peers@.len() && peer_distance(*target, peers@[r.0 as int]) == distance(
            *hash,
            *target,
        ),
        forall|j: int|
            0 <= j < r.0 ==> distance((#[trigger] peers@[j]).key.hash, *target) < distance(
                *hash,
                *target,
            ),
        forall|j: int|
            r.0 <= j < peers@.len() ==> distance((#[trigger] peers@[j]).key.hash, *target)
                >= distance(*hash, *target),
        r.1 <==> r.0 < peers@.len() && peers@[r.0 as int].key.hash@ == hash@,
{
    let ghost d = distance(*hash, *target);
    let mut low: usize = 0;
    let mut high: usize = peers.len();
    while low < high
        invariant
            low <= high <= peers@.len(),
            ordered(*target, peers@),
            d == distance(*hash, *target),
            forall|j: int| 0 <= j < low ==> peer_distance(*target, #[trigger] peers@[j]) < d,
            forall|j: int|
                high <= j < peers@.len() ==> peer_distance(*target, #[trigger] peers@[j]) >= d,
        decreases high - low,
    {
        let mid: usize = low + (high - low) / 2;
        if closer(target, &peers[mid].key.hash, hash) {
            low = mid + 1;
        } else {
            high = mid;
        }
    }
    proof {
        lemma_rank(*target, peers@, d, low as int);
        lemma_rank_splits(*target, peers@, d);
    }
    let found = low < peers.len() && !closer(target, hash, &peers[low].key.hash);
    proof {
        if low < peers@.len() {
            equidistant_points_are_equal(peers@[low as int].key.hash, *hash, *target);
        }
    }
    (low, found)
}

} // verus!
