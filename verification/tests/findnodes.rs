use portalnet::findnodes::FindNodeQuery;
use portalnet::key::{Key, NodeId};
use portalnet::query::{QueryConfig, QueryPeerState, QueryProgress, QueryState};
use portalnet::time::{Duration, Instant};
use quickcheck::{Arbitrary, Gen, QuickCheck};
use rand::{rng, Rng};

#[derive(Clone, Debug)]
struct TestQuery(FindNodeQuery<NodeId>);

fn random_node() -> NodeId {
    NodeId {
        raw: discv5::enr::NodeId::random().raw(),
    }
}

fn random_nodes(n: usize) -> Vec<NodeId> {
    (0..n).map(|_| random_node()).collect()
}

fn start_time() -> Instant {
    Instant::at(Duration::from_secs(1_000))
}

fn random_query() -> FindNodeQuery<NodeId> {
    let mut rng = rng();

    let known_closest_peers = random_nodes(rng.random_range(1..60))
        .into_iter()
        .map(Key::from)
        .collect();
    let target = random_node();
    let config = QueryConfig {
        parallelism: rng.random_range(1..10),
        num_results: rng.random_range(1..25),
        peer_timeout: Duration::from_secs(rng.random_range(10..30)),
        overall_timeout: Duration::from_secs(rng.random_range(30..120)),
    };
    FindNodeQuery::with_config(config, target.into(), known_closest_peers)
}

fn distance(a: &Key<NodeId>, b: &Key<NodeId>) -> discv5::kbucket::Distance {
    let a = discv5::kbucket::Key::from(discv5::enr::NodeId::new(&a.hash));
    let b = discv5::kbucket::Key::from(discv5::enr::NodeId::new(&b.hash));
    a.distance(&b)
}

fn sorted(target: &Key<NodeId>, peers: &[Key<NodeId>]) -> bool {
    peers
        .windows(2)
        .all(|w| distance(&w[0], target) < distance(&w[1], target))
}

impl Arbitrary for TestQuery {
    fn arbitrary(_: &mut Gen) -> TestQuery {
        TestQuery(random_query())
    }
}

#[test]
fn new_query() {
    let query = random_query();
    let target = query.target();

    let (keys, states): (Vec<_>, Vec<_>) = query
        .closest_peers()
        .iter()
        .map(|e| (e.key().clone(), *e.state()))
        .unzip();

    let none_contacted = states
        .iter()
        .all(|s| matches!(s, QueryPeerState::NotContacted));

    assert!(none_contacted, "Unexpected peer state in new query.");
    assert!(
        sorted(&target, &keys),
        "Closest peers in new query not sorted by distance to target."
    );
    assert_eq!(
        query.num_waiting(),
        0,
        "Unexpected peers in progress in new query."
    );
    assert!(
        query.into_result().is_empty(),
        "Unexpected closest peers in new query"
    );
}

#[test]
fn termination_and_parallelism() {
    fn prop(query: TestQuery) {
        let TestQuery(mut query) = query;
        let now = start_time();
        let mut rng = rng();

        let mut expected = query
            .closest_peers()
            .iter()
            .map(|e| e.key().clone())
            .collect::<Vec<_>>();
        let num_known = expected.len();
        let max_parallelism = usize::min(query.config().parallelism, num_known);

        let target = query.target();
        let mut remaining;
        let mut num_failures = 0;

        'finished: loop {
            if expected.is_empty() {
                break;
            }
            // Split off the next up to `parallelism` expected peers.
            else if expected.len() < max_parallelism {
                remaining = Vec::new();
            } else {
                remaining = expected.split_off(max_parallelism);
            }

            // Advance the query for maximum parallelism.
            for k in expected.iter() {
                match query.poll(now) {
                    QueryState::Finished => break 'finished,
                    QueryState::Waiting(Some(p)) => assert_eq!(&p, k.preimage()),
                    QueryState::Waiting(None) => panic!("Expected another peer."),
                    QueryState::WaitingAtCapacity => panic!("Unexpectedly reached capacity."),
                    QueryState::Validating(..) => panic!("Should not validate nodes."),
                }
            }
            let num_waiting = query.num_waiting();
            assert_eq!(num_waiting, expected.len());

            // Check the bounded parallelism.
            if query.at_capacity() {
                assert_eq!(query.poll(now), QueryState::WaitingAtCapacity)
            }

            // Report results back to the query with a random number of "closer"
            // peers or an error, thus finishing the "in-flight requests".
            for (i, k) in expected.iter().enumerate() {
                if rng.random_bool(0.75) {
                    let num_closer = rng.random_range(0..query.config().num_results + 1);
                    let closer_peers = random_nodes(num_closer);
                    remaining.extend(closer_peers.iter().map(|x| Key::from(*x)));
                    query.on_success(k.preimage(), closer_peers);
                } else {
                    num_failures += 1;
                    query.on_failure(k.preimage());
                }
                assert_eq!(query.num_waiting(), num_waiting - (i + 1));
            }

            // Re-sort the remaining expected peers for the next "round".
            remaining.sort_by_key(|k| distance(&target, k));

            expected = remaining;
        }

        // The query must be finished.
        assert_eq!(query.poll(now), QueryState::Finished);
        assert_eq!(query.progress(), QueryProgress::Finished);

        // Determine if all peers have been contacted by the query. This _must_ be
        // the case if the query finished with fewer than the requested number
        // of results.
        let all_contacted = query.closest_peers().iter().all(|e| {
            !matches!(
                e.state(),
                QueryPeerState::NotContacted | QueryPeerState::Waiting { .. }
            )
        });

        let target_key = query.target();
        let num_results = query.config().num_results;
        let result = query.into_result();
        let closest = result.into_iter().map(Key::from).collect::<Vec<_>>();

        assert!(sorted(&target_key, &closest));

        if closest.len() < num_results {
            // The query returned fewer results than requested. Therefore
            // either the initial number of known peers must have been
            // less than the desired number of results, or there must
            // have been failures.
            assert!(num_known < num_results || num_failures > 0);
            // All peers must have been contacted.
            assert!(all_contacted, "Not all peers have been contacted.");
        } else {
            assert_eq!(num_results, closest.len(), "Too  many results.");
        }
    }

    QuickCheck::new().tests(10).quickcheck(prop as fn(_) -> _)
}

#[test]
fn no_duplicates() {
    fn prop(query: TestQuery) -> bool {
        let TestQuery(mut query) = query;
        let now = start_time();
        let closer: Vec<NodeId> = random_nodes(1);

        // A first peer reports a "closer" peer.
        let peer1 = if let QueryState::Waiting(Some(p)) = query.poll(now) {
            p
        } else {
            panic!("No peer.");
        };
        query.on_success(&peer1, closer.clone());
        // Duplicate result from the same peer.
        query.on_success(&peer1, closer.clone());

        // If there is a second peer, let it also report the same "closer" peer.
        match query.poll(now) {
            QueryState::Waiting(Some(p)) => {
                let peer2 = p;
                query.on_success(&peer2, closer.clone())
            }
            QueryState::Finished => {}
            _ => panic!("Unexpectedly query state."),
        };

        // The "closer" peer must only be in the query once.
        let n = query
            .closest_peers()
            .iter()
            .filter(|e| e.key().preimage() == &closer[0])
            .count();
        assert_eq!(n, 1);

        true
    }

    QuickCheck::new().tests(10).quickcheck(prop as fn(_) -> _)
}

#[test]
fn timeout() {
    fn prop(query: TestQuery) -> bool {
        let TestQuery(mut query) = query;
        let mut now = start_time();
        let peer = query
            .closest_peers()
            .iter()
            .next()
            .unwrap()
            .key()
            .clone()
            .into_preimage();
        // Poll the query for the first peer to be in progress.
        match query.poll(now) {
            QueryState::Waiting(Some(id)) => assert_eq!(id, peer),
            _ => panic!(),
        }

        // Artificially advance the clock.
        now = now.checked_add(query.config().peer_timeout).unwrap();

        // Advancing the query again should mark the first peer as unresponsive.
        let _ = query.poll(now);
        let first_peer = &query.closest_peers()[0];
        match first_peer.state() {
            QueryPeerState::Unresponsive => {
                assert_eq!(first_peer.key().preimage(), &peer);
            }
            _ => panic!("Unexpected peer state: {:?}", first_peer.state()),
        }

        let finished = query.progress() == QueryProgress::Finished;
        query.on_success(&peer, Vec::<NodeId>::new());
        let closest = query.into_result();

        if finished {
            // Delivering results when the query already finished must have
            // no effect.
            assert_eq!(Vec::<NodeId>::new(), closest);
        } else {
            // Unresponsive peers can still deliver results while the iterator
            // is not finished.
            assert_eq!(vec![peer], closest)
        }
        true
    }

    QuickCheck::new().tests(10).quickcheck(prop as fn(_) -> _)
}
