use portalnet::findnodes::FindNodeQuery;
use portalnet::key::{Key, NodeId};
use portalnet::query::{QueryConfig, QueryPeerState, QueryProgress, QueryState};
use portalnet::time::{Duration, Instant};

/// A node at distance `n` from the node that is all zeros.
fn node(n: u8) -> NodeId {
    let mut raw = [0u8; 32];
    raw[31] = n;
    NodeId { raw }
}

fn nodes(ns: &[u8]) -> Vec<NodeId> {
    ns.iter().map(|n| node(*n)).collect()
}

fn at(secs: u64) -> Instant {
    Instant::at(Duration::from_secs(secs))
}

fn config(parallelism: usize, num_results: usize) -> QueryConfig {
    QueryConfig {
        parallelism,
        num_results,
        peer_timeout: Duration::from_secs(10),
        overall_timeout: Duration::from_secs(60),
    }
}

fn query(parallelism: usize, num_results: usize, known: &[u8]) -> FindNodeQuery<NodeId> {
    FindNodeQuery::with_config(
        config(parallelism, num_results),
        node(0).into(),
        nodes(known).into_iter().map(Key::from).collect(),
    )
}

fn known(query: &FindNodeQuery<NodeId>) -> Vec<u8> {
    query
        .closest_peers()
        .iter()
        .map(|p| p.key().preimage().raw[31])
        .collect()
}

fn states(query: &FindNodeQuery<NodeId>) -> Vec<QueryPeerState> {
    query.closest_peers().iter().map(|p| *p.state()).collect()
}

fn ask(query: &mut FindNodeQuery<NodeId>, n: u8) {
    assert_eq!(query.poll(at(0)), QueryState::Waiting(Some(node(n))));
}

/// A node whose name is no part of its key.
#[derive(Clone, PartialEq, Eq, Debug)]
struct Named(&'static str, u8);

impl From<Named> for Key<Named> {
    fn from(named: Named) -> Self {
        let hash = node(named.1).raw;
        Key::new_raw(named, hash)
    }
}

fn names(query: &FindNodeQuery<Named>) -> Vec<&'static str> {
    query
        .closest_peers()
        .iter()
        .map(|p| p.key().preimage().0)
        .collect()
}

fn named_query(num_results: usize, known: Vec<Named>) -> FindNodeQuery<Named> {
    FindNodeQuery::with_config(
        config(3, num_results),
        Named("target", 0).into(),
        known.into_iter().map(Key::from).collect(),
    )
}

#[test]
fn peers_are_taken_in_order_given_and_kept_in_order_of_distance() {
    let q = query(3, 3, &[9, 4, 7, 1, 2]);
    assert_eq!(known(&q), vec![4, 7, 9]);
    assert_eq!(q.progress(), QueryProgress::Iterating { no_progress: 0 });
    assert_eq!(q.num_waiting(), 0);
    assert_eq!(q.started(), None);
}

#[test]
fn distances_are_compared_as_big_endian_xor() {
    let mut far = [0u8; 32];
    far[0] = 1;
    let mut near = [0u8; 32];
    near[31] = 255;
    near[30] = 255;
    let mut target = [0u8; 32];
    target[0] = 1;
    let keys = |raws: [[u8; 32]; 2]| raws.map(|raw| Key::from(NodeId { raw })).to_vec();
    let q = FindNodeQuery::with_config(config(3, 2), node(0).into(), keys([far, near]));
    assert_eq!(q.closest_peers()[0].key().hash, near);
    let q = FindNodeQuery::with_config(
        config(3, 2),
        NodeId { raw: target }.into(),
        keys([far, near]),
    );
    assert_eq!(q.closest_peers()[0].key().hash, far);
    assert_eq!(q.target().hash, target);
}

#[test]
fn of_equal_known_keys_the_last_is_kept() {
    let q = named_query(3, vec![Named("a", 5), Named("b", 2), Named("c", 5), Named("d", 1)]);
    assert_eq!(names(&q), vec!["b", "c"]);
}

#[test]
fn of_equal_reported_keys_the_first_is_kept() {
    let mut q = named_query(9, vec![Named("a", 5)]);
    assert_eq!(q.poll(at(0)), QueryState::Waiting(Some(Named("a", 5))));
    q.on_success(
        &Named("a", 5),
        vec![Named("x", 5), Named("y", 3), Named("z", 3)],
    );
    assert_eq!(names(&q), vec!["y", "a"]);
}

#[test]
fn a_peer_is_known_by_its_key() {
    let mut q = named_query(1, vec![Named("a", 5)]);
    assert_eq!(q.poll(at(0)), QueryState::Waiting(Some(Named("a", 5))));
    q.on_success(&Named("other name", 5), Vec::new());
    assert_eq!(q.into_result(), vec![Named("a", 5)]);
}

#[test]
fn start_is_noted() {
    let mut q = query(3, 3, &[1]);
    q.start(at(7));
    assert_eq!(q.started(), Some(at(7)));
    assert_eq!(*q.config(), config(3, 3));
}

#[test]
fn closest_peers_are_handed_out_up_to_the_parallelism() {
    let mut q = query(2, 4, &[8, 3, 6, 1]);
    ask(&mut q, 1);
    assert!(!q.at_capacity());
    ask(&mut q, 3);
    assert!(q.at_capacity());
    assert_eq!(q.poll(at(0)), QueryState::WaitingAtCapacity);
    assert_eq!(q.num_waiting(), 2);
    assert_eq!(
        states(&q),
        vec![
            QueryPeerState::Waiting(at(10)),
            QueryPeerState::Waiting(at(10)),
            QueryPeerState::NotContacted,
            QueryPeerState::NotContacted,
        ]
    );
}

#[test]
fn a_query_with_all_peers_asked_waits() {
    let mut q = query(3, 4, &[1]);
    ask(&mut q, 1);
    assert_eq!(q.poll(at(9)), QueryState::Waiting(None));
    assert_eq!(q.num_waiting(), 1);
}

#[test]
fn a_query_without_peers_finishes_at_once() {
    let mut q = query(3, 4, &[]);
    assert_eq!(q.poll(at(0)), QueryState::Finished);
    assert_eq!(q.progress(), QueryProgress::Finished);
    assert!(q.into_result().is_empty());
}

#[test]
fn a_query_for_no_results_has_none() {
    let mut q = query(3, 0, &[1, 2]);
    assert!(known(&q).is_empty());
    assert_eq!(q.poll(at(0)), QueryState::Finished);
}

#[test]
fn a_query_without_parallelism_asks_nobody() {
    let mut q = query(0, 2, &[1]);
    assert!(q.at_capacity());
    assert_eq!(q.poll(at(0)), QueryState::WaitingAtCapacity);
    assert_eq!(states(&q), vec![QueryPeerState::NotContacted]);
}

#[test]
fn enough_answers_of_the_closest_peers_finish_the_query() {
    let mut q = query(3, 2, &[1, 2]);
    ask(&mut q, 1);
    ask(&mut q, 2);
    q.on_success(&node(2), nodes(&[9]));
    q.on_success(&node(1), nodes(&[]));
    assert_eq!(q.poll(at(0)), QueryState::Finished);
    assert_eq!(known(&q), vec![1, 2, 9]);
    assert_eq!(states(&q)[2], QueryPeerState::NotContacted);
    assert_eq!(q.into_result(), nodes(&[1, 2]));
}

#[test]
fn a_pending_closer_peer_keeps_the_query_going() {
    let mut q = query(3, 2, &[1, 2]);
    ask(&mut q, 1);
    ask(&mut q, 2);
    q.on_success(&node(2), nodes(&[3]));
    ask(&mut q, 3);
    q.on_success(&node(3), nodes(&[]));
    assert_eq!(q.poll(at(0)), QueryState::Waiting(None));
    q.on_failure(&node(1));
    assert_eq!(q.poll(at(0)), QueryState::Finished);
    assert_eq!(q.into_result(), nodes(&[2, 3]));
}

#[test]
fn a_result_is_cut_to_the_number_asked_for() {
    let mut q = query(3, 2, &[4, 5]);
    ask(&mut q, 4);
    ask(&mut q, 5);
    q.on_success(&node(4), nodes(&[1]));
    q.on_success(&node(5), nodes(&[]));
    ask(&mut q, 1);
    q.on_success(&node(1), nodes(&[]));
    assert_eq!(q.poll(at(0)), QueryState::Finished);
    assert_eq!(q.into_result(), nodes(&[1, 4]));
}

#[test]
fn nothing_changes_a_finished_query() {
    let mut q = query(3, 2, &[1]);
    ask(&mut q, 1);
    assert_eq!(q.poll(at(10)), QueryState::Finished);
    assert_eq!(states(&q), vec![QueryPeerState::Unresponsive]);
    q.on_success(&node(1), nodes(&[2]));
    q.on_failure(&node(1));
    assert_eq!(q.poll(at(20)), QueryState::Finished);
    assert_eq!(known(&q), vec![1]);
    assert_eq!(states(&q), vec![QueryPeerState::Unresponsive]);
}

#[test]
fn time_is_up_at_the_deadline_and_not_before() {
    let mut q = query(3, 2, &[1, 2]);
    ask(&mut q, 1);
    assert_eq!(q.poll(at(9)), QueryState::Waiting(Some(node(2))));
    assert_eq!(states(&q)[0], QueryPeerState::Waiting(at(10)));
    assert_eq!(q.poll(at(10)), QueryState::Waiting(None));
    assert_eq!(
        states(&q),
        vec![
            QueryPeerState::Unresponsive,
            QueryPeerState::Waiting(at(19)),
        ]
    );
    assert_eq!(q.num_waiting(), 1);
}

#[test]
fn capacity_is_that_of_the_start_of_a_poll() {
    let mut q = query(1, 2, &[1, 2]);
    ask(&mut q, 1);
    assert_eq!(q.poll(at(10)), QueryState::WaitingAtCapacity);
    assert_eq!(q.num_waiting(), 0);
    assert_eq!(q.poll(at(10)), QueryState::Waiting(Some(node(2))));
}

#[test]
fn late_peers_may_answer_or_fail() {
    let mut q = query(3, 3, &[1, 2, 3]);
    ask(&mut q, 1);
    ask(&mut q, 2);
    ask(&mut q, 3);
    q.on_success(&node(3), nodes(&[4]));
    assert_eq!(q.poll(at(10)), QueryState::Waiting(Some(node(4))));
    assert_eq!(q.num_waiting(), 1);
    q.on_success(&node(1), nodes(&[]));
    q.on_failure(&node(2));
    assert_eq!(
        states(&q),
        vec![
            QueryPeerState::Succeeded,
            QueryPeerState::Failed,
            QueryPeerState::Succeeded,
            QueryPeerState::Waiting(at(20)),
        ]
    );
    assert_eq!(q.num_waiting(), 1);
}

#[test]
fn only_asked_peers_can_answer_or_fail() {
    let mut q = query(3, 3, &[1, 2]);
    q.on_success(&node(1), nodes(&[5]));
    q.on_failure(&node(2));
    q.on_success(&node(9), nodes(&[6]));
    q.on_failure(&node(9));
    assert_eq!(known(&q), vec![1, 2]);
    assert_eq!(states(&q), vec![QueryPeerState::NotContacted; 2]);
}

#[test]
fn an_answer_counts_once() {
    let mut q = query(3, 3, &[1, 2]);
    ask(&mut q, 1);
    q.on_success(&node(1), nodes(&[5, 6]));
    q.on_success(&node(1), nodes(&[7]));
    q.on_failure(&node(1));
    assert_eq!(known(&q), vec![1, 2, 5, 6]);
    assert_eq!(states(&q)[0], QueryPeerState::Succeeded);
    assert_eq!(q.closest_peers()[0].peers_returned, 2);
    assert_eq!(q.num_waiting(), 0);
}

#[test]
fn a_failure_counts_once() {
    let mut q = query(3, 3, &[1, 2]);
    ask(&mut q, 1);
    q.on_failure(&node(1));
    q.on_success(&node(1), nodes(&[7]));
    q.on_failure(&node(1));
    assert_eq!(known(&q), vec![1, 2]);
    assert_eq!(states(&q)[0], QueryPeerState::Failed);
    assert_eq!(q.num_waiting(), 0);
}

#[test]
fn a_closer_peer_anywhere_in_an_answer_is_progress() {
    let mut q = query(1, 1, &[4]);
    ask(&mut q, 4);
    q.on_success(&node(4), nodes(&[2, 9]));
    assert_eq!(q.progress(), QueryProgress::Iterating { no_progress: 0 });
    assert_eq!(known(&q), vec![2, 4, 9]);
}

#[test]
fn a_new_peer_is_progress_while_too_few_are_known() {
    let mut q = query(1, 2, &[4]);
    ask(&mut q, 4);
    q.on_success(&node(4), nodes(&[9, 4]));
    assert_eq!(q.progress(), QueryProgress::Iterating { no_progress: 0 });
}

#[test]
fn known_peers_are_no_progress() {
    let mut q = query(1, 5, &[3, 4]);
    ask(&mut q, 3);
    q.on_success(&node(3), nodes(&[3, 4]));
    assert_eq!(q.progress(), QueryProgress::Stalled);
}

#[test]
fn farther_peers_are_no_progress_once_enough_are_known() {
    let mut q = query(2, 2, &[3, 4]);
    ask(&mut q, 3);
    ask(&mut q, 4);
    q.on_success(&node(3), nodes(&[7]));
    assert_eq!(q.progress(), QueryProgress::Iterating { no_progress: 1 });
    q.on_success(&node(4), nodes(&[8]));
    assert_eq!(q.progress(), QueryProgress::Stalled);
}

#[test]
fn an_empty_answer_is_no_progress() {
    let mut q = query(1, 5, &[3]);
    ask(&mut q, 3);
    q.on_success(&node(3), nodes(&[]));
    assert_eq!(q.progress(), QueryProgress::Stalled);
}

#[test]
fn a_stalled_query_asks_up_to_the_number_of_results() {
    let mut q = query(1, 3, &[1, 2, 3]);
    ask(&mut q, 1);
    q.on_success(&node(1), nodes(&[5]));
    assert_eq!(q.progress(), QueryProgress::Stalled);
    ask(&mut q, 2);
    ask(&mut q, 3);
    assert!(!q.at_capacity());
    ask(&mut q, 5);
    assert!(q.at_capacity());
    assert_eq!(q.num_waiting(), 3);
}

#[test]
fn progress_sets_a_stalled_query_iterating() {
    let mut q = query(1, 2, &[3, 4]);
    ask(&mut q, 3);
    q.on_success(&node(3), nodes(&[]));
    assert_eq!(q.progress(), QueryProgress::Stalled);
    ask(&mut q, 4);
    q.on_success(&node(4), nodes(&[1]));
    assert_eq!(q.progress(), QueryProgress::Iterating { no_progress: 0 });
}

#[test]
fn progress_starts_the_count_afresh() {
    let mut q = query(2, 3, &[3, 4, 5]);
    ask(&mut q, 3);
    q.on_success(&node(3), nodes(&[]));
    assert_eq!(q.progress(), QueryProgress::Iterating { no_progress: 1 });
    ask(&mut q, 4);
    q.on_success(&node(4), nodes(&[2]));
    assert_eq!(q.progress(), QueryProgress::Iterating { no_progress: 0 });
}

#[test]
fn time_does_not_run_past_its_end() {
    let last = Instant { nanos: u128::MAX };
    assert_eq!(last.checked_add(Duration { nanos: 1 }), None);
    assert_eq!(
        Instant { nanos: 5 }.checked_add(Duration { nanos: 2 }),
        Some(Instant { nanos: 7 })
    );
    assert_eq!(Duration::from_secs(3).nanos, 3_000_000_000);
    assert!(at(3).is_due(at(3)));
    assert!(!at(4).is_due(at(3)));
}
