//! End-to-end driver scenarios: proposing, ingesting, recovery, aborts.

use dag_consensus::dag_driver::{Action, DagDriver, DagDriverError, PayloadFilter};
use dag_consensus::dag_store::Dag;
use dag_consensus::types::{CertifiedNode, LedgerInfo, Node, NodeMetadata};
use dag_consensus::validator_verifier::Verifier;

fn verifier_of(stakes: Vec<u64>) -> Verifier {
    Verifier::new(stakes).unwrap()
}

fn ledger(round: u64) -> LedgerInfo {
    LedgerInfo { committed_anchor_round: round }
}

fn make_node(epoch: u64, round: u64, author: u64, payload: Vec<u64>, links: Vec<NodeMetadata>) -> Node {
    Node::new(epoch, round, author, 1_000 + round, payload, links)
}

fn certify(node: Node) -> CertifiedNode {
    CertifiedNode::new(node, vec![])
}

fn count_pulls(out: &[Action], round: u64) -> usize {
    out.iter()
        .filter(|a| matches!(a, Action::PullPayload { round: r, .. } if *r == round))
        .count()
}

fn saved_node(out: &[Action]) -> Option<&Node> {
    out.iter().find_map(|a| match a {
        Action::SavePendingNode { node } => Some(node),
        _ => None,
    })
}

/// No-conflict progress: four validators, empty DAG; after all four round-1
/// certificates are ingested the replica enters round 2 exactly once, and
/// the DAG holds four round-1 nodes.
#[test]
fn no_conflict_progress() {
    let epoch = 7;
    let mut out: Vec<Action> = Vec::new();
    let mut driver = DagDriver::new(
        0,
        epoch,
        verifier_of(vec![1, 1, 1, 1]),
        Dag::new(epoch),
        None,
        0,
        ledger(0),
        10,
        &mut out,
    );
    assert_eq!(driver.current_round, 0);
    assert_eq!(count_pulls(&out, 1), 1);

    // Genesis bootstrap: the round-1 proposal has no strong links yet, so
    // its payload filter is empty.
    match &out[0] {
        Action::PullPayload { filter: PayloadFilter::Empty, .. } => {}
        _ => panic!("round-1 pull must carry an empty filter"),
    }

    driver.on_payload_ready(1, vec![11], 2_000, ledger(0), &mut out);
    assert_eq!(driver.current_round, 1);
    let own = saved_node(&out).unwrap().duplicate();

    // The four certified round-1 nodes cross-ingest (own node included).
    for author in 0..4u64 {
        let node = if author == 0 {
            own.duplicate()
        } else {
            make_node(epoch, 1, author, vec![author], vec![])
        };
        let before = driver.current_round;
        driver.process(certify(node), 0, &mut out).unwrap();
        assert!(driver.current_round >= before);
    }
    assert_eq!(driver.dag.nodes.len(), 4);

    // Quorum of round 1 was reached, so exactly one pull for round 2 is out.
    assert_eq!(count_pulls(&out, 2), 1);
    driver.on_payload_ready(2, vec![], 3_000, ledger(0), &mut out);
    assert_eq!(driver.current_round, 2);
    assert_eq!(count_pulls(&out, 2), 1);
}

/// Crash mid-broadcast: restarting with the journalled pending node resumes
/// by re-broadcasting the identical node (same digest), with no new journal
/// write and no new payload pull.
#[test]
fn crash_mid_broadcast_resumes_same_digest() {
    let epoch = 3;
    let mut out: Vec<Action> = Vec::new();
    let mut driver = DagDriver::new(
        0,
        epoch,
        verifier_of(vec![1]),
        Dag::new(epoch),
        None,
        0,
        ledger(0),
        10,
        &mut out,
    );
    driver.on_payload_ready(1, vec![5, 5], 9_000, ledger(0), &mut out);
    let journalled = saved_node(&out).unwrap().duplicate();
    let digest_before = journalled.digest();

    // Crash before the outer phase completed; restart from the journal.
    let mut out2: Vec<Action> = Vec::new();
    let restarted = DagDriver::new(
        0,
        epoch,
        verifier_of(vec![1]),
        Dag::new(epoch),
        Some(journalled),
        0,
        ledger(0),
        10,
        &mut out2,
    );
    assert_eq!(restarted.current_round, 1);
    let mut broadcasts = 0;
    for a in &out2 {
        match a {
            Action::BroadcastNode { node, .. } => {
                broadcasts += 1;
                assert_eq!(node.digest(), digest_before);
            }
            Action::SavePendingNode { .. } => panic!("resume must not journal again"),
            Action::PullPayload { .. } => panic!("resume must not pull a payload"),
            _ => {}
        }
    }
    assert_eq!(broadcasts, 1);
}

/// Missing parents: a round-3 node whose round-2 parent is absent is
/// rejected with `MissingParents`, a fetch is enqueued, and the round
/// cursor and the DAG are unchanged.
#[test]
fn missing_parents_triggers_fetch() {
    let epoch = 1;
    let mut out: Vec<Action> = Vec::new();
    let mut driver = DagDriver::new(
        0,
        epoch,
        verifier_of(vec![1]),
        Dag::new(epoch),
        None,
        0,
        ledger(0),
        10,
        &mut out,
    );
    driver.on_payload_ready(1, vec![], 1_500, ledger(0), &mut out);
    let n1 = saved_node(&out).unwrap().duplicate();
    driver.process(certify(n1.duplicate()), 0, &mut out).unwrap();

    // A round-2 node exists somewhere but was never delivered here.
    let absent_n2 = make_node(epoch, 2, 0, vec![9], vec![n1.metadata()]);
    let n3 = make_node(epoch, 3, 0, vec![], vec![absent_n2.metadata()]);

    let round_before = driver.current_round;
    let nodes_before = driver.dag.nodes.len();
    let out_len_before = out.len();
    let res = driver.process(certify(n3), 0, &mut out);
    assert!(matches!(res, Err(DagDriverError::MissingParents)));
    assert_eq!(driver.current_round, round_before);
    assert_eq!(driver.dag.nodes.len(), nodes_before);
    assert_eq!(out.len(), out_len_before + 1);
    match &out[out_len_before] {
        Action::RequestFetch { node } => assert_eq!(node.node.round, 3),
        other => panic!("expected a fetch request, got {:?}", action_name(other)),
    }
}

fn action_name(a: &Action) -> &'static str {
    match a {
        Action::PullPayload { .. } => "PullPayload",
        Action::SavePendingNode { .. } => "SavePendingNode",
        Action::BroadcastNode { .. } => "BroadcastNode",
        Action::AbortBroadcast { .. } => "AbortBroadcast",
        Action::RequestFetch { .. } => "RequestFetch",
        Action::PrefetchPayload { .. } => "PrefetchPayload",
        Action::NotifyOrderRule { .. } => "NotifyOrderRule",
    }
}

/// Abort on round skip: a replica whose broadcast chain for an old round is
/// still in flight aborts it as soon as a later round's proposal spawns.
#[test]
fn abort_on_round_skip() {
    let epoch = 2;
    let mut out: Vec<Action> = Vec::new();
    let mut driver = DagDriver::new(
        0,
        epoch,
        verifier_of(vec![1]),
        Dag::new(epoch),
        None,
        0,
        ledger(0),
        10,
        &mut out,
    );

    // Advance normally to round 4: propose, self-certify, re-ingest.
    let mut rounds_seen = vec![driver.current_round];
    let mut prev_meta: Option<NodeMetadata> = None;
    for round in 1..=4u64 {
        driver.on_payload_ready(round, vec![round], 1_000 * round, ledger(0), &mut out);
        rounds_seen.push(driver.current_round);
        let own = saved_node(&out)
            .filter(|n| n.round == round)
            .map(|n| n.duplicate())
            .unwrap_or_else(|| {
                out.iter()
                    .rev()
                    .find_map(|a| match a {
                        Action::SavePendingNode { node } if node.round == round => {
                            Some(node.duplicate())
                        }
                        _ => None,
                    })
                    .unwrap()
            });
        prev_meta = Some(own.metadata());
        driver.process(certify(own), 0, &mut out).unwrap();
        rounds_seen.push(driver.current_round);
    }
    assert_eq!(driver.current_round, 4);
    assert_eq!(driver.rb_abort_handle.unwrap().round, 4);

    // A certified round-5 node arrives; the replica prepares round 6.
    let n5 = make_node(epoch, 5, 0, vec![55], vec![prev_meta.unwrap()]);
    driver.process(certify(n5), 0, &mut out).unwrap();
    assert_eq!(count_pulls(&out, 6), 1);

    let before = out.len();
    driver.on_payload_ready(6, vec![], 9_999, ledger(0), &mut out);
    rounds_seen.push(driver.current_round);
    assert_eq!(driver.current_round, 6);
    assert_eq!(driver.rb_abort_handle.unwrap().round, 6);

    // The journal write precedes the broadcast, and the superseded round-4
    // chain is aborted.
    let tail = &out[before..];
    let save_at = tail
        .iter()
        .position(|a| matches!(a, Action::SavePendingNode { node } if node.round == 6))
        .unwrap();
    let bcast_at = tail
        .iter()
        .position(|a| matches!(a, Action::BroadcastNode { node, .. } if node.round == 6))
        .unwrap();
    assert!(save_at < bcast_at);
    assert!(tail
        .iter()
        .any(|a| matches!(a, Action::AbortBroadcast { handle } if handle.round == 4)));

    // Round monotonicity across the whole run.
    for pair in rounds_seen.windows(2) {
        assert!(pair[0] <= pair[1]);
    }
}

/// Payload filter closure: with committed anchor round 10 and a window of
/// 4, the filter for a new proposal carries the payloads of every node
/// reachable from the strong links down to round 6 inclusive, and none
/// below.
#[test]
fn payload_filter_closure() {
    let epoch = 5;
    let verifier = verifier_of(vec![1]);
    let mut dag = Dag::new(epoch);
    let mut prev: Option<NodeMetadata> = None;
    for round in 1..=11u64 {
        let links = match prev {
            Some(m) => vec![m],
            None => vec![],
        };
        let node = make_node(epoch, round, 0, vec![round * 100], links);
        prev = Some(node.metadata());
        dag.add_node(certify(node), &verifier).unwrap();
    }

    let mut out: Vec<Action> = Vec::new();
    let driver = DagDriver::new(
        0,
        epoch,
        verifier,
        dag,
        None,
        10,
        ledger(10),
        4,
        &mut out,
    );
    assert_eq!(driver.current_round, 11);

    let filter = out
        .iter()
        .find_map(|a| match a {
            Action::PullPayload { round: 12, filter, .. } => Some(filter),
            _ => None,
        })
        .unwrap();
    match filter {
        PayloadFilter::Excluding(payloads) => {
            let expected: Vec<Vec<u64>> =
                (6..=11u64).rev().map(|round| vec![round * 100]).collect();
            assert_eq!(payloads, &expected);
        }
        PayloadFilter::Empty => panic!("filter must carry the reachable payloads"),
    }
}

/// Duplicate RPC: ingesting the same certified node twice returns the same
/// acknowledgment both times, notifies the order rule exactly once, and
/// does not mutate the DAG twice.
#[test]
fn duplicate_rpc_is_idempotent() {
    let epoch = 9;
    let mut out: Vec<Action> = Vec::new();
    let mut driver = DagDriver::new(
        0,
        epoch,
        verifier_of(vec![1, 1, 1, 1]),
        Dag::new(epoch),
        None,
        0,
        ledger(0),
        10,
        &mut out,
    );
    let node = make_node(epoch, 1, 2, vec![42], vec![]);
    let meta = node.metadata();

    let ack1 = driver.process(certify(node.duplicate()), 0, &mut out).unwrap();
    assert_eq!(ack1.epoch, epoch);
    let nodes_after_first = driver.dag.nodes.len();
    let out_after_first = out.len();

    let ack2 = driver.process(certify(node), 0, &mut out).unwrap();
    assert_eq!(ack2.epoch, epoch);
    assert_eq!(driver.dag.nodes.len(), nodes_after_first);
    assert_eq!(out.len(), out_after_first);

    let notifications = out
        .iter()
        .filter(|a| matches!(a, Action::NotifyOrderRule { metadata } if *metadata == meta))
        .count();
    assert_eq!(notifications, 1);
}

/// A node of the wrong epoch is rejected with a typed error: the state is
/// unchanged, the payload prefetch is the only emitted action, and the
/// order rule is not notified.
#[test]
fn wrong_epoch_node_is_rejected() {
    let epoch = 9;
    let mut out: Vec<Action> = Vec::new();
    let mut driver = DagDriver::new(
        0,
        epoch,
        verifier_of(vec![1, 1, 1, 1]),
        Dag::new(epoch),
        None,
        0,
        ledger(0),
        10,
        &mut out,
    );
    let stale = make_node(epoch - 1, 1, 2, vec![3], vec![]);
    let before = out.len();
    let res = driver.process(certify(stale), 0, &mut out);
    assert!(matches!(res, Err(DagDriverError::InvalidEpoch)));
    assert_eq!(driver.dag.nodes.len(), 0);
    assert_eq!(out.len(), before + 1);
    assert!(matches!(out[before], Action::PrefetchPayload { .. }));
}

/// A payload arriving for a superseded round is ignored.
#[test]
fn stale_payload_is_ignored() {
    let epoch = 4;
    let mut out: Vec<Action> = Vec::new();
    let mut driver = DagDriver::new(
        0,
        epoch,
        verifier_of(vec![1]),
        Dag::new(epoch),
        None,
        0,
        ledger(0),
        10,
        &mut out,
    );
    let before = out.len();
    driver.on_payload_ready(7, vec![1], 1_234, ledger(0), &mut out);
    assert_eq!(driver.current_round, 0);
    assert_eq!(out.len(), before);
    assert!(driver.rb_abort_handle.is_none());
}
