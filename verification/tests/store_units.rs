//! Unit tests for the data model, the validator verifier and the DAG store.

use dag_consensus::dag_driver::DagDriverError;
use dag_consensus::dag_store::Dag;
use dag_consensus::types::{CertifiedAck, CertifiedNode, CertifiedNodeMessage, LedgerInfo, Node, NodeMetadata};
use dag_consensus::validator_verifier::Verifier;

fn make_node(epoch: u64, round: u64, author: u64, payload: Vec<u64>, links: Vec<NodeMetadata>) -> Node {
    Node::new(epoch, round, author, 500 + round, payload, links)
}

fn certify(node: Node) -> CertifiedNode {
    CertifiedNode::new(node, vec![])
}

/// The digest is a function of the node body alone: equal bodies give equal
/// digests, and each field change changes it.
#[test]
fn digest_is_deterministic() {
    let a = make_node(1, 2, 3, vec![7, 8], vec![]);
    let b = a.duplicate();
    assert_eq!(a.digest(), b.digest());
    assert_eq!(a.metadata(), b.metadata());

    let different_payload = make_node(1, 2, 3, vec![7, 9], vec![]);
    assert_ne!(a.digest(), different_payload.digest());

    let different_round = make_node(1, 4, 3, vec![7, 8], vec![]);
    assert_ne!(a.digest(), different_round.digest());

    let linked = make_node(1, 3, 3, vec![7, 8], vec![a.metadata()]);
    assert_ne!(a.digest(), linked.digest());
}

/// Quorum needs strictly more than two thirds of the total stake.
#[test]
fn quorum_threshold_is_two_thirds() {
    let v = Verifier::new(vec![1, 1, 1, 1]).unwrap();
    assert_eq!(v.len(), 4);
    assert_eq!(v.total_stake, 4);
    assert!(!v.quorum_check(2)); // 3 * 2 = 6 is not > 8
    assert!(v.quorum_check(3)); // 3 * 3 = 9 > 8
    assert!(v.quorum_check(4));

    let weighted = Verifier::new(vec![5, 1, 1]).unwrap();
    assert!(weighted.quorum_check(5)); // 15 > 14
    assert!(!weighted.quorum_check(2));
    assert_eq!(weighted.stake_of(0), 5);
}

/// Building a verifier fails when the total stake overflows a word.
#[test]
fn verifier_rejects_stake_overflow() {
    assert!(Verifier::new(vec![u64::MAX, 1]).is_none());
    assert!(Verifier::new(vec![u64::MAX]).is_some());
}

/// Each insert failure is typed, and a failed insert leaves the store
/// unchanged.
#[test]
fn add_node_error_cases() {
    let verifier = Verifier::new(vec![1, 1, 1, 1]).unwrap();
    let mut dag = Dag::new(2);

    // Wrong epoch.
    let res = dag.add_node(certify(make_node(3, 1, 0, vec![], vec![])), &verifier);
    assert!(matches!(res, Err(DagDriverError::InvalidEpoch)));
    assert_eq!(dag.nodes.len(), 0);

    // Author outside the validator set.
    let res = dag.add_node(certify(make_node(2, 1, 9, vec![], vec![])), &verifier);
    assert!(matches!(res, Err(DagDriverError::InvalidEpoch)));

    // Absent strong-link parent.
    let ghost_parent = make_node(2, 1, 1, vec![1], vec![]);
    let orphan = make_node(2, 2, 0, vec![], vec![ghost_parent.metadata()]);
    let res = dag.add_node(certify(orphan), &verifier);
    assert!(matches!(res, Err(DagDriverError::UnknownParents)));
    assert_eq!(dag.nodes.len(), 0);

    // First insert succeeds; the same key again is a duplicate.
    dag.add_node(certify(make_node(2, 1, 0, vec![1], vec![])), &verifier).unwrap();
    let res = dag.add_node(certify(make_node(2, 1, 0, vec![2], vec![])), &verifier);
    assert!(matches!(res, Err(DagDriverError::DuplicateNode)));
    assert_eq!(dag.nodes.len(), 1);
}

/// Membership goes by the full metadata, digest included.
#[test]
fn membership_checks_digest() {
    let verifier = Verifier::new(vec![1]).unwrap();
    let mut dag = Dag::new(1);
    let node = make_node(1, 1, 0, vec![4], vec![]);
    let meta = node.metadata();
    dag.add_node(certify(node), &verifier).unwrap();

    assert!(dag.exists_meta(&meta));
    let forged = NodeMetadata { digest: meta.digest.wrapping_add(1), ..meta };
    assert!(!dag.exists_meta(&forged));
    assert!(dag.all_exists(&vec![meta]));
    assert!(!dag.all_exists(&vec![meta, forged]));
}

/// The highest round tracks inserts and starts at 0.
#[test]
fn highest_round_tracks_inserts() {
    let verifier = Verifier::new(vec![1, 1, 1]).unwrap();
    let mut dag = Dag::new(1);
    assert_eq!(dag.highest_round(), 0);
    dag.add_node(certify(make_node(1, 1, 0, vec![], vec![])), &verifier).unwrap();
    dag.add_node(certify(make_node(1, 1, 2, vec![], vec![])), &verifier).unwrap();
    assert_eq!(dag.highest_round(), 1);
}

/// Strong links appear only at quorum, listed in ascending author order
/// regardless of insertion order.
#[test]
fn strong_links_need_quorum_and_are_sorted() {
    let verifier = Verifier::new(vec![1, 1, 1, 1]).unwrap();
    let mut dag = Dag::new(1);
    dag.add_node(certify(make_node(1, 1, 3, vec![], vec![])), &verifier).unwrap();
    dag.add_node(certify(make_node(1, 1, 1, vec![], vec![])), &verifier).unwrap();
    assert!(dag.get_strong_links_for_round(1, &verifier).is_none());

    dag.add_node(certify(make_node(1, 1, 0, vec![], vec![])), &verifier).unwrap();
    let links = dag.get_strong_links_for_round(1, &verifier).unwrap();
    let authors: Vec<u64> = links.iter().map(|m| m.author).collect();
    assert_eq!(authors, vec![0, 1, 3]);

    // The genesis round can always form (possibly empty) strong links.
    assert_eq!(dag.get_strong_links_for_round(0, &verifier).unwrap(), vec![]);
}

/// Two stores with the same contents select identical strong links.
#[test]
fn strong_link_selection_is_deterministic() {
    let v1 = Verifier::new(vec![1, 1]).unwrap();
    let v2 = Verifier::new(vec![1, 1]).unwrap();
    let mut d1 = Dag::new(1);
    let mut d2 = Dag::new(1);
    for author in [1u64, 0u64] {
        let node = make_node(1, 1, author, vec![author], vec![]);
        d1.add_node(certify(node.duplicate()), &v1).unwrap();
        d2.add_node(certify(node), &v2).unwrap();
    }
    assert_eq!(
        d1.get_strong_links_for_round(1, &v1).unwrap(),
        d2.get_strong_links_for_round(1, &v2).unwrap()
    );
}

/// The backward walk lists nodes by round descending and author ascending,
/// each at most once, and stops at the lower bound.
#[test]
fn reachable_order_and_bound() {
    let verifier = Verifier::new(vec![1, 1]).unwrap();
    let mut dag = Dag::new(1);
    let r1a = make_node(1, 1, 0, vec![10], vec![]);
    let r1b = make_node(1, 1, 1, vec![11], vec![]);
    let round1 = vec![r1a.metadata(), r1b.metadata()];
    dag.add_node(certify(r1b), &verifier).unwrap();
    dag.add_node(certify(r1a), &verifier).unwrap();
    let r2a = make_node(1, 2, 0, vec![20], round1.clone());
    let r2b = make_node(1, 2, 1, vec![21], round1);
    let round2 = vec![r2a.metadata(), r2b.metadata()];
    dag.add_node(certify(r2a), &verifier).unwrap();
    dag.add_node(certify(r2b), &verifier).unwrap();

    let visited = dag.reachable(&round2, 2, 1, &verifier);
    let keys: Vec<(u64, u64)> = visited.iter().map(|m| (m.round, m.author)).collect();
    assert_eq!(keys, vec![(2, 0), (2, 1), (1, 0), (1, 1)]);

    let bounded = dag.reachable(&round2, 2, 2, &verifier);
    let keys: Vec<(u64, u64)> = bounded.iter().map(|m| (m.round, m.author)).collect();
    assert_eq!(keys, vec![(2, 0), (2, 1)]);

    let payloads = dag.payloads_for(&visited);
    assert_eq!(payloads, vec![vec![20], vec![21], vec![10], vec![11]]);
}

/// Small builders carry their fields through.
#[test]
fn builders_carry_fields() {
    assert_eq!(CertifiedAck::new(6).epoch, 6);
    let node = make_node(1, 1, 0, vec![], vec![]);
    let certified = certify(node);
    let msg = CertifiedNodeMessage::new(certified, LedgerInfo { committed_anchor_round: 4 });
    assert_eq!(msg.ledger_info.committed_anchor_round, 4);
    assert_eq!(msg.certified_node.node.round, 1);
}
