use shoalpp::broadcast_sync::{bolt_receivers, no_sync_receivers};
use shoalpp::dag_driver::{DagDriver, DriverError, StartAction};
use shoalpp::dag_store::{CertifiedNode, DagError, DagStore, NodeMetadata};
use shoalpp::order_notifier::{apply_commit, parents_bits, ShoalppOrderNotifier};
use shoalpp::order_rule::linearize;
use shoalpp::types::HashValue;

fn meta(round: u64, author: usize, timestamp: u64) -> NodeMetadata {
    let mut bytes = [0u8; 32];
    bytes[0] = round as u8;
    bytes[1] = author as u8;
    NodeMetadata { epoch: 1, round, author, timestamp, digest: HashValue { bytes } }
}

fn node(round: u64, author: usize, parents: Vec<NodeMetadata>) -> CertifiedNode {
    CertifiedNode { metadata: meta(round, author, round * 100 + author as u64), parents, payload: vec![round * 10 + author as u64] }
}

#[test]
fn dag_round_advance_with_quorum() {
    let store = DagStore::new(vec![1; 4], 5, 1);
    let mut driver = DagDriver::new(0, 1, store, 5);
    assert_eq!(driver.start(None), StartAction::Idle);
    assert_eq!(driver.check_new_round(), Some(1));
    let first = driver.enter_new_round(1, 7, vec![]).unwrap();
    assert!(first.parents.is_empty());
    assert_eq!(driver.check_new_round(), None);
    assert_eq!(driver.add_node(node(1, 1, vec![])), Ok(None));
    assert_eq!(driver.add_node(node(1, 2, vec![])), Ok(None));
    assert_eq!(driver.add_node(node(1, 3, vec![])), Ok(Some(2)));
    let proposal = driver.enter_new_round(2, 5, vec![9]).unwrap();
    assert_eq!(proposal.round, 2);
    assert_eq!(proposal.parents.len(), 3);
    assert_eq!(proposal.timestamp, 104);
    assert_eq!(driver.current_round(), 2);
    assert_eq!(driver.in_flight_rounds(), vec![1, 2]);
}

#[test]
fn driver_round_never_falls() {
    let mut driver = DagDriver::new(0, 1, DagStore::new(vec![1; 4], 5, 1), 5);
    let first = driver.enter_new_round(1, 1000, vec![]).unwrap();
    assert_eq!(first.timestamp, 1000);
    assert!(first.parents.is_empty());
    assert!(driver.enter_new_round(1, 2000, vec![]).is_none());
    assert_eq!(driver.current_round(), 1);
    assert!(driver.enter_new_round(3, 2000, vec![]).is_none());
    assert_eq!(driver.current_round(), 3);
}

#[test]
fn driver_rejects_stale_and_missing_parents() {
    let mut driver = DagDriver::new(0, 1, DagStore::new(vec![1; 4], 5, 2), 5);
    assert_eq!(driver.add_node(node(1, 1, vec![])), Err(DriverError::StaleNode));
    assert_eq!(driver.add_node(node(3, 1, vec![meta(2, 0, 200)])), Err(DriverError::MissingParents));
    assert_eq!(driver.add_node(node(2, 9, vec![])), Err(DriverError::Store(DagError::UnknownAuthor)));
}

#[test]
fn store_refuses_duplicate_round_author() {
    let mut store = DagStore::new(vec![1; 4], 5, 1);
    assert_eq!(store.add_node(node(1, 0, vec![])), Ok(()));
    let mut twin = node(1, 0, vec![]);
    twin.metadata.digest = HashValue { bytes: [7u8; 32] };
    assert_eq!(store.add_node(twin), Err(DagError::Duplicate));
    assert_eq!(store.add_node(node(2, 0, vec![meta(2, 1, 0)])), Err(DagError::InvalidParents));
    assert_eq!(store.add_node(node(0, 0, vec![])), Err(DagError::Stale));
    assert!(store.has_node(&meta(1, 0, 100)));
}

#[test]
fn commit_prunes_below_window() {
    let mut store = DagStore::new(vec![1; 4], 2, 1);
    let mut parents: Vec<NodeMetadata> = vec![];
    for round in 1..=5u64 {
        let mut next = vec![];
        for author in 0..3usize {
            let n = node(round, author, parents.clone());
            next.push(n.metadata);
            assert_eq!(store.add_node(n), Ok(()));
        }
        parents = next;
    }
    assert_eq!(store.highest_strong_links_round(), 5);
    store.commit_callback(5);
    assert_eq!(store.lowest_round(), 4);
    assert!(store.get_strong_links_for_round(3).is_none());
    assert_eq!(store.get_strong_links_for_round(4).map(|v| v.len()), Some(3));
    assert!(!store.has_node(&meta(3, 0, 300)));
    assert!(store.has_node(&meta(4, 0, 400)));
}

#[test]
fn block_round_is_sum_of_committed_rounds() {
    let mut notifier = ShoalppOrderNotifier::new(0, 4);
    let b1 = notifier.create_block(0, &vec![node(2, 0, vec![])], vec![]);
    assert_eq!(b1.round, 2);
    let b2 = notifier.create_block(1, &vec![node(3, 1, vec![])], vec![]);
    assert_eq!(b2.round, 5);
    let b3 = notifier.create_block(2, &vec![node(2, 2, vec![meta(1, 0, 0), meta(1, 3, 0)])], vec![]);
    assert_eq!(b3.round, 7);
    assert_eq!(b3.parents_bitvec, vec![true, false, false, true]);
    let b4 = notifier.create_block(0, &vec![node(1, 3, vec![]), node(3, 0, vec![])], vec![]);
    assert_eq!(b4.round, 8);
    assert_eq!(b4.payload, vec![13, 30]);
    assert_eq!(b4.node_digests.len(), 2);
    let mut expected = vec![];
    for r in [3u64, 3, 2, 0] {
        expected.extend_from_slice(&r.to_le_bytes());
    }
    assert_eq!(b4.consensus_data_hash, expected);
}

#[test]
fn block_timestamp_follows_parent() {
    let mut notifier = ShoalppOrderNotifier::new(1000, 1);
    let b = notifier.create_block(0, &vec![node(1, 0, vec![])], vec![]);
    assert_eq!(b.timestamp_usecs, 1001);
    let c = notifier.create_block(0, &vec![node(2, 0, vec![])], vec![]);
    assert_eq!(c.timestamp_usecs, 1002);
    let late = CertifiedNode { metadata: meta(3, 0, 5000), parents: vec![], payload: vec![] };
    let d = notifier.create_block(0, &vec![late], vec![(2, 3)]);
    assert_eq!(d.failed_authors, vec![(2, 3)]);
    assert_eq!(d.timestamp_usecs, 5000);
}

#[test]
fn parent_bits_ignore_unknown_authors() {
    assert_eq!(parents_bits(&vec![meta(1, 5, 0), meta(1, 1, 0)], 3), vec![false, true, false]);
}

#[test]
fn staggered_broadcast_schedule() {
    assert_eq!(bolt_receivers(0), vec![0]);
    assert_eq!(bolt_receivers(1), vec![1]);
    assert_eq!(bolt_receivers(2), vec![2, 0]);
    assert_eq!(bolt_receivers(3), vec![0, 1]);
    assert_eq!(bolt_receivers(4), vec![1, 2]);
    assert_eq!(no_sync_receivers(), vec![0]);
}

#[test]
fn reachable_walks_parents_down_to_bound() {
    let mut store = DagStore::new(vec![1; 4], 10, 1);
    let r1: Vec<NodeMetadata> = (0..3usize).map(|a| meta(1, a, 0)).collect();
    for a in 0..3usize {
        store.add_node(CertifiedNode { metadata: r1[a], parents: vec![], payload: vec![] }).unwrap();
    }
    let r2 = meta(2, 0, 0);
    store.add_node(CertifiedNode { metadata: r2, parents: vec![r1[0], r1[1]], payload: vec![] }).unwrap();
    let r3 = meta(3, 1, 0);
    store.add_node(CertifiedNode { metadata: r3, parents: vec![r2], payload: vec![] }).unwrap();
    let all = store.reachable(&vec![r3], 1);
    assert_eq!(all, vec![4, 3, 0, 1]);
    let above = store.reachable(&vec![r3], 2);
    assert_eq!(above, vec![4, 3]);
    assert!(store.reachable(&vec![meta(9, 0, 0)], 1).is_empty());
}

#[test]
fn linearize_orders_uncommitted_history() {
    let mut store = DagStore::new(vec![1; 4], 10, 1);
    let r1: Vec<NodeMetadata> = (0..3usize).map(|a| meta(1, a, 0)).collect();
    for a in [2usize, 0, 1] {
        store.add_node(CertifiedNode { metadata: r1[a], parents: vec![], payload: vec![] }).unwrap();
    }
    let anchor = meta(2, 3, 0);
    store
        .add_node(CertifiedNode { metadata: anchor, parents: vec![r1[2], r1[0], r1[1]], payload: vec![] })
        .unwrap();
    let order = linearize(&store, &anchor, &vec![false, false, false, false]);
    assert_eq!(order, vec![1, 2, 0, 3]);
    let order = linearize(&store, &anchor, &vec![false, true, false, false]);
    assert_eq!(order, vec![2, 0, 3]);
}

#[test]
fn payload_filter_covers_causal_history() {
    let mut driver = DagDriver::new(0, 1, DagStore::new(vec![1; 4], 3, 1), 3);
    let r1: Vec<NodeMetadata> = (0..3usize).map(|a| meta(1, a, 0)).collect();
    for a in 0..3usize {
        let n = CertifiedNode { metadata: r1[a], parents: vec![], payload: vec![100 + a as u64] };
        driver.add_node(n).unwrap();
    }
    for a in 0..3usize {
        let n = CertifiedNode { metadata: meta(2, a, 0), parents: r1.clone(), payload: vec![200 + a as u64] };
        driver.add_node(n).unwrap();
    }
    let mut filter = driver.payload_filter(3, 0);
    filter.sort();
    assert_eq!(filter, vec![100, 101, 102, 200, 201, 202]);
    let mut recent = driver.payload_filter(3, 5);
    recent.sort();
    assert_eq!(recent, vec![200, 201, 202]);
    assert!(driver.payload_filter(1, 0).is_empty());
}

#[test]
fn driver_resumes_pending_round_and_decides_before_pull() {
    let mut driver = DagDriver::new(0, 1, DagStore::new(vec![1; 4], 5, 1), 5);
    for a in 0..3usize {
        driver.add_node(node(1, a, vec![])).unwrap();
    }
    assert_eq!(driver.start(Some(2)), StartAction::Resume(2));
    assert_eq!(driver.current_round(), 2);
    assert!(!driver.will_propose(2));
    assert!(!driver.will_propose(4));
    let mut fresh = DagDriver::new(0, 1, DagStore::new(vec![1; 4], 5, 1), 5);
    for a in 0..3usize {
        fresh.add_node(node(1, a, vec![])).unwrap();
    }
    assert_eq!(fresh.start(Some(5)), StartAction::Enter(2));
    assert!(fresh.will_propose(2));
}

#[test]
fn process_acknowledges_known_nodes() {
    let mut driver = DagDriver::new(0, 1, DagStore::new(vec![1; 4], 5, 1), 5);
    assert_eq!(driver.process(node(1, 0, vec![])), Ok(Some(1)));
    assert_eq!(driver.process(node(1, 0, vec![])), Ok(None));
    let mut twin = node(1, 0, vec![]);
    twin.metadata.digest = HashValue { bytes: [9u8; 32] };
    assert_eq!(driver.process(twin), Err(DriverError::Store(DagError::Duplicate)));
    assert_eq!(
        driver.process(node(2, 1, vec![meta(0, 0, 0)])),
        Err(DriverError::MissingParents)
    );
}

#[test]
fn in_flight_broadcasts_stay_within_window() {
    let mut driver = DagDriver::new(0, 1, DagStore::new(vec![1; 4], 2, 1), 2);
    assert!(driver.enter_new_round(1, 0, vec![]).is_some());
    assert_eq!(driver.in_flight_rounds(), vec![1]);
}

#[test]
fn commit_decision_prunes_each_instance() {
    let mut dags = vec![DagStore::new(vec![1; 4], 2, 1), DagStore::new(vec![1; 4], 2, 1)];
    for d in dags.iter_mut() {
        for round in 1..=4u64 {
            d.add_node(CertifiedNode { metadata: meta(round, 0, 0), parents: vec![], payload: vec![] }).ok();
        }
    }
    apply_commit(&mut dags, &vec![4, 1]);
    assert_eq!(dags[0].lowest_round(), 3);
    assert_eq!(dags[1].lowest_round(), 1);
}

#[test]
fn strong_links_weigh_stake() {
    let mut store = DagStore::new(vec![10, 1, 1, 1], 5, 1);
    for a in 1..4usize {
        store.add_node(node(1, a, vec![])).unwrap();
    }
    assert!(store.get_strong_links_for_round(1).is_none());
    assert_eq!(store.quorum_power(), 9);
    assert_eq!(store.stake_round(1), 3);
    store.add_node(node(1, 0, vec![])).unwrap();
    assert_eq!(store.get_strong_links_for_round(1).map(|l| l.len()), Some(4));
    assert_eq!(store.highest_strong_links_round(), 1);
}
