use shoalpp::cex::{
    CEXOrder, ClobPair, ConditionType, FundingSamplingEpoch, FundingSettlementEpoch, GoodTill, Operation,
    Order, OrderCateType, OrderState, Side, SubaccountId, TimeInForce, PERPS_SIZE,
};
use shoalpp::priority::{
    OrderedQueueKey, PriorityIndex, TransactionExecutable, TransactionPayload, TransactionTypePriority,
};
use shoalpp::timeline::{BucketError, MultiBucketTimelineIndex, TimelineIndex};
use shoalpp::transaction::{MempoolTransaction, TimelineState};
use shoalpp::ttl::TTLIndex;
use shoalpp::parking_lot::ParkingLotIndex;
use shoalpp::account_txns::AccountTransactions;
use shoalpp::types::{AccountAddress, HashValue, ReplayProtector};
use std::cmp::Ordering;

fn address(suffix: u8) -> AccountAddress {
    let mut bytes = [0u8; 32];
    bytes[31] = suffix;
    AccountAddress { bytes }
}

fn create_ordered_queue_key(
    transaction_type_priority: TransactionTypePriority,
    cex_timestamp: Option<u64>,
    gas_ranking_score: u64,
    insertion_time_offset: u64,
    address_suffix: u8,
) -> OrderedQueueKey {
    OrderedQueueKey {
        transaction_type_priority,
        cex_timestamp,
        gas_ranking_score,
        expiration_time: 3600 * 1_000_000,
        insertion_time: insertion_time_offset * 1_000_000,
        address: address(address_suffix),
        replay_protector: ReplayProtector::SequenceNumber(0),
        hash: HashValue { bytes: [0u8; 32] },
    }
}

fn sample_order(timestamp: u64) -> Order {
    Order {
        subaccount_id: SubaccountId { subaccount_id: [0u8; 20], number: 0 },
        nonce: 1,
        clob_pair: ClobPair::BtcUsdcSpot,
        side: Side::Buy,
        quantums: 1000,
        subticks: 100,
        order_basic_type: 0,
        good_till: GoodTill::Gtc,
        time_in_force: TimeInForce::Ioc,
        reduce_only: false,
        condition_type: ConditionType::Unspecified,
        trigger_subticks: 0,
        operation: Operation::Place,
        timestamp,
        target_nonce: 0,
        order_id: [0u8; 20],
        state: OrderState::Pending,
        remaining_quantums: 1000,
        fill_amount: 0,
        cate_type: OrderCateType::Regular,
        seq_num: 1,
    }
}

fn txn(payload: TransactionPayload, gas: u64, sender: u8, seq: u64) -> MempoolTransaction {
    MempoolTransaction {
        payload,
        sender: address(sender),
        replay_protector: ReplayProtector::SequenceNumber(seq),
        ranking_score: gas,
        expiration_time: 100,
        insertion_time: 10,
        committed_hash: HashValue { bytes: [sender; 32] },
        timeline_state: TimelineState::NotReady,
        park_time: None,
        was_parked: false,
    }
}

#[test]
fn test_transaction_type_priority_ordering() {
    let cex_key = create_ordered_queue_key(TransactionTypePriority::CEX, Some(1000), 100, 1000, 0x01);
    let platform_key = create_ordered_queue_key(TransactionTypePriority::Platform, None, 200, 900, 0x02);
    let contract_key = create_ordered_queue_key(TransactionTypePriority::Contract, None, 300, 800, 0x03);
    assert!(cex_key > platform_key);
    assert!(platform_key > contract_key);
    assert!(cex_key > contract_key);
}

#[test]
fn test_cex_timestamp_ordering() {
    let cex_early = create_ordered_queue_key(TransactionTypePriority::CEX, Some(500), 50, 2000, 0x01);
    let cex_late = create_ordered_queue_key(TransactionTypePriority::CEX, Some(1500), 150, 1000, 0x02);
    assert!(cex_early > cex_late);
}

#[test]
fn test_cex_timestamp_vs_no_timestamp() {
    let cex_with_timestamp = create_ordered_queue_key(TransactionTypePriority::CEX, Some(1000), 50, 2000, 0x01);
    let cex_without_timestamp = create_ordered_queue_key(TransactionTypePriority::CEX, None, 150, 1000, 0x02);
    assert!(cex_with_timestamp > cex_without_timestamp);
}

#[test]
fn test_same_type_gas_ordering() {
    let cex_high_gas = create_ordered_queue_key(TransactionTypePriority::CEX, Some(1000), 200, 2000, 0x01);
    let cex_low_gas = create_ordered_queue_key(TransactionTypePriority::CEX, Some(1000), 100, 1000, 0x02);
    assert!(cex_high_gas > cex_low_gas);
}

#[test]
fn test_priority_index_ordering() {
    let mut priority_index = PriorityIndex::new();
    let keys = vec![
        create_ordered_queue_key(TransactionTypePriority::Contract, None, 300, 1000, 0x01),
        create_ordered_queue_key(TransactionTypePriority::CEX, Some(500), 100, 3000, 0x02),
        create_ordered_queue_key(TransactionTypePriority::Platform, None, 250, 2000, 0x03),
        create_ordered_queue_key(TransactionTypePriority::CEX, Some(300), 50, 4000, 0x04),
        create_ordered_queue_key(TransactionTypePriority::Script, None, 400, 500, 0x05),
    ];
    for key in &keys {
        priority_index.insert_key(*key);
    }
    let ordered = priority_index.iter();
    assert_eq!(ordered.len(), 5);
    assert_eq!(ordered[0].transaction_type_priority, TransactionTypePriority::CEX);
    assert_eq!(ordered[0].cex_timestamp, Some(300));
    assert_eq!(ordered[1].transaction_type_priority, TransactionTypePriority::CEX);
    assert_eq!(ordered[1].cex_timestamp, Some(500));
    assert_eq!(ordered[2].transaction_type_priority, TransactionTypePriority::Platform);
    assert_eq!(ordered[3].transaction_type_priority, TransactionTypePriority::Contract);
    assert_eq!(ordered[4].transaction_type_priority, TransactionTypePriority::Script);
}

#[test]
fn test_transaction_type_priority_from_payload() {
    let cex_order = CEXOrder::new(sample_order(1000));
    let cex_payload = TransactionPayload::CEX(cex_order);
    assert_eq!(TransactionTypePriority::from_payload(&cex_payload), TransactionTypePriority::CEX);
    let script_payload = TransactionPayload::Script;
    assert_eq!(TransactionTypePriority::from_payload(&script_payload), TransactionTypePriority::Script);
}

#[test]
fn test_multiple_cex_transactions_complex_ordering() {
    let keys = vec![
        create_ordered_queue_key(TransactionTypePriority::CEX, Some(1000), 100, 5000, 0x01),
        create_ordered_queue_key(TransactionTypePriority::CEX, Some(500), 200, 4000, 0x02),
        create_ordered_queue_key(TransactionTypePriority::CEX, Some(1500), 50, 3000, 0x03),
        create_ordered_queue_key(TransactionTypePriority::CEX, None, 300, 2000, 0x04),
        create_ordered_queue_key(TransactionTypePriority::CEX, Some(500), 250, 1000, 0x05),
    ];
    let mut sorted_keys = keys.clone();
    sorted_keys.sort_by(|a, b| a.compare(b));
    sorted_keys.reverse();
    assert_eq!(sorted_keys[0].cex_timestamp, Some(500));
    assert_eq!(sorted_keys[0].gas_ranking_score, 250);
    assert_eq!(sorted_keys[1].cex_timestamp, Some(500));
    assert_eq!(sorted_keys[1].gas_ranking_score, 200);
    assert_eq!(sorted_keys[2].cex_timestamp, Some(1000));
    assert_eq!(sorted_keys[3].cex_timestamp, Some(1500));
    assert_eq!(sorted_keys[4].cex_timestamp, None);
}

#[test]
fn cex_beats_fee_in_priority_index() {
    let mut index = PriorityIndex::new();
    let platform = txn(TransactionPayload::EntryFunction { module_address: address(1) }, 1000, 2, 0);
    let contract = txn(TransactionPayload::EntryFunction { module_address: address(0x20) }, 10000, 3, 0);
    let cex = txn(TransactionPayload::CEX(CEXOrder::new(sample_order(500))), 50, 1, 0);
    assert!(index.insert(&contract));
    assert!(index.insert(&platform));
    assert!(index.insert(&cex));
    let order = index.iter();
    assert_eq!(order[0].transaction_type_priority, TransactionTypePriority::CEX);
    assert_eq!(order[1].transaction_type_priority, TransactionTypePriority::Platform);
    assert_eq!(order[2].transaction_type_priority, TransactionTypePriority::Contract);
    assert_eq!(order[2].gas_ranking_score, 10000);
}

#[test]
fn cex_timestamp_tie_falls_back_to_gas() {
    let mut index = PriorityIndex::new();
    let low = txn(TransactionPayload::CEX(CEXOrder::new(sample_order(500))), 100, 1, 0);
    let high = txn(TransactionPayload::CEX(CEXOrder::new(sample_order(500))), 200, 2, 0);
    assert!(index.insert(&low));
    assert!(index.insert(&high));
    let order = index.iter();
    assert_eq!(order[0].gas_ranking_score, 200);
    assert_eq!(order[1].gas_ranking_score, 100);
}

#[test]
fn priority_index_refuses_tie_and_removes() {
    let mut index = PriorityIndex::new();
    let t = txn(TransactionPayload::Script, 7, 1, 3);
    assert!(index.insert(&t));
    assert!(!index.insert(&t));
    assert_eq!(index.size(), 1);
    assert!(index.contains(&t));
    assert!(index.remove(&t));
    assert!(!index.contains(&t));
    assert_eq!(index.size(), 0);
}

#[test]
fn priority_order_is_total_and_reversible() {
    let a = create_ordered_queue_key(TransactionTypePriority::Contract, None, 10, 5, 1);
    let b = create_ordered_queue_key(TransactionTypePriority::Contract, None, 10, 5, 2);
    let c = create_ordered_queue_key(TransactionTypePriority::Contract, None, 10, 5, 3);
    assert_eq!(a.compare(&b), Ordering::Greater);
    assert_eq!(b.compare(&a), Ordering::Less);
    assert_eq!(b.compare(&c), Ordering::Greater);
    assert_eq!(a.compare(&c), Ordering::Greater);
    let mut higher_protector = a;
    higher_protector.replay_protector = ReplayProtector::SequenceNumber(5);
    assert_eq!(higher_protector.compare(&a), Ordering::Greater);
    let mut higher_digest = a;
    higher_digest.hash = HashValue { bytes: [1u8; 32] };
    assert_eq!(higher_digest.compare(&a), Ordering::Less);
    let mut later_expiry = a;
    later_expiry.expiration_time += 1;
    assert_eq!(a.compare(&later_expiry), Ordering::Equal);
}

#[test]
fn cex_outranks_high_gas_script() {
    let cex = create_ordered_queue_key(TransactionTypePriority::CEX, None, 0, 9999, 1);
    let script = create_ordered_queue_key(TransactionTypePriority::Others, None, u64::MAX, 0, 2);
    assert_eq!(cex.compare(&script), Ordering::Greater);
}

#[test]
fn payload_classes() {
    let special = TransactionPayload::V1 { executable: TransactionExecutable::EntryFunction { module_address: address(0x0f) } };
    let user = TransactionPayload::V1 { executable: TransactionExecutable::EntryFunction { module_address: address(0x10) } };
    let empty = TransactionPayload::V1 { executable: TransactionExecutable::Empty };
    assert_eq!(TransactionTypePriority::from_payload(&special), TransactionTypePriority::Platform);
    assert_eq!(TransactionTypePriority::from_payload(&user), TransactionTypePriority::Contract);
    assert_eq!(TransactionTypePriority::from_payload(&empty), TransactionTypePriority::Others);
    assert_eq!(TransactionTypePriority::from_payload(&TransactionPayload::Multisig), TransactionTypePriority::Others);
}

#[test]
fn timeline_ids_increase_and_reads_start_after_id() {
    let mut timeline = TimelineIndex::new();
    let mut a = txn(TransactionPayload::Script, 1, 1, 0);
    let mut b = txn(TransactionPayload::Script, 1, 2, 0);
    let mut c = txn(TransactionPayload::Script, 1, 3, 0);
    timeline.insert(&mut a, 10);
    timeline.insert(&mut b, 20);
    timeline.insert(&mut c, 30);
    assert_eq!(a.timeline_state, TimelineState::Ready(1));
    assert_eq!(b.timeline_state, TimelineState::Ready(2));
    assert_eq!(c.timeline_state, TimelineState::Ready(3));
    let after_one = timeline.read_timeline(1, 10, None);
    assert_eq!(after_one.len(), 2);
    assert_eq!(after_one[0].0, address(2));
    assert_eq!(after_one[1].0, address(3));
    assert_eq!(timeline.read_timeline(0, 1, None).len(), 1);
    assert_eq!(timeline.read_timeline(0, 10, Some(20)).len(), 1);
    assert_eq!(timeline.timeline_range(1, 2).len(), 1);
    timeline.remove(&b);
    assert_eq!(timeline.size(), 2);
    assert_eq!(timeline.read_timeline(1, 10, None)[0].0, address(3));
}

#[test]
fn multi_bucket_reads_high_buckets_first() {
    assert_eq!(MultiBucketTimelineIndex::new(vec![]).err(), Some(BucketError::Empty));
    assert_eq!(MultiBucketTimelineIndex::new(vec![5]).err(), Some(BucketError::FirstNotZero));
    assert_eq!(MultiBucketTimelineIndex::new(vec![0, 10, 10]).err(), Some(BucketError::NotIncreasing));
    let mut index = MultiBucketTimelineIndex::new(vec![0, 100, 1000]).unwrap();
    let mut low = txn(TransactionPayload::Script, 5, 1, 0);
    let mut mid = txn(TransactionPayload::Script, 150, 2, 0);
    let mut high = txn(TransactionPayload::Script, 5000, 3, 0);
    index.insert(&mut low, 1);
    index.insert(&mut mid, 2);
    index.insert(&mut high, 3);
    assert_eq!(index.get_bucket(150), 100);
    assert_eq!(index.get_bucket(99), 0);
    assert_eq!(index.size(), 3);
    let read = index.read_timeline(&vec![0, 0, 0], 2, None);
    assert_eq!(read.len(), 3);
    assert_eq!(read[2].len(), 1);
    assert_eq!(read[1].len(), 1);
    assert_eq!(read[0].len(), 0);
    let range = index.timeline_range(&vec![(0, 0, 5), (1, 0, 5), (2, 0, 5)]);
    assert_eq!(range.len(), 3);
    assert_eq!(index.get_sizes(), vec![(0, 1), (100, 1), (1000, 1)]);
}

#[test]
fn ttl_gc_keeps_boundary() {
    let mut index = TTLIndex::new();
    let mut a = txn(TransactionPayload::Script, 1, 1, 0);
    a.expiration_time = 98;
    let mut b = txn(TransactionPayload::Script, 1, 2, 0);
    b.expiration_time = 99;
    let mut c = txn(TransactionPayload::Script, 1, 3, 0);
    c.expiration_time = 100;
    index.insert(&c);
    index.insert(&a);
    index.insert(&b);
    index.insert(&b);
    assert_eq!(index.size(), 3);
    let expired = index.gc(100);
    assert_eq!(expired.len(), 1);
    assert_eq!(expired[0].expiration_time, 98);
    assert_eq!(index.size(), 2);
    index.remove(&c);
    assert_eq!(index.size(), 1);
}

#[test]
fn parking_lot_parks_sequence_numbers_only() {
    let mut lot = ParkingLotIndex::new();
    let mut a1 = txn(TransactionPayload::Script, 1, 1, 5);
    let mut a2 = txn(TransactionPayload::Script, 1, 1, 7);
    let mut orderless = txn(TransactionPayload::Script, 1, 2, 0);
    orderless.replay_protector = ReplayProtector::Nonce(9);
    lot.insert(&mut a1, 42);
    lot.insert(&mut a2, 43);
    lot.insert(&mut orderless, 44);
    assert_eq!(a1.park_time, Some(42));
    assert!(a1.was_parked);
    assert!(!orderless.was_parked);
    assert_eq!(lot.size(), 2);
    assert!(lot.contains(&address(1), ReplayProtector::SequenceNumber(7), a2.committed_hash));
    assert!(!lot.contains(&address(2), ReplayProtector::Nonce(9), orderless.committed_hash));
    let popped = lot.get_poppable().unwrap();
    assert_eq!(popped.replay_protector, ReplayProtector::SequenceNumber(7));
    assert_eq!(lot.get_addresses(), vec![(address(1), 2)]);
    assert_eq!(lot.poppable_at(0).unwrap().replay_protector, ReplayProtector::SequenceNumber(7));
    assert!(lot.poppable_at(1).is_none());
    lot.remove(&a1);
    lot.remove(&a2);
    assert_eq!(lot.size(), 0);
    assert!(lot.get_poppable().is_none());
}

#[test]
fn account_transactions_split_and_append() {
    let mut account = AccountTransactions::new();
    for seq in [3u64, 1, 2] {
        account.insert(txn(TransactionPayload::Script, 1, 1, seq));
    }
    let mut orderless = txn(TransactionPayload::Script, 1, 1, 0);
    orderless.replay_protector = ReplayProtector::Nonce(77);
    account.insert(orderless);
    assert_eq!(account.len(), 4);
    assert_eq!(account.orderless_txns_len(), 1);
    assert!(account.get(&ReplayProtector::SequenceNumber(2)).is_some());
    let mut high = account.seq_num_split_off(2);
    assert_eq!(account.seq_num_txns_len(), 1);
    assert_eq!(account.orderless_txns_len(), 0);
    assert_eq!(high.seq_num_txns_len(), 2);
    assert_eq!(high.orderless_txns_len(), 1);
    let values = high.values();
    assert_eq!(values[0].replay_protector, ReplayProtector::Nonce(77));
    assert_eq!(values[1].replay_protector, ReplayProtector::SequenceNumber(2));
    account.append(&mut high);
    assert_eq!(high.len(), 0);
    assert_eq!(account.len(), 4);
    assert!(account.remove(&ReplayProtector::SequenceNumber(1)).is_some());
    assert!(account.remove(&ReplayProtector::SequenceNumber(1)).is_none());
    account.clear();
    assert_eq!(account.len(), 0);
}

#[test]
fn funding_epochs() {
    let sampling = FundingSamplingEpoch::new(5, 6);
    assert_eq!(sampling.rate.len(), PERPS_SIZE);
    assert!(sampling.rate.iter().all(|r| *r == 0));
    assert!(FundingSamplingEpoch::with_rate(1, 2, vec![1; PERPS_SIZE]).is_ok());
    assert_eq!(
        FundingSamplingEpoch::with_rate(1, 2, vec![1; 3]).err(),
        Some("Rate vector must have exactly 256 elements".to_string())
    );
    let settlement = FundingSettlementEpoch::with_rate(7, 8, vec![2; PERPS_SIZE]).unwrap();
    assert_eq!(settlement.block_height, 8);
    assert!(FundingSettlementEpoch::with_rate(7, 8, vec![]).is_err());
    assert_eq!(FundingSettlementEpoch::new(1, 1).rate.len(), PERPS_SIZE);
}

#[test]
fn parking_lot_evicts_some_sender_highest_entry() {
    let mut lot = ParkingLotIndex::new();
    for (sender, seq) in [(1u8, 3u64), (1, 9), (2, 4), (3, 6), (3, 2)] {
        let mut t = txn(TransactionPayload::Script, 1, sender, seq);
        lot.insert(&mut t, 0);
    }
    assert_eq!(lot.size(), 5);
    for _ in 0..20 {
        let p = lot.get_poppable().unwrap();
        let expected = match p.sender.bytes[31] {
            1 => 9,
            2 => 4,
            3 => 6,
            _ => panic!("unknown sender"),
        };
        assert_eq!(p.replay_protector, ReplayProtector::SequenceNumber(expected));
    }
    let mut gone = txn(TransactionPayload::Script, 1, 2, 4);
    lot.remove(&gone);
    lot.insert(&mut gone, 0);
    assert_eq!(lot.size(), 5);
    assert_eq!(lot.get_addresses().len(), 3);
}
