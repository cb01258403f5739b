use shoalpp::delayed_field::{
    apply_delta, deserialize_to_delayed_field_u128, materialize_deltas, serialize_from_delayed_field_u128,
    DecodeError, DeltaApplicationError, DeltaOp, DeltaUpdate, RESERVED_TAG, STORAGE_VERSION,
};
use shoalpp::executor::{
    apply_group_writes, build_output, decide, group_write_kind, BehaviorEffects, ExecutionDecision, ExecutionError,
    GroupWriteRequest, MockTransaction, QueryAnswer, ReadAnswer, WriteKind,
};
use shoalpp::resource_group::{uleb128_len, GroupSizeError, ResourceGroup, ResourceGroupSize};

#[test]
fn test_deserialize_delayed_field_tuple_invalid_data() {
    let invalid_data = vec![1, 2, 3];
    let result = deserialize_to_delayed_field_u128(&invalid_data);
    assert!(result.is_err(), "Expected deserialization to fail with too short data");
    let empty_data: Vec<u8> = vec![];
    let result = deserialize_to_delayed_field_u128(&empty_data);
    assert!(result.is_err(), "Expected deserialization to fail with empty data");
}

fn round_trip(tuple: (u128, u32)) {
    let serialized = serialize_from_delayed_field_u128(tuple.0, tuple.1);
    assert_eq!(serialized.len(), 20);
    let deserialized = deserialize_to_delayed_field_u128(&serialized).expect("Deserialization failed");
    assert_eq!(tuple, deserialized);
}

#[test]
fn delayed_field_round_trip_zero() {
    round_trip((0, 0));
}

#[test]
fn delayed_field_round_trip_small() {
    round_trip((1, 42));
}

#[test]
fn delayed_field_round_trip_maximum() {
    round_trip((u128::MAX, u32::MAX));
}

#[test]
fn delayed_field_round_trip_large() {
    round_trip((12345678, 87654321));
}

#[test]
fn delayed_field_bytes_are_little_endian() {
    let bytes = serialize_from_delayed_field_u128(0x0102, STORAGE_VERSION);
    assert_eq!(&bytes[0..3], &[0x02, 0x01, 0x00]);
    assert_eq!(&bytes[16..20], &[0xff, 0xff, 0xff, 0xff]);
    let mut long = bytes.clone();
    long.push(0);
    assert_eq!(deserialize_to_delayed_field_u128(&long), Err(DecodeError::Malformed));
}

#[test]
fn delta_add_overflow_is_reported() {
    let op = DeltaOp { update: DeltaUpdate::Plus(50), max_value: 100 };
    assert_eq!(apply_delta(60, &op), Err(DeltaApplicationError::Overflow));
    let out = materialize_deltas(&vec![(1, DeltaOp { update: DeltaUpdate::Plus(5), max_value: 100 }), (2, op)], &vec![10, 60]);
    assert_eq!(out.writes, vec![(1, 15)]);
    assert_eq!(out.error, Some((2, DeltaApplicationError::Overflow)));
}

#[test]
fn delta_sub_underflow_and_success() {
    assert_eq!(apply_delta(3, &DeltaOp { update: DeltaUpdate::Minus(4), max_value: 100 }), Err(DeltaApplicationError::Underflow));
    assert_eq!(apply_delta(3, &DeltaOp { update: DeltaUpdate::Minus(3), max_value: 100 }), Ok(0));
    assert_eq!(apply_delta(50, &DeltaOp { update: DeltaUpdate::Plus(50), max_value: 100 }), Ok(100));
}

#[test]
fn group_size_matches_serialized_length() {
    let mut group = ResourceGroup::new();
    assert_eq!(group.write(RESERVED_TAG, Some(vec![1; 20])), Ok(()));
    assert_eq!(group.write(7, Some(vec![2; 200])), Ok(()));
    assert_eq!(group.write(3, Some(vec![3; 5])), Ok(()));
    assert_eq!(group.write(7, None), Ok(()));
    assert_eq!(group.write(RESERVED_TAG, None), Ok(()));
    assert_eq!(group.write(3, Some(vec![4; 130])), Ok(()));
    let size = group.size();
    assert_eq!(size.num_tagged_resources, 2);
    let bytes = group.serialize();
    assert_eq!(size.get(), Some(bytes.len() as u64));
    assert_eq!(bytes.len(), 1 + (4 + 1 + 20) + (4 + 2 + 130));
}

#[test]
fn group_size_bookkeeping() {
    let mut size = ResourceGroupSize { num_tagged_resources: 0, all_tagged_resources_size: 0 };
    assert_eq!(size.decrement_size_for_remove_tag(1), Err(GroupSizeError::Underflow));
    assert_eq!(size.increment_size_for_add_tag(3), Ok(()));
    assert_eq!(size.all_tagged_resources_size, 8);
    assert_eq!(size.get(), Some(9));
    assert_eq!(size.decrement_size_for_remove_tag(3), Ok(()));
    assert_eq!(size, ResourceGroupSize { num_tagged_resources: 0, all_tagged_resources_size: 0 });
    assert_eq!(uleb128_len(127), 1);
    assert_eq!(uleb128_len(128), 2);
    assert_eq!(uleb128_len(u64::MAX), 10);
}

#[test]
fn execution_control_signals() {
    assert_eq!(decide(&MockTransaction::Write { num_behaviors: 3 }, 4, 0), ExecutionDecision::Execute { behavior: 1 });
    assert_eq!(decide(&MockTransaction::SkipRest(9), 0, 2), ExecutionDecision::SkipRest { gas: 9 });
    assert_eq!(decide(&MockTransaction::Abort, 0, 5), ExecutionDecision::Abort { txn_idx: 5 });
    assert_eq!(decide(&MockTransaction::InterruptRequested, 0, 5), ExecutionDecision::AwaitInterruptThenSkip);
}

#[test]
fn group_size_overflow_is_refused() {
    let mut size = ResourceGroupSize { num_tagged_resources: 1, all_tagged_resources_size: u64::MAX - 3 };
    assert_eq!(size.increment_size_for_add_tag(0), Err(GroupSizeError::Overflow));
    assert_eq!(size, ResourceGroupSize { num_tagged_resources: 1, all_tagged_resources_size: u64::MAX - 3 });
    assert_eq!(size.get(), Some(u64::MAX - 2));
    let full = ResourceGroupSize { num_tagged_resources: 1, all_tagged_resources_size: u64::MAX };
    assert_eq!(full.get(), None);
}

#[test]
fn group_write_decisions() {
    let size = ResourceGroupSize { num_tagged_resources: 2, all_tagged_resources_size: (4 + 1 + 5) + (4 + 1 + 3) };
    let existing = vec![Some(5), Some(3), None, None];
    let ops = vec![
        (RESERVED_TAG, Some(vec![7, 7])),
        (4, Some(vec![3])),
        (9, Some(vec![1, 2, 3])),
        (10, None),
    ];
    let (new_size, writes) = apply_group_writes(size, &existing, &ops).unwrap();
    assert_eq!(writes.len(), 3);
    assert_eq!(writes[0], (RESERVED_TAG, WriteKind::Modification, vec![7, 7]));
    assert_eq!(writes[1], (4, WriteKind::Deletion, vec![]));
    assert_eq!(writes[2], (9, WriteKind::Creation, vec![1, 2, 3]));
    assert_eq!(new_size, ResourceGroupSize { num_tagged_resources: 2, all_tagged_resources_size: (4 + 1 + 2) + (4 + 1 + 3) });
    assert_eq!(group_write_kind(&size, &new_size), WriteKind::Modification);
    let empty = ResourceGroupSize { num_tagged_resources: 0, all_tagged_resources_size: 0 };
    assert_eq!(apply_group_writes(empty, &vec![Some(1)], &vec![(5, None)]), Err(GroupSizeError::Underflow));
    assert_eq!(group_write_kind(&empty, &size), WriteKind::Creation);
    assert_eq!(group_write_kind(&size, &empty), WriteKind::Deletion);
}

#[test]
fn output_records_reads_and_group_writes() {
    let reads = vec![ReadAnswer::Value(Some(vec![1])), ReadAnswer::Value(None)];
    let groups = vec![GroupWriteRequest {
        key: 8,
        size: ResourceGroupSize { num_tagged_resources: 0, all_tagged_resources_size: 0 },
        existing: vec![None],
        ops: vec![(2, Some(vec![5, 5]))],
    }];
    let effects = BehaviorEffects {
        writes: vec![(3, Some(vec![1])), (4, None)],
        events: vec![vec![4, 4]],
        deltas: vec![(5, DeltaOp { update: DeltaUpdate::Plus(2), max_value: 10 })],
        gas: 3,
    };
    let queries = vec![QueryAnswer::Size(12), QueryAnswer::Metadata(None)];
    let out = build_output(&reads, &queries, &groups, &effects, false);
    assert_eq!(out.error, None);
    assert_eq!(out.read_results, vec![Some(vec![1]), None]);
    assert_eq!(out.query_results, queries);
    assert_eq!(out.events, vec![vec![4, 4]]);
    assert_eq!(out.writes, vec![(3, Some(vec![1])), (4, None)]);
    assert_eq!(out.deltas.len(), 1);
    assert_eq!(out.total_gas, 3);
    let with_fields = build_output(&reads, &queries, &groups, &effects, true);
    assert!(with_fields.deltas.is_empty());
    assert_eq!(out.group_writes.len(), 1);
    assert_eq!(out.group_writes[0].kind, WriteKind::Creation);
    assert_eq!(out.group_writes[0].size.num_tagged_resources, 1);
}

#[test]
fn failed_read_or_underflow_gives_error_output() {
    let effects = BehaviorEffects { writes: vec![], events: vec![], deltas: vec![], gas: 5 };
    let failed = build_output(&vec![ReadAnswer::Value(None), ReadAnswer::Failed], &vec![], &vec![], &effects, false);
    assert_eq!(failed.error, Some(ExecutionError::ReadFailed(1)));
    assert!(failed.read_results.is_empty());
    assert_eq!(failed.total_gas, 0);
    let groups = vec![GroupWriteRequest {
        key: 4,
        size: ResourceGroupSize { num_tagged_resources: 0, all_tagged_resources_size: 0 },
        existing: vec![Some(10)],
        ops: vec![(3, None)],
    }];
    let under = build_output(&vec![], &vec![], &groups, &effects, false);
    assert_eq!(under.error, Some(ExecutionError::GroupSize(4, GroupSizeError::Underflow)));
    let query = build_output(&vec![], &vec![QueryAnswer::Failed], &groups, &effects, false);
    assert_eq!(query.error, Some(ExecutionError::QueryFailed(0)));
    let bad_field = build_output(&vec![ReadAnswer::DelayedField(vec![1, 2], 9)], &vec![], &vec![], &effects, true);
    assert_eq!(bad_field.error, Some(ExecutionError::ReadFailed(0)));
    let tuple = serialize_from_delayed_field_u128(77, 3);
    let field = build_output(&vec![ReadAnswer::DelayedField(tuple, 500)], &vec![], &vec![], &effects, true);
    assert_eq!(field.error, None);
    assert_eq!(field.delayed_field_reads, vec![(77, 500)]);
}

#[test]
fn materialized_delta_writes_are_set_once() {
    let effects = BehaviorEffects { writes: vec![], events: vec![], deltas: vec![], gas: 1 };
    let mut out = build_output(&vec![], &vec![], &vec![], &effects, false);
    assert!(out.materialized_delta_writes.is_none());
    assert!(out.incorporate_materialized_delta_writes(vec![(1, 15)]));
    assert!(!out.incorporate_materialized_delta_writes(vec![(1, 99)]));
    assert_eq!(out.materialized_delta_writes, Some(vec![(1, 15)]));
}

#[test]
fn group_bytes_follow_serialized_key_order() {
    let mut group = ResourceGroup::new();
    assert_eq!(group.write(1, Some(vec![7])), Ok(()));
    assert_eq!(group.write(256, Some(vec![8])), Ok(()));
    assert_eq!(group.serialize(), vec![2, 0, 1, 0, 0, 1, 8, 1, 0, 0, 0, 1, 7]);
}

#[test]
fn delayed_field_write_keeps_id_and_sets_version() {
    let previous = serialize_from_delayed_field_u128(42, STORAGE_VERSION);
    let rewritten = shoalpp::delayed_field::rewrite_delayed_field(&previous, 7).unwrap();
    assert_eq!(deserialize_to_delayed_field_u128(&rewritten), Ok((42, 7)));
    assert!(shoalpp::delayed_field::rewrite_delayed_field(&[1, 2, 3], 7).is_err());
}
