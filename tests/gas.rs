use shoalpp::gas_log::{
    CallFrame, Dependency, DependencyKind, EventStorage, EventTransient, ExecutionAndIOCosts, ExecutionGasEvent,
    FrameName, GasMismatch, StorageFees, TransactionGasLog, WriteOpType, WriteStorage, WriteTransient,
};

fn call_graph(costs: &[u64]) -> CallFrame {
    let mut inner = CallFrame::new_function("0x1::coin".to_string(), "transfer".to_string(), vec![]);
    inner.events.push(ExecutionGasEvent::Loc(3));
    inner.events.push(ExecutionGasEvent::Bytecode { op: 1, cost: costs[0] });
    let mut root = CallFrame::new_script();
    root.events.push(ExecutionGasEvent::Call(inner));
    root.events.push(ExecutionGasEvent::CreateTy { cost: costs[1] });
    root
}

fn exec_io(total: u64) -> ExecutionAndIOCosts {
    ExecutionAndIOCosts {
        gas_scaling_factor: 100,
        total,
        intrinsic_cost: 10,
        keyless_cost: 5,
        dependencies: vec![Dependency { kind: DependencyKind::Existing, id: "0x1::coin".to_string(), size: 10, cost: 15 }],
        call_graph: call_graph(&[40, 10]),
        transaction_transient: Some(5),
        events_transient: vec![EventTransient { ty: "E".to_string(), cost: 5 }],
        write_set_transient: vec![WriteTransient { key: vec![1], op_type: WriteOpType::Creation, cost: 10 }],
    }
}

fn storage(total: u64, refund: u64) -> StorageFees {
    StorageFees {
        total,
        total_refund: refund,
        write_set_storage: vec![WriteStorage { key: vec![1], op_type: WriteOpType::Modification, cost: 30, refund: 4 }],
        events: vec![EventStorage { ty: "E".to_string(), cost: 2 }],
        event_discount: 0,
        txn_storage: 8,
    }
}

#[test]
fn consistent_log_reconciles() {
    let log = TransactionGasLog { exec_io: exec_io(100), storage: storage(40, 4) };
    assert_eq!(log.check_consistency(), Ok(()));
    assert!(matches!(log.entry_point(), FrameName::Script));
}

#[test]
fn gas_mismatch_is_reported() {
    let costs = exec_io(101);
    assert_eq!(
        costs.check_consistency(),
        Err(GasMismatch::ExecutionAndIo { from_meter: 101, calculated: Some(100) })
    );
}

#[test]
fn leaf_costs_off_by_one() {
    let mut costs = exec_io(101);
    costs.intrinsic_cost = 0;
    costs.keyless_cost = 0;
    costs.dependencies = vec![];
    costs.transaction_transient = None;
    costs.events_transient = vec![];
    costs.write_set_transient = vec![];
    costs.call_graph = call_graph(&[60, 40]);
    assert_eq!(
        costs.check_consistency(),
        Err(GasMismatch::ExecutionAndIo { from_meter: 101, calculated: Some(100) })
    );
}

#[test]
fn storage_mismatches_are_reported() {
    assert_eq!(
        storage(41, 4).check_consistency(),
        Err(GasMismatch::StorageFees { from_meter: 41, calculated: Some(40) })
    );
    assert_eq!(
        storage(40, 5).check_consistency(),
        Err(GasMismatch::StorageRefunds { from_meter: 5, calculated: Some(4) })
    );
}

#[test]
fn overflowing_sum_is_a_mismatch() {
    let mut costs = exec_io(u64::MAX);
    costs.intrinsic_cost = u64::MAX;
    assert_eq!(
        costs.check_consistency(),
        Err(GasMismatch::ExecutionAndIo { from_meter: u64::MAX, calculated: None })
    );
}

#[test]
fn combined_logs_stay_consistent() {
    let a = TransactionGasLog { exec_io: exec_io(100), storage: storage(40, 4) };
    let b = TransactionGasLog { exec_io: exec_io(100), storage: storage(40, 4) };
    let c = a.combine(&b);
    assert_eq!(c.exec_io.total, 200);
    assert_eq!(c.exec_io.dependencies.len(), 1);
    assert_eq!(c.exec_io.dependencies[0].cost, 30);
    assert_eq!(c.exec_io.transaction_transient, Some(10));
    assert_eq!(c.exec_io.call_graph.events.len(), 4);
    assert_eq!(c.storage.total, 80);
    assert_eq!(c.check_consistency(), Ok(()));
}

#[test]
fn combine_nests_function_entry_points() {
    let mut a = exec_io(100);
    a.call_graph.name = FrameName::Function { module_id: "0x1::m".to_string(), name: "f".to_string(), ty_args: vec![] };
    let c = a.combine(&exec_io(100));
    assert!(matches!(c.call_graph.name, FrameName::Script));
    assert_eq!(c.call_graph.events.len(), 2);
    assert!(matches!(c.call_graph.events[0], ExecutionGasEvent::Call(_)));
    assert_eq!(c.check_consistency(), Ok(()));
}

#[test]
fn fold_merges_and_orders_events() {
    let mut callee = CallFrame::new_function("0x1::m".to_string(), "g".to_string(), vec![]);
    callee.events.push(ExecutionGasEvent::Bytecode { op: 2, cost: 7 });
    let mut callee2 = CallFrame::new_function("0x1::m".to_string(), "g".to_string(), vec![]);
    callee2.events.push(ExecutionGasEvent::Bytecode { op: 2, cost: 3 });
    let mut root = CallFrame::new_script();
    root.native_gas = 4;
    root.events.push(ExecutionGasEvent::Loc(1));
    root.events.push(ExecutionGasEvent::Bytecode { op: 1, cost: 5 });
    root.events.push(ExecutionGasEvent::Call(callee));
    root.events.push(ExecutionGasEvent::Bytecode { op: 1, cost: 6 });
    root.events.push(ExecutionGasEvent::Call(callee2));
    root.events.push(ExecutionGasEvent::CreateTy { cost: 20 });
    let folded = root.fold();
    assert_eq!(folded.native_gas, 4);
    assert!(matches!(folded.name, FrameName::Script));
    assert_eq!(folded.events.len(), 3);
    assert!(matches!(folded.events[0], ExecutionGasEvent::CreateTy { cost: 20 }));
    assert!(matches!(folded.events[1], ExecutionGasEvent::Bytecode { op: 1, cost: 11 }));
    match &folded.events[2] {
        ExecutionGasEvent::Call(frame) => {
            assert_eq!(frame.events.len(), 1);
            assert!(matches!(frame.events[0], ExecutionGasEvent::Bytecode { op: 2, cost: 10 }));
        },
        _ => panic!("expected the merged call"),
    }
}

#[test]
fn vec_concat_keeps_order() {
    assert_eq!(shoalpp::gas_log::vec_concat(vec![1, 2], vec![3]), vec![1, 2, 3]);
    assert_eq!(shoalpp::gas_log::vec_concat(Vec::<u8>::new(), vec![]), Vec::<u8>::new());
}
