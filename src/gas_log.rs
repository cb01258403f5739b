//! The gas profiler's log: a call tree of gas events plus the IO and
//! storage charges, and the reconciliation of their sums with the totals
//! the gas meter reports.

use vstd::prelude::*;
use crate::types::AccountAddress;

verus! {

/// Whether a module a transaction depends on was published by it.
#[derive(Clone, Copy, Debug, Eq, PartialEq)]
pub enum DependencyKind {
    New,
    Existing,
}

/// A gas event recorded while a function runs, with its internal-gas cost.
#[derive(Debug)]
pub enum ExecutionGasEvent {
    /// The program counter moved to this offset.
    Loc(u16),
    Bytecode { op: u8, cost: u64 },
    Call(CallFrame),
    CallNative { module_id: String, fn_name: String, ty_args: Vec<String>, cost: u64 },
    LoadResource { addr: AccountAddress, ty: String, cost: u64 },
    CreateTy { cost: u64 },
}

/// The name of a call frame: a script or a function.
#[derive(Debug)]
pub enum FrameName {
    Script,
    Function { module_id: String, name: String, ty_args: Vec<String> },
}

/// A function call with the gas events that happened during it.
#[derive(Debug)]
pub struct CallFrame {
    pub name: FrameName,
    pub events: Vec<ExecutionGasEvent>,
    /// Gas charged by native functions; 0 for other frames.
    pub native_gas: u64,
}

/// What a storage write did.
#[derive(Clone, Copy, Debug, Eq, PartialEq)]
pub enum WriteOpType {
    Creation,
    Modification,
    Deletion,
}

/// The IO cost of one write.
#[derive(Debug)]
pub struct WriteTransient {
    pub key: Vec<u8>,
    pub op_type: WriteOpType,
    pub cost: u64,
}

/// The storage fee and refund of one write.
#[derive(Debug)]
pub struct WriteStorage {
    pub key: Vec<u8>,
    pub op_type: WriteOpType,
    pub cost: u64,
    pub refund: u64,
}

/// The IO cost of one event.
#[derive(Debug)]
pub struct EventTransient {
    pub ty: String,
    pub cost: u64,
}

/// The storage fee of one event.
#[derive(Debug)]
pub struct EventStorage {
    pub ty: String,
    pub cost: u64,
}

/// The cost of loading one module dependency.
#[derive(Debug)]
pub struct Dependency {
    pub kind: DependencyKind,
    pub id: String,
    pub size: u64,
    pub cost: u64,
}

/// Execution and IO costs, with the total the meter reported.
#[derive(Debug)]
pub struct ExecutionAndIOCosts {
    pub gas_scaling_factor: u64,
    pub total: u64,
    pub intrinsic_cost: u64,
    pub keyless_cost: u64,
    pub dependencies: Vec<Dependency>,
    pub call_graph: CallFrame,
    pub transaction_transient: Option<u64>,
    pub events_transient: Vec<EventTransient>,
    pub write_set_transient: Vec<WriteTransient>,
}

/// Storage fees and refunds, with the totals the meter reported.
#[derive(Debug)]
pub struct StorageFees {
    pub total: u64,
    pub total_refund: u64,
    pub write_set_storage: Vec<WriteStorage>,
    pub events: Vec<EventStorage>,
    pub event_discount: u64,
    pub txn_storage: u64,
}

/// Everything the profiler records about one transaction.
#[derive(Debug)]
pub struct TransactionGasLog {
    pub exec_io: ExecutionAndIOCosts,
    pub storage: StorageFees,
}

/// Which reconciliation failed, with the meter's figure and the profiler's
/// (`None` when the profiler's sum does not fit in 64 bits).
#[derive(Clone, Copy, Debug, Eq, PartialEq)]
pub enum GasMismatch {
    ExecutionAndIo { from_meter: u64, calculated: Option<u64> },
    StorageFees { from_meter: u64, calculated: Option<u64> },
    StorageRefunds { from_meter: u64, calculated: Option<u64> },
}

/// Sum of the costs of the leaf events of a call tree (calls and location
/// markers cost nothing themselves).
pub open spec fn events_cost(es: Seq<ExecutionGasEvent>) -> int
    decreases es,
{
    if es.len() == 0 {
        0
    } else {
        events_cost(es.drop_last()) + event_cost(es.last())
    }
}

pub open spec fn event_cost(e: ExecutionGasEvent) -> int
    decreases e,
{
    match e {
        ExecutionGasEvent::Loc(_) => 0,
        ExecutionGasEvent::Bytecode { cost, .. } => cost as int,
        ExecutionGasEvent::Call(f) => events_cost(f.events@),
        ExecutionGasEvent::CallNative { cost, .. } => cost as int,
        ExecutionGasEvent::LoadResource { cost, .. } => cost as int,
        ExecutionGasEvent::CreateTy { cost } => cost as int,
    }
}

pub open spec fn sum_u64(s: Seq<u64>) -> int
    decreases s.len(),
{
    if s.len() == 0 {
        0
    } else {
        sum_u64(s.drop_last()) + s.last()
    }
}

pub open spec fn dependency_costs(s: Seq<Dependency>) -> Seq<u64> {
    Seq::new(s.len(), |i: int| s[i].cost)
}

pub open spec fn event_transient_costs(s: Seq<EventTransient>) -> Seq<u64> {
    Seq::new(s.len(), |i: int| s[i].cost)
}

pub open spec fn write_transient_costs(s: Seq<WriteTransient>) -> Seq<u64> {
    Seq::new(s.len(), |i: int| s[i].cost)
}

pub open spec fn write_storage_costs(s: Seq<WriteStorage>) -> Seq<u64> {
    Seq::new(s.len(), |i: int| s[i].cost)
}

pub open spec fn write_storage_refunds(s: Seq<WriteStorage>) -> Seq<u64> {
    Seq::new(s.len(), |i: int| s[i].refund)
}

pub open spec fn event_storage_costs(s: Seq<EventStorage>) -> Seq<u64> {
    Seq::new(s.len(), |i: int| s[i].cost)
}

impl ExecutionAndIOCosts {
    /// What the profiler's records add up to.
    pub open spec fn calculated_total(&self) -> int {
        self.intrinsic_cost + self.keyless_cost + sum_u64(dependency_costs(self.dependencies@))
            + events_cost(self.call_graph.events@) + match self.transaction_transient {
            Some(c) => c as int,
            None => 0,
        } + sum_u64(event_transient_costs(self.events_transient@)) + sum_u64(
            write_transient_costs(self.write_set_transient@),
        )
    }

    pub open spec fn is_consistent(&self) -> bool {
        self.calculated_total() == self.total
    }
}

impl StorageFees {
    pub open spec fn calculated_total(&self) -> int {
        sum_u64(write_storage_costs(self.write_set_storage@)) + sum_u64(
            event_storage_costs(self.events@),
        ) + self.txn_storage
    }

    pub open spec fn calculated_refund(&self) -> int {
        sum_u64(write_storage_refunds(self.write_set_storage@))
    }

    pub open spec fn is_consistent(&self) -> bool {
        self.calculated_total() == self.total && self.calculated_refund() == self.total_refund
    }
}

pub proof fn lemma_events_cost_nonneg(es: Seq<ExecutionGasEvent>)
    ensures
        events_cost(es) >= 0,
    decreases es,
{
    if es.len() > 0 {
        lemma_events_cost_nonneg(es.drop_last());
        lemma_event_cost_nonneg(es.last());
    }
}

pub proof fn lemma_event_cost_nonneg(e: ExecutionGasEvent)
    ensures
        event_cost(e) >= 0,
    decreases e,
{
    if let ExecutionGasEvent::Call(f) = e {
        lemma_events_cost_nonneg(f.events@);
    }
}

/// `a + b`, or `None` when it does not fit.
fn add_checked(a: Option<u64>, b: u64) -> (r: Option<u64>)
    ensures
        a is Some && a->0 + b <= u64::MAX ==> r == Some((a->0 + b) as u64),
        !(a is Some && a->0 + b <= u64::MAX) ==> r is None,
{
    match a {
        Some(x) => x.checked_add(b),
        None => None,
    }
}

/// The summed costs of the leaf events, when the sum fits.
pub fn events_total(es: &Vec<ExecutionGasEvent>) -> (r: Option<u64>)
    ensures
        r is Some <==> events_cost(es@) <= u64::MAX,
        r is Some ==> r->0 == events_cost(es@),
    decreases es@,
{
    let mut total: Option<u64> = Some(0);
    let mut i: usize = 0;
    while i < es.len()
        invariant
            i <= es@.len(),
            total is Some <==> events_cost(es@.take(i as int)) <= u64::MAX,
            total is Some ==> total->0 == events_cost(es@.take(i as int)),
        decreases es@.len() - i,
    {
        proof {
            lemma_events_cost_nonneg(es@.take(i as int));
            lemma_event_cost_nonneg(es@[i as int]);
        }
        assert(es@.take(i as int + 1).drop_last() =~= es@.take(i as int));
        assert(es@.take(i as int + 1).last() == es@[i as int]);
        let c = match &es[i] {
            ExecutionGasEvent::Loc(_) => Some(0u64),
            ExecutionGasEvent::Bytecode { cost, .. } => Some(*cost),
            ExecutionGasEvent::Call(f) => {
                proof {
                    assert(decreases_to!(es@ => es@[i as int]));
                }
                events_total(&f.events)
            },
            ExecutionGasEvent::CallNative { cost, .. } => Some(*cost),
            ExecutionGasEvent::LoadResource { cost, .. } => Some(*cost),
            ExecutionGasEvent::CreateTy { cost } => Some(*cost),
        };
        total = match c {
            Some(x) => add_checked(total, x),
            None => None,
        };
        i += 1;
    }
    assert(es@.take(i as int) =~= es@);
    total
}

} // verus!

verus! {

pub proof fn lemma_sum_u64_nonneg(s: Seq<u64>)
    ensures
        sum_u64(s) >= 0,
    decreases s.len(),
{
    if s.len() > 0 {
        lemma_sum_u64_nonneg(s.drop_last());
    }
}

/// The sum of `s`, when it fits.
pub fn checked_sum(s: &Vec<u64>) -> (r: Option<u64>)
    ensures
        r is Some <==> sum_u64(s@) <= u64::MAX,
        r is Some ==> r->0 == sum_u64(s@),
{
    let mut total: Option<u64> = Some(0);
    let mut i: usize = 0;
    while i < s.len()
        invariant
            i <= s@.len(),
            total is Some <==> sum_u64(s@.take(i as int)) <= u64::MAX,
            total is Some ==> total->0 == sum_u64(s@.take(i as int)),
        decreases s@.len() - i,
    {
        assert(s@.take(i as int + 1).drop_last() =~= s@.take(i as int));
        proof {
            lemma_sum_u64_nonneg(s@.take(i as int));
        }
        total = add_checked(total, s[i]);
        i += 1;
    }
    assert(s@.take(i as int) =~= s@);
    total
}

fn dependency_cost_list(v: &Vec<Dependency>) -> (r: Vec<u64>)
    ensures
        r@ == dependency_costs(v@),
{
    let mut out: Vec<u64> = Vec::new();
    let mut i: usize = 0;
    while i < v.len()
        invariant
            i <= v@.len(),
            out@ == dependency_costs(v@.take(i as int)),
        decreases v@.len() - i,
    {
        out.push(v[i].cost);
        assert(out@ =~= dependency_costs(v@.take(i as int + 1)));
        i += 1;
    }
    assert(v@.take(i as int) =~= v@);
    out
}

fn event_transient_cost_list(v: &Vec<EventTransient>) -> (r: Vec<u64>)
    ensures
        r@ == event_transient_costs(v@),
{
    let mut out: Vec<u64> = Vec::new();
    let mut i: usize = 0;
    while i < v.len()
        invariant
            i <= v@.len(),
            out@ == event_transient_costs(v@.take(i as int)),
        decreases v@.len() - i,
    {
        out.push(v[i].cost);
        assert(out@ =~= event_transient_costs(v@.take(i as int + 1)));
        i += 1;
    }
    assert(v@.take(i as int) =~= v@);
    out
}

fn write_transient_cost_list(v: &Vec<WriteTransient>) -> (r: Vec<u64>)
    ensures
        r@ == write_transient_costs(v@),
{
    let mut out: Vec<u64> = Vec::new();
    let mut i: usize = 0;
    while i < v.len()
        invariant
            i <= v@.len(),
            out@ == write_transient_costs(v@.take(i as int)),
        decreases v@.len() - i,
    {
        out.push(v[i].cost);
        assert(out@ =~= write_transient_costs(v@.take(i as int + 1)));
        i += 1;
    }
    assert(v@.take(i as int) =~= v@);
    out
}

fn write_storage_cost_list(v: &Vec<WriteStorage>) -> (r: (Vec<u64>, Vec<u64>))
    ensures
        r.0@ == write_storage_costs(v@),
        r.1@ == write_storage_refunds(v@),
{
    let mut costs: Vec<u64> = Vec::new();
    let mut refunds: Vec<u64> = Vec::new();
    let mut i: usize = 0;
    while i < v.len()
        invariant
            i <= v@.len(),
            costs@ == write_storage_costs(v@.take(i as int)),
            refunds@ == write_storage_refunds(v@.take(i as int)),
        decreases v@.len() - i,
    {
        costs.push(v[i].cost);
        refunds.push(v[i].refund);
        assert(costs@ =~= write_storage_costs(v@.take(i as int + 1)));
        assert(refunds@ =~= write_storage_refunds(v@.take(i as int + 1)));
        i += 1;
    }
    assert(v@.take(i as int) =~= v@);
    (costs, refunds)
}

fn event_storage_cost_list(v: &Vec<EventStorage>) -> (r: Vec<u64>)
    ensures
        r@ == event_storage_costs(v@),
{
    let mut out: Vec<u64> = Vec::new();
    let mut i: usize = 0;
    while i < v.len()
        invariant
            i <= v@.len(),
            out@ == event_storage_costs(v@.take(i as int)),
        decreases v@.len() - i,
    {
        out.push(v[i].cost);
        assert(out@ =~= event_storage_costs(v@.take(i as int + 1)));
        i += 1;
    }
    assert(v@.take(i as int) =~= v@);
    out
}

/// `a + b` over partial sums: `None` stays `None`, and so does a sum that
/// does not fit.
fn add_partial(a: Option<u64>, b: Option<u64>) -> (r: Option<u64>)
    ensures
        a is Some && b is Some && a->0 + b->0 <= u64::MAX ==> r == Some((a->0 + b->0) as u64),
        !(a is Some && b is Some && a->0 + b->0 <= u64::MAX) ==> r is None,
{
    match b {
        Some(y) => add_checked(a, y),
        None => None,
    }
}

/// The profiler's figure as an optional 64-bit value.
pub open spec fn as_u64(x: int) -> Option<u64> {
    if 0 <= x <= u64::MAX {
        Some(x as u64)
    } else {
        None
    }
}

impl ExecutionAndIOCosts {
    /// Checks that intrinsic, keyless, dependency, leaf event, transaction,
    /// event and write costs add up to the meter's total.
    pub fn check_consistency(&self) -> (r: Result<(), GasMismatch>)
        ensures
            r is Ok <==> self.is_consistent(),
            r is Err ==> r == Err::<(), GasMismatch>(
                GasMismatch::ExecutionAndIo {
                    from_meter: self.total,
                    calculated: as_u64(self.calculated_total()),
                },
            ),
    {
        let deps = dependency_cost_list(&self.dependencies);
        let evs = event_transient_cost_list(&self.events_transient);
        let writes = write_transient_cost_list(&self.write_set_transient);
        let d = checked_sum(&deps);
        let c = events_total(&self.call_graph.events);
        let e = checked_sum(&evs);
        let w = checked_sum(&writes);
        proof {
            lemma_sum_u64_nonneg(deps@);
            lemma_sum_u64_nonneg(evs@);
            lemma_sum_u64_nonneg(writes@);
            lemma_events_cost_nonneg(self.call_graph.events@);
        }
        let mut total = add_checked(Some(self.intrinsic_cost), self.keyless_cost);
        total = add_partial(total, d);
        total = add_partial(total, c);
        if let Some(t) = self.transaction_transient {
            total = add_checked(total, t);
        }
        total = add_partial(total, e);
        total = add_partial(total, w);
        match total {
            Some(t) => {
                if t == self.total {
                    Ok(())
                } else {
                    Err(GasMismatch::ExecutionAndIo { from_meter: self.total, calculated: Some(t) })
                }
            },
            None => Err(GasMismatch::ExecutionAndIo { from_meter: self.total, calculated: None }),
        }
    }
}

impl StorageFees {
    /// Checks that write, event and transaction storage fees add up to the
    /// meter's total, then that the write refunds add up to its refund.
    pub fn check_consistency(&self) -> (r: Result<(), GasMismatch>)
        ensures
            r is Ok <==> self.is_consistent(),
            self.calculated_total() != self.total ==> r == Err::<(), GasMismatch>(
                GasMismatch::StorageFees {
                    from_meter: self.total,
                    calculated: as_u64(self.calculated_total()),
                },
            ),
            self.calculated_total() == self.total && self.calculated_refund() != self.total_refund
                ==> r == Err::<(), GasMismatch>(
                GasMismatch::StorageRefunds {
                    from_meter: self.total_refund,
                    calculated: as_u64(self.calculated_refund()),
                },
            ),
    {
        let (costs, refunds) = write_storage_cost_list(&self.write_set_storage);
        let evs = event_storage_cost_list(&self.events);
        proof {
            lemma_sum_u64_nonneg(costs@);
            lemma_sum_u64_nonneg(refunds@);
            lemma_sum_u64_nonneg(evs@);
        }
        let mut total = checked_sum(&costs);
        total = add_partial(total, checked_sum(&evs));
        total = add_checked(total, self.txn_storage);
        let refund = checked_sum(&refunds);
        match total {
            Some(t) => {
                if t != self.total {
                    return Err(GasMismatch::StorageFees { from_meter: self.total, calculated: Some(t) });
                }
            },
            None => {
                return Err(GasMismatch::StorageFees { from_meter: self.total, calculated: None });
            },
        }
        match refund {
            Some(t) => {
                if t != self.total_refund {
                    return Err(
                        GasMismatch::StorageRefunds { from_meter: self.total_refund, calculated: Some(t) },
                    );
                }
            },
            None => {
                return Err(GasMismatch::StorageRefunds { from_meter: self.total_refund, calculated: None });
            },
        }
        Ok(())
    }
}

impl TransactionGasLog {
    /// Both reconciliations: execution and IO first, then storage.
    pub fn check_consistency(&self) -> (r: Result<(), GasMismatch>)
        ensures
            r is Ok <==> self.exec_io.is_consistent() && self.storage.is_consistent(),
            !self.exec_io.is_consistent() ==> r == Err::<(), GasMismatch>(
                GasMismatch::ExecutionAndIo {
                    from_meter: self.exec_io.total,
                    calculated: as_u64(self.exec_io.calculated_total()),
                },
            ),
            self.exec_io.is_consistent() && self.storage.calculated_total() != self.storage.total ==> r
                == Err::<(), GasMismatch>(
                GasMismatch::StorageFees {
                    from_meter: self.storage.total,
                    calculated: as_u64(self.storage.calculated_total()),
                },
            ),
            self.exec_io.is_consistent() && self.storage.calculated_total() == self.storage.total
                && self.storage.calculated_refund() != self.storage.total_refund ==> r == Err::<(), GasMismatch>(
                GasMismatch::StorageRefunds {
                    from_meter: self.storage.total_refund,
                    calculated: as_u64(self.storage.calculated_refund()),
                },
            ),
    {
        match self.exec_io.check_consistency() {
            Ok(()) => self.storage.check_consistency(),
            Err(e) => Err(e),
        }
    }
}

} // verus!

verus! {

pub open spec fn sat_add(a: u64, b: u64) -> u64 {
    if a + b > u64::MAX {
        u64::MAX
    } else {
        (a + b) as u64
    }
}

fn saturating(a: u64, b: u64) -> (r: u64)
    ensures
        r == sat_add(a, b),
{
    if a > u64::MAX - b {
        u64::MAX
    } else {
        a + b
    }
}

proof fn lemma_sum_concat(a: Seq<u64>, b: Seq<u64>)
    ensures
        sum_u64(a + b) == sum_u64(a) + sum_u64(b),
    decreases b.len(),
{
    if b.len() > 0 {
        lemma_sum_concat(a, b.drop_last());
        assert((a + b).drop_last() =~= a + b.drop_last());
    } else {
        assert(a + b =~= a);
    }
}

proof fn lemma_events_cost_concat(a: Seq<ExecutionGasEvent>, b: Seq<ExecutionGasEvent>)
    ensures
        events_cost(a + b) == events_cost(a) + events_cost(b),
    decreases b.len(),
{
    if b.len() > 0 {
        lemma_events_cost_concat(a, b.drop_last());
        assert((a + b).drop_last() =~= a + b.drop_last());
    } else {
        assert(a + b =~= a);
    }
}

proof fn lemma_sum_update(s: Seq<u64>, j: int, x: u64)
    requires
        0 <= j < s.len(),
    ensures
        sum_u64(s.update(j, x)) == sum_u64(s) - s[j] + x,
        s[j] <= sum_u64(s),
    decreases s.len(),
{
    lemma_sum_u64_nonneg(s.drop_last());
    if j < s.len() - 1 {
        lemma_sum_update(s.drop_last(), j, x);
        assert(s.update(j, x).drop_last() =~= s.drop_last().update(j, x));
    } else {
        assert(s.update(j, x).drop_last() =~= s.drop_last());
    }
}

fn copy_bytes(v: &Vec<u8>) -> (r: Vec<u8>)
    ensures
        r@ == v@,
{
    let mut out: Vec<u8> = Vec::new();
    let mut i: usize = 0;
    while i < v.len()
        invariant
            i <= v@.len(),
            out@ == v@.take(i as int),
        decreases v@.len() - i,
    {
        out.push(v[i]);
        assert(v@.take(i as int + 1) =~= v@.take(i as int).push(v@[i as int]));
        i += 1;
    }
    assert(v@.take(i as int) =~= v@);
    out
}

fn copy_strings(v: &Vec<String>) -> (r: Vec<String>)
    ensures
        r@ == v@,
{
    let mut out: Vec<String> = Vec::new();
    let mut i: usize = 0;
    while i < v.len()
        invariant
            i <= v@.len(),
            out@ == v@.take(i as int),
        decreases v@.len() - i,
    {
        out.push(v[i].clone());
        assert(v@.take(i as int + 1) =~= v@.take(i as int).push(v@[i as int]));
        i += 1;
    }
    assert(v@.take(i as int) =~= v@);
    out
}

/// Two frame names say the same.
pub open spec fn same_name(a: FrameName, b: FrameName) -> bool {
    match (a, b) {
        (FrameName::Script, FrameName::Script) => true,
        (
            FrameName::Function { module_id: m1, name: n1, ty_args: t1 },
            FrameName::Function { module_id: m2, name: n2, ty_args: t2 },
        ) => m1 == m2 && n1 == n2 && t1@ == t2@,
        _ => false,
    }
}

fn copy_name(n: &FrameName) -> (r: FrameName)
    ensures
        same_name(r, *n),
{
    match n {
        FrameName::Script => FrameName::Script,
        FrameName::Function { module_id, name, ty_args } => FrameName::Function {
            module_id: module_id.clone(),
            name: name.clone(),
            ty_args: copy_strings(ty_args),
        },
    }
}

fn copy_events(es: &Vec<ExecutionGasEvent>) -> (r: Vec<ExecutionGasEvent>)
    ensures
        r@.len() == es@.len(),
        events_cost(r@) == events_cost(es@),
    decreases es@,
{
    let mut out: Vec<ExecutionGasEvent> = Vec::new();
    let mut i: usize = 0;
    while i < es.len()
        invariant
            i <= es@.len(),
            out@.len() == i,
            events_cost(out@) == events_cost(es@.take(i as int)),
        decreases es@.len() - i,
    {
        assert(es@.take(i as int + 1).drop_last() =~= es@.take(i as int));
        let e = match &es[i] {
            ExecutionGasEvent::Loc(l) => ExecutionGasEvent::Loc(*l),
            ExecutionGasEvent::Bytecode { op, cost } => ExecutionGasEvent::Bytecode { op: *op, cost: *cost },
            ExecutionGasEvent::Call(f) => {
                proof {
                    assert(decreases_to!(es@ => es@[i as int]));
                }
                let events = copy_events(&f.events);
                ExecutionGasEvent::Call(
                    CallFrame { name: copy_name(&f.name), events, native_gas: f.native_gas },
                )
            },
            ExecutionGasEvent::CallNative { module_id, fn_name, ty_args, cost } => ExecutionGasEvent::CallNative {
                module_id: module_id.clone(),
                fn_name: fn_name.clone(),
                ty_args: copy_strings(ty_args),
                cost: *cost,
            },
            ExecutionGasEvent::LoadResource { addr, ty, cost } => ExecutionGasEvent::LoadResource {
                addr: *addr,
                ty: ty.clone(),
                cost: *cost,
            },
            ExecutionGasEvent::CreateTy { cost } => ExecutionGasEvent::CreateTy { cost: *cost },
        };
        assert(event_cost(e) == event_cost(es@[i as int]));
        let ghost prev = out@;
        out.push(e);
        assert(out@.drop_last() =~= prev);
        i += 1;
    }
    assert(es@.take(i as int) =~= es@);
    out
}

/// A copy of a frame: the same name, native gas and leaf costs.
pub fn copy_frame(f: &CallFrame) -> (r: CallFrame)
    ensures
        same_name(r.name, f.name),
        r.native_gas == f.native_gas,
        events_cost(r.events@) == events_cost(f.events@),
        r.events@.len() == f.events@.len(),
{
    CallFrame { name: copy_name(&f.name), events: copy_events(&f.events), native_gas: f.native_gas }
}

impl CallFrame {
    /// An empty frame for a function call.
    pub fn new_function(module_id: String, name: String, ty_args: Vec<String>) -> (r: Self)
        ensures
            r.name == (FrameName::Function { module_id, name, ty_args }),
            r.events@.len() == 0,
            r.native_gas == 0,
    {
        CallFrame { name: FrameName::Function { module_id, name, ty_args }, events: Vec::new(), native_gas: 0 }
    }

    /// An empty frame for a script.
    pub fn new_script() -> (r: Self)
        ensures
            r.name == FrameName::Script,
            r.events@.len() == 0,
            r.native_gas == 0,
    {
        CallFrame { name: FrameName::Script, events: Vec::new(), native_gas: 0 }
    }
}

/// The dependency key: kind, module and size.
pub open spec fn same_dep_key(a: Dependency, b: Dependency) -> bool {
    a.kind == b.kind && a.id@ == b.id@ && a.size == b.size
}

fn dep_key_eq(a: &Dependency, b: &Dependency) -> (r: bool)
    ensures
        r == same_dep_key(*a, *b),
{
    let same_kind = match (a.kind, b.kind) {
        (DependencyKind::New, DependencyKind::New) => true,
        (DependencyKind::Existing, DependencyKind::Existing) => true,
        _ => false,
    };
    same_kind && a.size == b.size && a.id == b.id
}

/// Adds the dependencies of `from` to `out`, summing the costs of those
/// with the same key and appending the others in order.
fn merge_dependencies(out: &mut Vec<Dependency>, from: &Vec<Dependency>)
    requires
        old(out)@.len() == 0,
    ensures
        sum_u64(dependency_costs(from@)) <= u64::MAX ==> forall|q: int|
            0 <= q < final(out)@.len() ==> (#[trigger] final(out)@[q]).cost == key_cost(from@, final(out)@[q]),
        dependency_keys_unique(final(out)@),
        dependency_keys_cover(final(out)@, old(out)@),
        dependency_keys_cover(final(out)@, from@),
        sum_u64(dependency_costs(old(out)@)) + sum_u64(dependency_costs(from@)) <= u64::MAX ==> sum_u64(
            dependency_costs(final(out)@),
        ) == sum_u64(dependency_costs(old(out)@)) + sum_u64(dependency_costs(from@)),
{
    let ghost base = sum_u64(dependency_costs(out@));
    let mut i: usize = 0;
    while i < from.len()
        invariant
            i <= from@.len(),
            base == sum_u64(dependency_costs(old(out)@)),
            base + sum_u64(dependency_costs(from@.take(i as int))) <= u64::MAX ==> sum_u64(
                dependency_costs(out@),
            ) == base + sum_u64(dependency_costs(from@.take(i as int))),
            dependency_keys_unique(out@),
            dependency_keys_cover(out@, old(out)@),
            dependency_keys_cover(out@, from@.take(i as int)),
            old(out)@.len() == 0,
            sum_u64(dependency_costs(from@)) <= u64::MAX ==> forall|q: int|
                0 <= q < out@.len() ==> (#[trigger] out@[q]).cost == key_cost(from@.take(i as int), out@[q]),
        decreases from@.len() - i,
    {
        let d = &from[i];
        proof {
            assert(from@.take(i as int + 1).drop_last() =~= from@.take(i as int));
            assert(from@.take(i as int + 1).last() == from@[i as int]);
            assert(dependency_costs(from@.take(i as int + 1)) =~= dependency_costs(from@).take(i as int + 1));
            lemma_sum_u64_prefix(dependency_costs(from@), i as int + 1);
        }
        proof {
            assert(dependency_costs(from@.take(i as int + 1)).drop_last() =~= dependency_costs(
                from@.take(i as int),
            ));
            lemma_sum_u64_nonneg(dependency_costs(from@.take(i as int)));
            lemma_sum_u64_nonneg(dependency_costs(old(out)@));
        }
        let mut j: usize = 0;
        while j < out.len() && !dep_key_eq(&out[j], d)
            invariant
                j <= out@.len(),
                forall|q: int| 0 <= q < j ==> !same_dep_key(#[trigger] out@[q], *d),
            decreases out@.len() - j,
        {
            j += 1;
        }
        let ghost before = out@;
        if j < out.len() {
            let merged = Dependency {
                kind: out[j].kind,
                id: out[j].id.clone(),
                size: out[j].size,
                cost: saturating(out[j].cost, d.cost),
            };
            out.set(j, merged);
            proof {
                assert(dependency_costs(out@) =~= dependency_costs(before).update(
                    j as int,
                    sat_add(before[j as int].cost, d.cost),
                ));
                lemma_sum_update(dependency_costs(before), j as int, sat_add(before[j as int].cost, d.cost));
                assert(same_dep_key(out@[j as int], before[j as int]));
                assert forall|a: int, b: int| 0 <= a < b < out@.len() implies !same_dep_key(out@[a], out@[b]) by {
                    assert(!same_dep_key(before[a], before[b]));
                }
                assert forall|k: int| 0 <= k < old(out)@.len() implies exists|q: int|
                    0 <= q < out@.len() && same_dep_key(out@[q], #[trigger] old(out)@[k]) by {
                    let q = choose|q: int| 0 <= q < before.len() && same_dep_key(before[q], old(out)@[k]);
                    assert(same_dep_key(out@[q], old(out)@[k]));
                }
                assert forall|k: int| 0 <= k < from@.take(i as int + 1).len() implies exists|q: int|
                    0 <= q < out@.len() && same_dep_key(out@[q], #[trigger] from@.take(i as int + 1)[k]) by {
                    if k < i {
                        assert(from@.take(i as int + 1)[k] == from@.take(i as int)[k]);
                        let q = choose|q: int| 0 <= q < before.len() && same_dep_key(before[q], from@.take(i as int)[k]);
                        assert(same_dep_key(out@[q], from@.take(i as int + 1)[k]));
                    } else {
                        assert(same_dep_key(out@[j as int], from@.take(i as int + 1)[k]));
                    }
                }
                if sum_u64(dependency_costs(from@)) <= u64::MAX {
                    lemma_key_cost_bounds(from@.take(i as int), before[j as int]);
                    assert forall|q: int| 0 <= q < out@.len() implies (#[trigger] out@[q]).cost == key_cost(
                        from@.take(i as int + 1),
                        out@[q],
                    ) by {
                        if q != j {
                            assert(out@[q] == before[q]);
                            if q < j {
                                assert(!same_dep_key(before[q], before[j as int]));
                            } else {
                                assert(!same_dep_key(before[j as int], before[q]));
                            }
                            assert(!same_dep_key(from@[i as int], out@[q]));
                        } else {
                            assert(same_dep_key(from@[i as int], out@[q]));
                            lemma_key_cost_same_key(from@.take(i as int), out@[q], before[q]);
                        }
                    }
                }
            }
        } else {
            out.push(Dependency { kind: d.kind, id: d.id.clone(), size: d.size, cost: d.cost });
            proof {
                assert(dependency_costs(out@).drop_last() =~= dependency_costs(before));
                let last = out@.len() - 1;
                assert(same_dep_key(out@[last], *d));
                assert forall|a: int, b: int| 0 <= a < b < out@.len() implies !same_dep_key(out@[a], out@[b]) by {
                    if b == last {
                        assert(!same_dep_key(before[a], *d));
                    } else {
                        assert(!same_dep_key(before[a], before[b]));
                    }
                }
                assert forall|k: int| 0 <= k < old(out)@.len() implies exists|q: int|
                    0 <= q < out@.len() && same_dep_key(out@[q], #[trigger] old(out)@[k]) by {
                    let q = choose|q: int| 0 <= q < before.len() && same_dep_key(before[q], old(out)@[k]);
                    assert(same_dep_key(out@[q], old(out)@[k]));
                }
                assert forall|k: int| 0 <= k < from@.take(i as int + 1).len() implies exists|q: int|
                    0 <= q < out@.len() && same_dep_key(out@[q], #[trigger] from@.take(i as int + 1)[k]) by {
                    if k < i {
                        assert(from@.take(i as int + 1)[k] == from@.take(i as int)[k]);
                        let q = choose|q: int| 0 <= q < before.len() && same_dep_key(before[q], from@.take(i as int)[k]);
                        assert(same_dep_key(out@[q], from@.take(i as int + 1)[k]));
                    } else {
                        assert(same_dep_key(out@[last], from@.take(i as int + 1)[k]));
                    }
                }
                if sum_u64(dependency_costs(from@)) <= u64::MAX {
                    assert forall|k: int| 0 <= k < from@.take(i as int).len() implies !same_dep_key(
                        #[trigger] from@.take(i as int)[k],
                        out@[last],
                    ) by {
                        let q = choose|q: int| 0 <= q < before.len() && same_dep_key(before[q], from@.take(i as int)[k]);
                        assert(!same_dep_key(before[q], *d));
                    }
                    lemma_key_cost_zero(from@.take(i as int), out@[last]);
                    assert forall|q: int| 0 <= q < out@.len() implies (#[trigger] out@[q]).cost == key_cost(
                        from@.take(i as int + 1),
                        out@[q],
                    ) by {
                        if q != last {
                            assert(out@[q] == before[q]);
                            assert(!same_dep_key(from@[i as int], out@[q]));
                        }
                    }
                }
            }
        }
        i += 1;
    }
    assert(from@.take(i as int) =~= from@);
}

/// The summed cost of the dependencies of `s` with the key of `x`.
pub open spec fn key_cost(s: Seq<Dependency>, x: Dependency) -> int
    decreases s.len(),
{
    if s.len() == 0 {
        0
    } else {
        key_cost(s.drop_last(), x) + if same_dep_key(s.last(), x) {
            s.last().cost as int
        } else {
            0int
        }
    }
}

proof fn lemma_key_cost_bounds(s: Seq<Dependency>, x: Dependency)
    ensures
        0 <= key_cost(s, x) <= sum_u64(dependency_costs(s)),
    decreases s.len(),
{
    if s.len() > 0 {
        lemma_key_cost_bounds(s.drop_last(), x);
        assert(dependency_costs(s).drop_last() =~= dependency_costs(s.drop_last()));
    }
}

proof fn lemma_key_cost_same_key(s: Seq<Dependency>, x: Dependency, y: Dependency)
    requires
        same_dep_key(x, y),
    ensures
        key_cost(s, x) == key_cost(s, y),
    decreases s.len(),
{
    if s.len() > 0 {
        lemma_key_cost_same_key(s.drop_last(), x, y);
    }
}

proof fn lemma_key_cost_zero(s: Seq<Dependency>, x: Dependency)
    requires
        forall|k: int| 0 <= k < s.len() ==> !same_dep_key(#[trigger] s[k], x),
    ensures
        key_cost(s, x) == 0,
    decreases s.len(),
{
    if s.len() > 0 {
        lemma_key_cost_zero(s.drop_last(), x);
    }
}

proof fn lemma_key_cost_concat(a: Seq<Dependency>, b: Seq<Dependency>, x: Dependency)
    ensures
        key_cost(a + b, x) == key_cost(a, x) + key_cost(b, x),
    decreases b.len(),
{
    if b.len() > 0 {
        lemma_key_cost_concat(a, b.drop_last(), x);
        assert((a + b).drop_last() =~= a + b.drop_last());
    } else {
        assert(a + b =~= a);
    }
}

proof fn lemma_sum_u64_prefix(s: Seq<u64>, k: int)
    requires
        0 <= k <= s.len(),
    ensures
        sum_u64(s.take(k)) <= sum_u64(s),
    decreases s.len(),
{
    if k < s.len() {
        lemma_sum_u64_prefix(s.drop_last(), k);
        assert(s.drop_last().take(k) =~= s.take(k));
    } else {
        assert(s.take(k) =~= s);
    }
}

fn copy_dependencies(v: &Vec<Dependency>, out: &mut Vec<Dependency>)
    ensures
        final(out)@ == old(out)@ + v@,
{
    let mut i: usize = 0;
    while i < v.len()
        invariant
            i <= v@.len(),
            out@ == old(out)@ + v@.take(i as int),
        decreases v@.len() - i,
    {
        out.push(Dependency { kind: v[i].kind, id: v[i].id.clone(), size: v[i].size, cost: v[i].cost });
        assert(out@ =~= old(out)@ + v@.take(i as int + 1));
        i += 1;
    }
    assert(v@.take(i as int) =~= v@);
}

fn copy_event_transients(v: &Vec<EventTransient>, out: &mut Vec<EventTransient>)
    ensures
        event_transient_costs(final(out)@) == event_transient_costs(old(out)@) + event_transient_costs(v@),
        final(out)@ == old(out)@ + v@,
{
    let mut i: usize = 0;
    while i < v.len()
        invariant
            i <= v@.len(),
            out@ == old(out)@ + v@.take(i as int),
            event_transient_costs(out@) == event_transient_costs(old(out)@) + event_transient_costs(
                v@.take(i as int),
            ),
        decreases v@.len() - i,
    {
        let ghost prev = out@;
        out.push(EventTransient { ty: v[i].ty.clone(), cost: v[i].cost });
        assert(out@ =~= old(out)@ + v@.take(i as int + 1));
        assert(event_transient_costs(out@) =~= event_transient_costs(prev).push(v@[i as int].cost));
        assert(event_transient_costs(v@.take(i as int + 1)) =~= event_transient_costs(v@.take(i as int)).push(v@[i as int].cost));
        assert(event_transient_costs(out@) =~= event_transient_costs(old(out)@) + event_transient_costs(v@.take(i as int + 1)));
        i += 1;
    }
    assert(v@.take(i as int) =~= v@);
}

fn copy_write_transients(v: &Vec<WriteTransient>, out: &mut Vec<WriteTransient>)
    ensures
        write_transient_costs(final(out)@) == write_transient_costs(old(out)@) + write_transient_costs(v@),
        write_transients_view(final(out)@) == write_transients_view(old(out)@) + write_transients_view(v@),
{
    let mut i: usize = 0;
    while i < v.len()
        invariant
            i <= v@.len(),
            write_transients_view(out@) == write_transients_view(old(out)@) + write_transients_view(
                v@.take(i as int),
            ),
            write_transient_costs(out@) == write_transient_costs(old(out)@) + write_transient_costs(
                v@.take(i as int),
            ),
        decreases v@.len() - i,
    {
        let ghost prev = out@;
        out.push(WriteTransient { key: copy_bytes(&v[i].key), op_type: v[i].op_type, cost: v[i].cost });
        assert(write_transients_view(out@) =~= write_transients_view(prev).push(
            (v@[i as int].key@, v@[i as int].op_type, v@[i as int].cost),
        ));
        assert(write_transients_view(v@.take(i as int + 1)) =~= write_transients_view(v@.take(i as int)).push(
            (v@[i as int].key@, v@[i as int].op_type, v@[i as int].cost),
        ));
        assert(write_transients_view(out@) =~= write_transients_view(old(out)@) + write_transients_view(
            v@.take(i as int + 1),
        ));
        assert(write_transient_costs(out@) =~= write_transient_costs(prev).push(v@[i as int].cost));
        assert(write_transient_costs(v@.take(i as int + 1)) =~= write_transient_costs(v@.take(i as int)).push(v@[i as int].cost));
        assert(write_transient_costs(out@) =~= write_transient_costs(old(out)@) + write_transient_costs(v@.take(i as int + 1)));
        i += 1;
    }
    assert(v@.take(i as int) =~= v@);
}

fn copy_write_storages(v: &Vec<WriteStorage>, out: &mut Vec<WriteStorage>)
    ensures
        write_storage_costs(final(out)@) == write_storage_costs(old(out)@) + write_storage_costs(v@),
        write_storage_refunds(final(out)@) == write_storage_refunds(old(out)@) + write_storage_refunds(v@),
{
    let mut i: usize = 0;
    while i < v.len()
        invariant
            i <= v@.len(),
            write_storage_costs(out@) == write_storage_costs(old(out)@) + write_storage_costs(
                v@.take(i as int),
            ),
            write_storage_refunds(out@) == write_storage_refunds(old(out)@) + write_storage_refunds(
                v@.take(i as int),
            ),
        decreases v@.len() - i,
    {
        let ghost prev = out@;
        out.push(
            WriteStorage {
                key: copy_bytes(&v[i].key),
                op_type: v[i].op_type,
                cost: v[i].cost,
                refund: v[i].refund,
            },
        );
        assert(write_storage_costs(out@) =~= write_storage_costs(prev).push(v@[i as int].cost));
        assert(write_storage_costs(v@.take(i as int + 1)) =~= write_storage_costs(v@.take(i as int)).push(
            v@[i as int].cost,
        ));
        assert(write_storage_costs(out@) =~= write_storage_costs(old(out)@) + write_storage_costs(
            v@.take(i as int + 1),
        ));
        assert(write_storage_refunds(out@) =~= write_storage_refunds(prev).push(v@[i as int].refund));
        assert(write_storage_refunds(v@.take(i as int + 1)) =~= write_storage_refunds(v@.take(i as int)).push(
            v@[i as int].refund,
        ));
        assert(write_storage_refunds(out@) =~= write_storage_refunds(old(out)@) + write_storage_refunds(
            v@.take(i as int + 1),
        ));
        i += 1;
    }
    assert(v@.take(i as int) =~= v@);
}

fn copy_event_storages(v: &Vec<EventStorage>, out: &mut Vec<EventStorage>)
    ensures
        event_storage_costs(final(out)@) == event_storage_costs(old(out)@) + event_storage_costs(v@),
{
    let mut i: usize = 0;
    while i < v.len()
        invariant
            i <= v@.len(),
            event_storage_costs(out@) == event_storage_costs(old(out)@) + event_storage_costs(
                v@.take(i as int),
            ),
        decreases v@.len() - i,
    {
        let ghost prev = out@;
        out.push(EventStorage { ty: v[i].ty.clone(), cost: v[i].cost });
        assert(event_storage_costs(out@) =~= event_storage_costs(prev).push(v@[i as int].cost));
        assert(event_storage_costs(v@.take(i as int + 1)) =~= event_storage_costs(v@.take(i as int)).push(v@[i as int].cost));
        assert(event_storage_costs(out@) =~= event_storage_costs(old(out)@) + event_storage_costs(v@.take(i as int + 1)));
        i += 1;
    }
    assert(v@.take(i as int) =~= v@);
}

/// Each write's key, kind and cost.
pub open spec fn write_transients_view(s: Seq<WriteTransient>) -> Seq<(Seq<u8>, WriteOpType, u64)> {
    Seq::new(s.len(), |i: int| (s[i].key@, s[i].op_type, s[i].cost))
}

/// No two dependencies share kind, module and size.
pub open spec fn dependency_keys_unique(s: Seq<Dependency>) -> bool {
    forall|i: int, j: int| 0 <= i < j < s.len() ==> !same_dep_key(s[i], s[j])
}

/// Every dependency of `from` has its key among those of `s`.
pub open spec fn dependency_keys_cover(s: Seq<Dependency>, from: Seq<Dependency>) -> bool {
    forall|k: int| 0 <= k < from.len() ==> exists|i: int| 0 <= i < s.len() && same_dep_key(s[i], #[trigger] from[k])
}

/// `r` is what combining `a` with `b` gives: every figure added
/// (saturating), the records of `b` after those of `a`.
pub open spec fn is_storage_combination(a: StorageFees, b: StorageFees, r: StorageFees) -> bool {
    &&& r.total == sat_add(a.total, b.total)
    &&& r.total_refund == sat_add(a.total_refund, b.total_refund)
    &&& r.event_discount == sat_add(a.event_discount, b.event_discount)
    &&& r.txn_storage == sat_add(a.txn_storage, b.txn_storage)
    &&& write_storage_costs(r.write_set_storage@) == write_storage_costs(a.write_set_storage@)
        + write_storage_costs(b.write_set_storage@)
    &&& write_storage_refunds(r.write_set_storage@) == write_storage_refunds(a.write_set_storage@)
        + write_storage_refunds(b.write_set_storage@)
    &&& event_storage_costs(r.events@) == event_storage_costs(a.events@) + event_storage_costs(b.events@)
}

impl StorageFees {
    pub fn combine(&self, other: &StorageFees) -> (r: StorageFees)
        ensures
            is_storage_combination(*self, *other, r),
            self.is_consistent() && other.is_consistent() && self.total + other.total <= u64::MAX
                && self.total_refund + other.total_refund <= u64::MAX ==> r.is_consistent(),
    {
        let mut write_set_storage: Vec<WriteStorage> = Vec::new();
        copy_write_storages(&self.write_set_storage, &mut write_set_storage);
        copy_write_storages(&other.write_set_storage, &mut write_set_storage);
        let mut events: Vec<EventStorage> = Vec::new();
        copy_event_storages(&self.events, &mut events);
        copy_event_storages(&other.events, &mut events);
        proof {
            assert(write_storage_costs(Seq::<WriteStorage>::empty()) =~= Seq::<u64>::empty());
            assert(write_storage_refunds(Seq::<WriteStorage>::empty()) =~= Seq::<u64>::empty());
            assert(event_storage_costs(Seq::<EventStorage>::empty()) =~= Seq::<u64>::empty());
            assert(Seq::<u64>::empty() + write_storage_costs(self.write_set_storage@) =~= write_storage_costs(
                self.write_set_storage@,
            ));
            assert(Seq::<u64>::empty() + write_storage_refunds(self.write_set_storage@)
                =~= write_storage_refunds(self.write_set_storage@));
            assert(Seq::<u64>::empty() + event_storage_costs(self.events@) =~= event_storage_costs(
                self.events@,
            ));
        }
        let r = StorageFees {
            total: saturating(self.total, other.total),
            total_refund: saturating(self.total_refund, other.total_refund),
            write_set_storage,
            events,
            event_discount: saturating(self.event_discount, other.event_discount),
            txn_storage: saturating(self.txn_storage, other.txn_storage),
        };
        proof {
            if self.is_consistent() && other.is_consistent() && self.total + other.total <= u64::MAX
                && self.total_refund + other.total_refund <= u64::MAX {
                lemma_storage_combine_consistent(*self, *other, r);
            }
        }
        r
    }
}

/// Combining two reconciled storage records whose totals fit gives a
/// reconciled record.
pub proof fn lemma_storage_combine_consistent(a: StorageFees, b: StorageFees, r: StorageFees)
    requires
        a.is_consistent(),
        b.is_consistent(),
        a.total + b.total <= u64::MAX,
        a.total_refund + b.total_refund <= u64::MAX,
        is_storage_combination(a, b, r),
    ensures
        r.is_consistent(),
{
    lemma_sum_concat(write_storage_costs(a.write_set_storage@), write_storage_costs(b.write_set_storage@));
    lemma_sum_concat(
        write_storage_refunds(a.write_set_storage@),
        write_storage_refunds(b.write_set_storage@),
    );
    lemma_sum_concat(event_storage_costs(a.events@), event_storage_costs(b.events@));
    lemma_sum_u64_nonneg(write_storage_costs(a.write_set_storage@));
    lemma_sum_u64_nonneg(write_storage_costs(b.write_set_storage@));
    lemma_sum_u64_nonneg(event_storage_costs(a.events@));
    lemma_sum_u64_nonneg(event_storage_costs(b.events@));
}

} // verus!

verus! {

/// The summed transaction IO cost of two records.
pub open spec fn combined_transient(a: Option<u64>, b: Option<u64>) -> Option<u64> {
    match (a, b) {
        (Some(x), Some(y)) => Some(sat_add(x, y)),
        (Some(x), None) => Some(x),
        (None, y) => y,
    }
}

/// `r` is what combining `a` with `b` gives: every figure added
/// (saturating), the dependencies merged by key, both call graphs nested
/// under one script frame, the IO records of `b` after those of `a`.
pub open spec fn is_exec_combination(a: ExecutionAndIOCosts, b: ExecutionAndIOCosts, r: ExecutionAndIOCosts) -> bool {
    &&& r.gas_scaling_factor == a.gas_scaling_factor
    &&& r.total == sat_add(a.total, b.total)
    &&& r.intrinsic_cost == sat_add(a.intrinsic_cost, b.intrinsic_cost)
    &&& r.keyless_cost == sat_add(a.keyless_cost, b.keyless_cost)
    &&& sum_u64(dependency_costs(a.dependencies@)) + sum_u64(dependency_costs(b.dependencies@)) <= u64::MAX
        ==> sum_u64(dependency_costs(r.dependencies@)) == sum_u64(dependency_costs(a.dependencies@))
        + sum_u64(dependency_costs(b.dependencies@))
    &&& r.call_graph.name == FrameName::Script
    &&& events_cost(r.call_graph.events@) == events_cost(a.call_graph.events@) + events_cost(
        b.call_graph.events@,
    )
    &&& r.call_graph.native_gas == if a.call_graph.name is Script {
        sat_add(a.call_graph.native_gas, b.call_graph.native_gas)
    } else {
        0
    }
    &&& r.transaction_transient == combined_transient(a.transaction_transient, b.transaction_transient)
    &&& event_transient_costs(r.events_transient@) == event_transient_costs(a.events_transient@)
        + event_transient_costs(b.events_transient@)
    &&& write_transient_costs(r.write_set_transient@) == write_transient_costs(a.write_set_transient@)
        + write_transient_costs(b.write_set_transient@)
    &&& r.events_transient@ == a.events_transient@ + b.events_transient@
    &&& write_transients_view(r.write_set_transient@) == write_transients_view(a.write_set_transient@)
        + write_transients_view(b.write_set_transient@)
    &&& dependency_keys_unique(r.dependencies@)
    &&& dependency_keys_cover(r.dependencies@, a.dependencies@)
    &&& dependency_keys_cover(r.dependencies@, b.dependencies@)
    &&& sum_u64(dependency_costs(a.dependencies@)) + sum_u64(dependency_costs(b.dependencies@)) <= u64::MAX
        ==> forall|q: int|
        0 <= q < r.dependencies@.len() ==> (#[trigger] r.dependencies@[q]).cost == key_cost(a.dependencies@, r.dependencies@[q])
            + key_cost(b.dependencies@, r.dependencies@[q])
}

impl ExecutionAndIOCosts {
    /// Combines the costs of two transactions run as one.
    pub fn combine(&self, other: &ExecutionAndIOCosts) -> (r: ExecutionAndIOCosts)
        requires
            self.gas_scaling_factor == other.gas_scaling_factor,
        ensures
            is_exec_combination(*self, *other, r),
            self.is_consistent() && other.is_consistent() && self.total + other.total <= u64::MAX
                ==> r.is_consistent(),
    {
        let is_script = match self.call_graph.name {
            FrameName::Script => true,
            _ => false,
        };
        let mut events: Vec<ExecutionGasEvent> = Vec::new();
        let mut native_gas: u64 = 0;
        if is_script {
            let mut first = copy_events(&self.call_graph.events);
            let mut second = copy_events(&other.call_graph.events);
            native_gas = saturating(self.call_graph.native_gas, other.call_graph.native_gas);
            proof {
                lemma_events_cost_concat(first@, second@);
            }
            let ghost f = first@;
            let ghost g = second@;
            events.append(&mut first);
            events.append(&mut second);
            assert(events@ =~= f + g);
            assert(events_cost(events@) == events_cost(self.call_graph.events@) + events_cost(
                other.call_graph.events@,
            ));
        } else {
            let fa = copy_frame(&self.call_graph);
            let fb = copy_frame(&other.call_graph);
            let ghost ea = ExecutionGasEvent::Call(fa);
            let ghost eb = ExecutionGasEvent::Call(fb);
            assert(event_cost(ea) == events_cost(self.call_graph.events@));
            assert(event_cost(eb) == events_cost(other.call_graph.events@));
            events.push(ExecutionGasEvent::Call(fa));
            events.push(ExecutionGasEvent::Call(fb));
            proof {
                let e0 = Seq::<ExecutionGasEvent>::empty();
                assert(events@.drop_last().drop_last() =~= e0);
                assert(events@.drop_last() =~= e0.push(ea));
                assert(events@ =~= e0.push(ea).push(eb));
                assert(events_cost(e0) == 0);
                assert(events_cost(e0.push(ea)) == event_cost(ea)) by {
                    assert(e0.push(ea).drop_last() =~= e0);
                    assert(e0.push(ea).last() == ea);
                    assert(e0.push(ea).len() == 1);
                }
                assert(events_cost(events@) == events_cost(e0.push(ea)) + event_cost(eb)) by {
                    assert(events@.drop_last() =~= e0.push(ea));
                }
            }
        }
        let mut all_dependencies: Vec<Dependency> = Vec::new();
        copy_dependencies(&self.dependencies, &mut all_dependencies);
        copy_dependencies(&other.dependencies, &mut all_dependencies);
        let mut dependencies: Vec<Dependency> = Vec::new();
        merge_dependencies(&mut dependencies, &all_dependencies);
        let ghost all = all_dependencies@;
        proof {
            assert(all =~= self.dependencies@ + other.dependencies@);
            assert(dependency_costs(Seq::<Dependency>::empty()) =~= Seq::<u64>::empty());
            assert(dependency_costs(all) =~= dependency_costs(self.dependencies@) + dependency_costs(other.dependencies@));
            lemma_sum_concat(dependency_costs(self.dependencies@), dependency_costs(other.dependencies@));
            lemma_sum_u64_nonneg(dependency_costs(self.dependencies@));
            lemma_sum_u64_nonneg(dependency_costs(other.dependencies@));
        }
        let transaction_transient = match (self.transaction_transient, other.transaction_transient) {
            (Some(x), Some(y)) => Some(saturating(x, y)),
            (Some(x), None) => Some(x),
            (None, y) => y,
        };
        let mut events_transient: Vec<EventTransient> = Vec::new();
        copy_event_transients(&self.events_transient, &mut events_transient);
        copy_event_transients(&other.events_transient, &mut events_transient);
        let mut write_set_transient: Vec<WriteTransient> = Vec::new();
        copy_write_transients(&self.write_set_transient, &mut write_set_transient);
        copy_write_transients(&other.write_set_transient, &mut write_set_transient);
        proof {
            assert(event_transient_costs(Seq::<EventTransient>::empty()) =~= Seq::<u64>::empty());
            assert(write_transient_costs(Seq::<WriteTransient>::empty()) =~= Seq::<u64>::empty());
            assert(Seq::<u64>::empty() + event_transient_costs(self.events_transient@) =~= event_transient_costs(
                self.events_transient@,
            ));
            assert(Seq::<u64>::empty() + write_transient_costs(self.write_set_transient@)
                =~= write_transient_costs(self.write_set_transient@));
        }
        let r = ExecutionAndIOCosts {
            gas_scaling_factor: self.gas_scaling_factor,
            total: saturating(self.total, other.total),
            intrinsic_cost: saturating(self.intrinsic_cost, other.intrinsic_cost),
            keyless_cost: saturating(self.keyless_cost, other.keyless_cost),
            dependencies,
            call_graph: CallFrame { name: FrameName::Script, events, native_gas },
            transaction_transient,
            events_transient,
            write_set_transient,
        };
        proof {
            assert forall|k: int| 0 <= k < self.dependencies@.len() implies exists|q: int|
                0 <= q < r.dependencies@.len() && same_dep_key(r.dependencies@[q], #[trigger] self.dependencies@[k]) by {
                assert(all[k] == self.dependencies@[k]);
            }
            assert forall|k: int| 0 <= k < other.dependencies@.len() implies exists|q: int|
                0 <= q < r.dependencies@.len() && same_dep_key(r.dependencies@[q], #[trigger] other.dependencies@[k]) by {
                assert(all[k + self.dependencies@.len()] == other.dependencies@[k]);
            }
            assert forall|q: int| 0 <= q < r.dependencies@.len() implies key_cost(all, #[trigger] r.dependencies@[q])
                == key_cost(self.dependencies@, r.dependencies@[q]) + key_cost(other.dependencies@, r.dependencies@[q]) by {
                lemma_key_cost_concat(self.dependencies@, other.dependencies@, r.dependencies@[q]);
            }
            assert(Seq::<EventTransient>::empty() + self.events_transient@ =~= self.events_transient@);
            assert(write_transients_view(Seq::<WriteTransient>::empty()) + write_transients_view(self.write_set_transient@)
                =~= write_transients_view(self.write_set_transient@));
            if self.is_consistent() && other.is_consistent() && self.total + other.total <= u64::MAX {
                lemma_exec_combine_consistent(*self, *other, r);
            }
        }
        r
    }
}

/// Combining two reconciled execution records whose totals fit gives a
/// reconciled record.
pub proof fn lemma_exec_combine_consistent(a: ExecutionAndIOCosts, b: ExecutionAndIOCosts, r: ExecutionAndIOCosts)
    requires
        a.is_consistent(),
        b.is_consistent(),
        a.total + b.total <= u64::MAX,
        is_exec_combination(a, b, r),
    ensures
        r.is_consistent(),
{
    lemma_sum_u64_nonneg(dependency_costs(a.dependencies@));
    lemma_sum_u64_nonneg(dependency_costs(b.dependencies@));
    lemma_sum_u64_nonneg(event_transient_costs(a.events_transient@));
    lemma_sum_u64_nonneg(event_transient_costs(b.events_transient@));
    lemma_sum_u64_nonneg(write_transient_costs(a.write_set_transient@));
    lemma_sum_u64_nonneg(write_transient_costs(b.write_set_transient@));
    lemma_events_cost_nonneg(a.call_graph.events@);
    lemma_events_cost_nonneg(b.call_graph.events@);
    lemma_sum_concat(event_transient_costs(a.events_transient@), event_transient_costs(b.events_transient@));
    lemma_sum_concat(
        write_transient_costs(a.write_set_transient@),
        write_transient_costs(b.write_set_transient@),
    );
}

impl TransactionGasLog {
    /// The frame the transaction entered through.
    pub fn entry_point(&self) -> (r: &FrameName)
        ensures
            *r == self.exec_io.call_graph.name,
    {
        &self.exec_io.call_graph.name
    }

    /// Combines the logs of two transactions run as one.
    pub fn combine(&self, other: &TransactionGasLog) -> (r: TransactionGasLog)
        requires
            self.exec_io.gas_scaling_factor == other.exec_io.gas_scaling_factor,
        ensures
            is_exec_combination(self.exec_io, other.exec_io, r.exec_io),
            is_storage_combination(self.storage, other.storage, r.storage),
            self.exec_io.is_consistent() && other.exec_io.is_consistent() && self.storage.is_consistent()
                && other.storage.is_consistent() && self.exec_io.total + other.exec_io.total <= u64::MAX
                && self.storage.total + other.storage.total <= u64::MAX && self.storage.total_refund
                + other.storage.total_refund <= u64::MAX ==> r.exec_io.is_consistent() && r.storage.is_consistent(),
    {
        TransactionGasLog {
            exec_io: self.exec_io.combine(&other.exec_io),
            storage: self.storage.combine(&other.storage),
        }
    }
}

} // verus!

verus! {

/// What a folded frame aggregates its leaf events by.
#[derive(Debug)]
pub enum InstructionKey {
    Bytecode { op: u8 },
    CallNative { module_id: String, fn_name: String, ty_args: Vec<String> },
    LoadResource { addr: AccountAddress, ty: String },
    CreateTy,
}

/// A frame with its leaf events summed per instruction and its calls
/// merged per callee name.
#[derive(Debug)]
pub struct FoldedCallFrame {
    pub self_gas: u64,
    pub instructions: Vec<(InstructionKey, u64)>,
    pub children: Vec<(FrameName, FoldedCallFrame)>,
}

pub open spec fn instruction_costs(s: Seq<(InstructionKey, u64)>) -> Seq<u64> {
    Seq::new(s.len(), |i: int| s[i].1)
}

/// All the gas a folded frame accounts for below its own native gas.
pub open spec fn folded_cost(f: FoldedCallFrame) -> int
    decreases f,
{
    sum_u64(instruction_costs(f.instructions@)) + children_cost(f.children@)
}

pub open spec fn children_cost(cs: Seq<(FrameName, FoldedCallFrame)>) -> int
    decreases cs,
{
    if cs.len() == 0 {
        0
    } else {
        children_cost(cs.drop_last()) + folded_cost(cs.last().1)
    }
}

/// Number of frames in a folded tree.
pub open spec fn folded_size(f: FoldedCallFrame) -> nat
    decreases f,
{
    1 + children_size(f.children@)
}

pub open spec fn children_size(cs: Seq<(FrameName, FoldedCallFrame)>) -> nat
    decreases cs,
{
    if cs.len() == 0 {
        0
    } else {
        children_size(cs.drop_last()) + folded_size(cs.last().1)
    }
}

proof fn lemma_children_size_part(cs: Seq<(FrameName, FoldedCallFrame)>, j: int)
    requires
        0 <= j < cs.len(),
    ensures
        folded_size(cs[j].1) <= children_size(cs),
    decreases cs.len(),
{
    if j < cs.len() - 1 {
        lemma_children_size_part(cs.drop_last(), j);
    }
}

pub proof fn lemma_folded_cost_nonneg(f: FoldedCallFrame)
    ensures
        folded_cost(f) >= 0,
    decreases f,
{
    lemma_sum_u64_nonneg(instruction_costs(f.instructions@));
    lemma_children_cost_nonneg(f.children@);
}

pub proof fn lemma_children_cost_nonneg(cs: Seq<(FrameName, FoldedCallFrame)>)
    ensures
        children_cost(cs) >= 0,
    decreases cs,
{
    if cs.len() > 0 {
        lemma_children_cost_nonneg(cs.drop_last());
        lemma_folded_cost_nonneg(cs.last().1);
    }
}

proof fn lemma_children_update(cs: Seq<(FrameName, FoldedCallFrame)>, j: int, x: (FrameName, FoldedCallFrame))
    requires
        0 <= j < cs.len(),
    ensures
        children_cost(cs.update(j, x)) == children_cost(cs) - folded_cost(cs[j].1) + folded_cost(x.1),
    decreases cs.len(),
{
    if j < cs.len() - 1 {
        lemma_children_update(cs.drop_last(), j, x);
        assert(cs.update(j, x).drop_last() =~= cs.drop_last().update(j, x));
    } else {
        assert(cs.update(j, x).drop_last() =~= cs.drop_last());
    }
}

proof fn lemma_events_cost_insert(s: Seq<ExecutionGasEvent>, p: int, e: ExecutionGasEvent)
    requires
        0 <= p <= s.len(),
    ensures
        events_cost(s.insert(p, e)) == events_cost(s) + event_cost(e),
    decreases s.len(),
{
    if p == s.len() {
        assert(s.insert(p, e).drop_last() =~= s);
    } else {
        lemma_events_cost_insert(s.drop_last(), p, e);
        assert(s.insert(p, e).drop_last() =~= s.drop_last().insert(p, e));
    }
}

/// The text of each string.
pub open spec fn texts(v: Seq<String>) -> Seq<Seq<char>> {
    Seq::new(v.len(), |i: int| v[i]@)
}

fn strings_eq(a: &Vec<String>, b: &Vec<String>) -> (r: bool)
    ensures
        r == (texts(a@) == texts(b@)),
{
    if a.len() != b.len() {
        assert(texts(a@).len() != texts(b@).len());
        return false;
    }
    let mut i: usize = 0;
    while i < a.len()
        invariant
            a@.len() == b@.len(),
            i <= a@.len(),
            forall|k: int| 0 <= k < i ==> a@[k]@ == b@[k]@,
        decreases a@.len() - i,
    {
        if a[i] != b[i] {
            assert(texts(a@)[i as int] != texts(b@)[i as int]);
            return false;
        }
        i += 1;
    }
    assert(texts(a@) =~= texts(b@));
    true
}

/// Two instruction keys name the same instruction.
pub open spec fn same_instruction(a: InstructionKey, b: InstructionKey) -> bool {
    match (a, b) {
        (InstructionKey::Bytecode { op: x }, InstructionKey::Bytecode { op: y }) => x == y,
        (
            InstructionKey::CallNative { module_id: m1, fn_name: f1, ty_args: t1 },
            InstructionKey::CallNative { module_id: m2, fn_name: f2, ty_args: t2 },
        ) => m1@ == m2@ && f1@ == f2@ && texts(t1@) == texts(t2@),
        (
            InstructionKey::LoadResource { addr: a1, ty: y1 },
            InstructionKey::LoadResource { addr: a2, ty: y2 },
        ) => a1.bytes@ == a2.bytes@ && y1@ == y2@,
        (InstructionKey::CreateTy, InstructionKey::CreateTy) => true,
        _ => false,
    }
}

fn instruction_eq(a: &InstructionKey, b: &InstructionKey) -> (r: bool)
    ensures
        r == same_instruction(*a, *b),
{
    match (a, b) {
        (InstructionKey::Bytecode { op: x }, InstructionKey::Bytecode { op: y }) => *x == *y,
        (
            InstructionKey::CallNative { module_id: m1, fn_name: f1, ty_args: t1 },
            InstructionKey::CallNative { module_id: m2, fn_name: f2, ty_args: t2 },
        ) => *m1 == *m2 && *f1 == *f2 && strings_eq(t1, t2),
        (
            InstructionKey::LoadResource { addr: a1, ty: y1 },
            InstructionKey::LoadResource { addr: a2, ty: y2 },
        ) => {
            let c = crate::types::compare_bytes(&a1.bytes, &a2.bytes);
            proof {
                crate::types::lemma_lex_cmp_equal(a1.bytes@, a2.bytes@);
            }
            matches!(c, core::cmp::Ordering::Equal) && *y1 == *y2
        },
        (InstructionKey::CreateTy, InstructionKey::CreateTy) => true,
        _ => false,
    }
}

/// Two frame names, compared by their text.
pub open spec fn same_frame_name(a: FrameName, b: FrameName) -> bool {
    match (a, b) {
        (FrameName::Script, FrameName::Script) => true,
        (
            FrameName::Function { module_id: m1, name: n1, ty_args: t1 },
            FrameName::Function { module_id: m2, name: n2, ty_args: t2 },
        ) => m1@ == m2@ && n1@ == n2@ && texts(t1@) == texts(t2@),
        _ => false,
    }
}

fn frame_name_eq(a: &FrameName, b: &FrameName) -> (r: bool)
    ensures
        r == same_frame_name(*a, *b),
{
    match (a, b) {
        (FrameName::Script, FrameName::Script) => true,
        (
            FrameName::Function { module_id: m1, name: n1, ty_args: t1 },
            FrameName::Function { module_id: m2, name: n2, ty_args: t2 },
        ) => *m1 == *m2 && *n1 == *n2 && strings_eq(t1, t2),
        _ => false,
    }
}

/// The value a frame's events are ordered by when unfolded: a leaf's cost,
/// a call's native gas.
pub open spec fn sort_key(e: ExecutionGasEvent) -> u64 {
    match e {
        ExecutionGasEvent::Loc(_) => 0,
        ExecutionGasEvent::Bytecode { cost, .. } => cost,
        ExecutionGasEvent::Call(f) => f.native_gas,
        ExecutionGasEvent::CallNative { cost, .. } => cost,
        ExecutionGasEvent::LoadResource { cost, .. } => cost,
        ExecutionGasEvent::CreateTy { cost } => cost,
    }
}

fn sort_key_of(e: &ExecutionGasEvent) -> (r: u64)
    ensures
        r == sort_key(*e),
{
    match e {
        ExecutionGasEvent::Loc(_) => 0,
        ExecutionGasEvent::Bytecode { cost, .. } => *cost,
        ExecutionGasEvent::Call(f) => f.native_gas,
        ExecutionGasEvent::CallNative { cost, .. } => *cost,
        ExecutionGasEvent::LoadResource { cost, .. } => *cost,
        ExecutionGasEvent::CreateTy { cost } => *cost,
    }
}

/// Events in non-increasing order of their sort key.
pub open spec fn sorted_by_cost_desc(s: Seq<ExecutionGasEvent>) -> bool {
    forall|i: int, j: int| 0 <= i < j < s.len() ==> sort_key(s[i]) >= sort_key(s[j])
}

/// Orders events by decreasing sort key; among equal keys the later event
/// comes first.
fn sort_events_desc(events: Vec<ExecutionGasEvent>) -> (r: Vec<ExecutionGasEvent>)
    requires
        forall|i: int| 0 <= i < events@.len() ==> #[trigger] event_ok(events@[i]),
        keys_distinct(events@),
    ensures
        forall|i: int| 0 <= i < r@.len() ==> #[trigger] event_ok(r@[i]),
        keys_distinct(r@),
        sorted_by_cost_desc(r@),
        events_cost(r@) == events_cost(events@),
        events_native(r@) == events_native(events@),
        r@.len() == events@.len(),
{
    let ghost orig = events@;
    let mut rest = events;
    let mut out: Vec<ExecutionGasEvent> = Vec::new();
    let ghost k: int = 0;
    let ghost idx: Seq<int> = Seq::empty();
    assert(orig.skip(0) =~= orig);
    while rest.len() > 0
        invariant
            0 <= k <= orig.len(),
            rest@ == orig.skip(k),
            forall|i: int| 0 <= i < orig.len() ==> #[trigger] event_ok(orig[i]),
            keys_distinct(orig),
            idx.len() == out@.len(),
            forall|a: int| 0 <= a < idx.len() ==> 0 <= #[trigger] idx[a] < k && out@[a] == orig[idx[a]],
            forall|a: int, b: int| 0 <= a < idx.len() && 0 <= b < idx.len() && a != b ==> idx[a] != idx[b],
            sorted_by_cost_desc(out@),
            out@.len() == k,
            events_cost(out@) == events_cost(orig.take(k)),
            events_native(out@) == events_native(orig.take(k)),
        decreases rest@.len(),
    {
        let e = rest.remove(0);
        proof {
            assert(orig.skip(k).drop_first() =~= orig.skip(k + 1));
            assert(e == orig[k]);
            assert(orig.take(k + 1).drop_last() =~= orig.take(k));
        }
        let key = sort_key_of(&e);
        let mut p: usize = 0;
        while p < out.len() && sort_key_of(&out[p]) > key
            invariant
                p <= out@.len(),
                forall|q: int| 0 <= q < p ==> sort_key(out@[q]) > key,
            decreases out@.len() - p,
        {
            p += 1;
        }
        let ghost before = out@;
        proof {
            lemma_events_cost_insert(before, p as int, e);
            lemma_events_native_insert(before, p as int, e);
        }
        out.insert(p, e);
        proof {
            let old_idx = idx;
            idx = idx.insert(p as int, k);
            assert forall|a: int| 0 <= a < idx.len() implies 0 <= #[trigger] idx[a] < k + 1 && out@[a] == orig[idx[a]] by {
                if a < p {
                    assert(idx[a] == old_idx[a]);
                } else if a > p {
                    assert(idx[a] == old_idx[a - 1]);
                }
            }
            assert forall|a: int, b: int| 0 <= a < idx.len() && 0 <= b < idx.len() && a != b implies idx[a] != idx[b] by {
                if a != p && b != p {
                    let a2 = if a < p { a } else { a - 1 };
                    let b2 = if b < p { b } else { b - 1 };
                    assert(idx[a] == old_idx[a2] && idx[b] == old_idx[b2]);
                } else if a == p {
                    let b2 = if b < p { b } else { b - 1 };
                    assert(idx[b] == old_idx[b2]);
                } else {
                    let a2 = if a < p { a } else { a - 1 };
                    assert(idx[a] == old_idx[a2]);
                }
            }
            k = k + 1;
            let t = out@;
            assert forall|a: int, b: int| 0 <= a < b < t.len() implies sort_key(t[a]) >= sort_key(t[b]) by {
                if a < p && b == p {
                } else if a < p && b > p {
                    assert(t[b] == before[b - 1]);
                } else if a == p && b > p {
                    assert(t[b] == before[b - 1]);
                    if p < before.len() {
                        assert(sort_key(before[p as int]) <= key);
                    }
                } else if a > p {
                    assert(t[a] == before[a - 1] && t[b] == before[b - 1]);
                }
            }
        }
    }
    assert(orig.take(k) =~= orig);
    assert forall|i: int, j: int| 0 <= i < out@.len() && 0 <= j < out@.len() && i != j implies !same_event_key(
        out@[i],
        out@[j],
    ) by {
        assert(out@[i] == orig[idx[i]] && out@[j] == orig[idx[j]]);
    }
    assert forall|i: int| 0 <= i < out@.len() implies #[trigger] event_ok(out@[i]) by {
        assert(out@[i] == orig[idx[i]]);
    }
    out
}

impl FoldedCallFrame {
    pub fn empty() -> (r: Self)
        ensures
            r.self_gas == 0,
            folded_cost(r) == 0,
            r.instructions@.len() == 0,
            r.children@.len() == 0,
            folded_wf(r),
    {
        let r = FoldedCallFrame { self_gas: 0, instructions: Vec::new(), children: Vec::new() };
        assert(instruction_costs(r.instructions@) =~= Seq::<u64>::empty());
        r
    }

    /// Adds `cost` to the entry of `key`, or adds the entry.
    fn add_instruction(&mut self, key: InstructionKey, cost: u64)
        requires
            instrs_unique(old(self).instructions@),
        ensures
            instrs_unique(final(self).instructions@),
            final(self).self_gas == old(self).self_gas,
            final(self).children@ == old(self).children@,
            folded_cost(*old(self)) + cost <= u64::MAX ==> folded_cost(*final(self)) == folded_cost(*old(self))
                + cost,
            forall|j: int|
                0 <= j < old(self).instructions@.len() && same_instruction(old(self).instructions@[j].0, key)
                    ==> final(self).instructions@ == old(self).instructions@.update(
                    j,
                    (old(self).instructions@[j].0, sat_add(old(self).instructions@[j].1, cost)),
                ),
            (forall|j: int|
                0 <= j < old(self).instructions@.len() ==> !same_instruction(old(self).instructions@[j].0, key))
                ==> final(self).instructions@ == old(self).instructions@.push((key, cost)),
            entries_kept(*old(self), *final(self)),
            instr_covered(*final(self), key),
    {
        proof {
            lemma_sum_u64_nonneg(instruction_costs(self.instructions@));
            lemma_children_cost_nonneg(self.children@);
        }
        let mut j: usize = 0;
        while j < self.instructions.len() && !instruction_eq(&self.instructions[j].0, &key)
            invariant
                j <= self.instructions@.len(),
                forall|q: int| 0 <= q < j ==> !same_instruction((#[trigger] self.instructions@[q]).0, key),
            decreases self.instructions@.len() - j,
        {
            j += 1;
        }
        let ghost before = self.instructions@;
        if j < self.instructions.len() {
            let (k, c) = self.instructions.remove(j);
            let merged = saturating(c, cost);
            self.instructions.insert(j, (k, merged));
            proof {
                assert(self.instructions@ =~= before.update(j as int, (before[j as int].0, merged)));
                assert forall|q: int| 0 <= q < before.len() && same_instruction(before[q].0, key) implies q == j by {
                    if q != j {
                        assert(!same_instruction(before[q].0, before[j as int].0));
                    }
                }
                assert(instruction_costs(self.instructions@) =~= instruction_costs(before).update(j as int, merged));
                lemma_sum_update(instruction_costs(before), j as int, merged);
                assert forall|a: int, b: int|
                    0 <= a < self.instructions@.len() && 0 <= b < self.instructions@.len() && a != b implies !same_instruction(
                    self.instructions@[a].0,
                    self.instructions@[b].0,
                ) by {
                    assert(self.instructions@[a].0 == before[a].0 && self.instructions@[b].0 == before[b].0);
                }
            }
        } else {
            self.instructions.push((key, cost));
            proof {
                assert(instruction_costs(self.instructions@).drop_last() =~= instruction_costs(before));
                assert forall|a: int, b: int|
                    0 <= a < self.instructions@.len() && 0 <= b < self.instructions@.len() && a != b implies !same_instruction(
                    self.instructions@[a].0,
                    self.instructions@[b].0,
                ) by {
                    if a < before.len() {
                        assert(self.instructions@[a] == before[a]);
                    }
                    if b < before.len() {
                        assert(self.instructions@[b] == before[b]);
                    }
                }
            }
        }
        proof {
            assert forall|q: int| 0 <= q < old(self).instructions@.len() implies instr_covered(
                *self,
                (#[trigger] old(self).instructions@[q]).0,
            ) by {
                assert(self.instructions@[q].0 == old(self).instructions@[q].0);
                assert(same_instruction(self.instructions@[q].0, old(self).instructions@[q].0));
            }
            assert forall|q: int| 0 <= q < old(self).children@.len() implies child_covered(
                *self,
                (#[trigger] old(self).children@[q]).0,
            ) by {
                assert(same_frame_name(self.children@[q].0, old(self).children@[q].0));
            }
            if j < before.len() {
                assert(same_instruction(self.instructions@[j as int].0, key));
            } else {
                assert(same_instruction(self.instructions@[before.len() as int].0, key));
            }
        }
    }

    /// Folds a frame's events into this one: leaf events summed per
    /// instruction, location markers dropped, calls merged per callee.
    pub fn combine(&mut self, events: Vec<ExecutionGasEvent>, native_gas: u64)
        requires
            folded_wf(*old(self)),
        ensures
            folded_wf(*final(self)),
            final(self).self_gas == sat_add(old(self).self_gas, native_gas),
            folded_cost(*old(self)) + events_cost(events@) <= u64::MAX ==> folded_cost(*final(self))
                == folded_cost(*old(self)) + events_cost(events@),
            folded_native(*old(self)) + events_native(events@) <= u64::MAX ==> folded_native(*final(self))
                == folded_native(*old(self)) + events_native(events@),
            entries_kept(*old(self), *final(self)),
            forall|q: int| 0 <= q < events@.len() ==> event_covered(*final(self), #[trigger] events@[q]),
        decreases events@,
    {
        self.self_gas = saturating(self.self_gas, native_gas);
        let ghost init = *self;
        proof {
            lemma_entries_kept_refl(init);
        }
        let ghost orig = events@;
        let ghost start = folded_cost(*self);
        let ghost nstart = folded_native(*self);
        proof {
            lemma_events_native_nonneg(orig);
            lemma_folded_native_nonneg(*self);
        }
        let ghost gas = self.self_gas;
        let mut rest = events;
        let ghost k: int = 0;
        assert(orig.skip(0) =~= orig);
        proof {
            lemma_events_cost_nonneg(orig);
            lemma_folded_cost_nonneg(*self);
        }
        while rest.len() > 0
            invariant
                0 <= k <= orig.len(),
                rest@ == orig.skip(k),
                self.self_gas == gas,
                start >= 0,
                folded_wf(*self),
                start + events_cost(orig) <= u64::MAX ==> folded_cost(*self) == start + events_cost(
                    orig.take(k),
                ),
                nstart >= 0,
                nstart + events_native(orig) <= u64::MAX ==> folded_native(*self) == nstart + events_native(
                    orig.take(k),
                ),
                orig == events@,
                entries_kept(init, *self),
                init.instructions@ == old(self).instructions@,
                init.children@ == old(self).children@,
                forall|q: int| 0 <= q < k ==> event_covered(*self, #[trigger] orig[q]),
            decreases rest@.len(),
        {
            let e = rest.remove(0);
            let ghost pre = *self;
            proof {
                assert(orig.skip(k).drop_first() =~= orig.skip(k + 1));
                assert(e == orig[k]);
                assert(orig.take(k + 1).drop_last() =~= orig.take(k));
                assert(orig.take(k + 1).last() == orig[k]);
                assert(events_cost(orig.take(k + 1)) == events_cost(orig.take(k)) + event_cost(e));
                lemma_events_cost_nonneg(orig.take(k + 1));
                lemma_events_cost_prefix(orig, k + 1);
                lemma_event_cost_nonneg(e);
                lemma_events_cost_nonneg(orig.take(k));
                assert(events_native(orig.take(k + 1)) == events_native(orig.take(k)) + event_native(e));
                lemma_events_native_nonneg(orig.take(k));
                lemma_events_native_prefix(orig, k + 1);
                lemma_event_native_nonneg(e);
            }
            match e {
                ExecutionGasEvent::Loc(_) => {
                    proof {
                        lemma_entries_kept_refl(pre);
                    }
                },
                ExecutionGasEvent::Bytecode { op, cost } => {
                    self.add_instruction(InstructionKey::Bytecode { op }, cost);
                },
                ExecutionGasEvent::CallNative { module_id, fn_name, ty_args, cost } => {
                    self.add_instruction(InstructionKey::CallNative { module_id, fn_name, ty_args }, cost);
                },
                ExecutionGasEvent::LoadResource { addr, ty, cost } => {
                    self.add_instruction(InstructionKey::LoadResource { addr, ty }, cost);
                },
                ExecutionGasEvent::CreateTy { cost } => {
                    self.add_instruction(InstructionKey::CreateTy, cost);
                },
                ExecutionGasEvent::Call(frame) => {
                    let CallFrame { name, events: child_events, native_gas: child_gas } = frame;
                    proof {
                        assert(decreases_to!(orig => orig[k]));
                    }
                    let mut j: usize = 0;
                    while j < self.children.len() && !frame_name_eq(&self.children[j].0, &name)
                        invariant
                            j <= self.children@.len(),
                            forall|q: int| 0 <= q < j ==> !same_frame_name((#[trigger] self.children@[q]).0, name),
                        decreases self.children@.len() - j,
                    {
                        j += 1;
                    }
                    let ghost before = *self;
                    proof {
                        lemma_sum_u64_nonneg(instruction_costs(self.instructions@));
                    }
                    if j < self.children.len() {
                        let (n, mut child) = self.children.remove(j);
                        let ghost old_child = child;
                        proof {
                            assert(before.children@[j as int] == (n, old_child));
                            lemma_children_cost_nonneg(before.children@);
                            lemma_children_part(before.children@, j as int);
                            lemma_children_wf_part(before.children@, j as int);
                            lemma_children_native_part(before.children@, j as int);
                            lemma_events_native_nonneg(child_events@);
                            lemma_folded_native_nonneg(old_child);
                            assert(folded_native(before) == children_native(before.children@));
                        }
                        child.combine(child_events, child_gas);
                        let ghost new_child = child;
                        self.children.insert(j, (n, child));
                        proof {
                            assert(self.children@ =~= before.children@.update(j as int, (n, new_child)));
                            lemma_children_update(before.children@, j as int, (n, new_child));
                            assert(event_cost(orig[k]) == events_cost(child_events@));
                            lemma_children_wf_update(before.children@, j as int, (n, new_child));
                            lemma_children_native_update(before.children@, j as int, (n, new_child));
                            assert(event_native(orig[k]) == child_gas + events_native(child_events@));
                            assert forall|q: int| 0 <= q < pre.children@.len() implies child_covered(
                                *self,
                                (#[trigger] pre.children@[q]).0,
                            ) by {
                                assert(same_frame_name(self.children@[q].0, pre.children@[q].0));
                            }
                            assert forall|q: int| 0 <= q < pre.instructions@.len() implies instr_covered(
                                *self,
                                (#[trigger] pre.instructions@[q]).0,
                            ) by {
                                assert(same_instruction(self.instructions@[q].0, pre.instructions@[q].0));
                            }
                            assert(same_frame_name(self.children@[j as int].0, name));
                            assert(folded_native(before) == children_native(before.children@));
                            assert(folded_native(*self) == children_native(self.children@));
                            assert forall|a: int, b: int|
                                0 <= a < self.children@.len() && 0 <= b < self.children@.len() && a != b implies !same_frame_name(
                                self.children@[a].0,
                                self.children@[b].0,
                            ) by {
                                assert(self.children@[a].0 == before.children@[a].0);
                                assert(self.children@[b].0 == before.children@[b].0);
                            }
                        }
                    } else {
                        let mut child = FoldedCallFrame::empty();
                        assert(folded_native(child) == children_native(child.children@));
                        assert(children_native(child.children@) == 0);
                        child.combine(child_events, child_gas);
                        let ghost new_child = child;
                        self.children.push((name, child));
                        proof {
                            assert(self.children@.drop_last() =~= before.children@);
                            assert(self.children@.last() == (name, new_child));
                            assert forall|q: int| 0 <= q < pre.children@.len() implies child_covered(
                                *self,
                                (#[trigger] pre.children@[q]).0,
                            ) by {
                                assert(self.children@[q] == pre.children@[q]);
                                assert(same_frame_name(self.children@[q].0, pre.children@[q].0));
                            }
                            assert forall|q: int| 0 <= q < pre.instructions@.len() implies instr_covered(
                                *self,
                                (#[trigger] pre.instructions@[q]).0,
                            ) by {
                                assert(same_instruction(self.instructions@[q].0, pre.instructions@[q].0));
                            }
                            assert(same_frame_name(self.children@[self.children@.len() - 1].0, name));
                            assert(event_cost(orig[k]) == events_cost(child_events@));
                            assert(event_native(orig[k]) == child_gas + events_native(child_events@));
                            lemma_events_native_nonneg(child_events@);
                            assert(folded_native(before) == children_native(before.children@));
                            assert(children_native(self.children@) == children_native(before.children@) + new_child.self_gas
                                + folded_native(new_child));
                            assert(folded_native(*self) == children_native(self.children@));
                            assert forall|a: int, b: int|
                                0 <= a < self.children@.len() && 0 <= b < self.children@.len() && a != b implies !same_frame_name(
                                self.children@[a].0,
                                self.children@[b].0,
                            ) by {
                                if a < before.children@.len() {
                                    assert(self.children@[a] == before.children@[a]);
                                }
                                if b < before.children@.len() {
                                    assert(self.children@[b] == before.children@[b]);
                                }
                            }
                        }
                    }
                },
            }
            proof {
                assert(entries_kept(pre, *self) && event_covered(*self, orig[k]));
                lemma_entries_kept_trans(init, pre, *self);
                assert forall|q: int| 0 <= q < k + 1 implies event_covered(*self, #[trigger] orig[q]) by {
                    if q < k {
                        lemma_cover_kept(pre, *self, orig[q]);
                    }
                }
            }
            assert(start + events_cost(orig) <= u64::MAX ==> folded_cost(*self) == start + events_cost(
                orig.take(k + 1),
            ));
            proof {
                k = k + 1;
            }
        }
        assert(orig.take(k) =~= orig);
        proof {
            assert forall|i: int| 0 <= i < old(self).instructions@.len() implies instr_covered(
                *self,
                (#[trigger] old(self).instructions@[i]).0,
            ) by {
                assert(instr_covered(*self, init.instructions@[i].0));
            }
            assert forall|i: int| 0 <= i < old(self).children@.len() implies child_covered(
                *self,
                (#[trigger] old(self).children@[i]).0,
            ) by {
                assert(child_covered(*self, init.children@[i].0));
            }
        }
    }

    /// The frame again, with its summed events ordered by decreasing cost.
    pub fn unfold(self, name: FrameName) -> (r: CallFrame)
        requires
            folded_wf(self),
        ensures
            folded_well(r),
            r.name == name,
            r.native_gas == self.self_gas,
            events_cost(r.events@) == folded_cost(self),
            events_native(r.events@) == folded_native(self),
            sorted_by_cost_desc(r.events@),
        decreases folded_size(self), 1int,
    {
        let FoldedCallFrame { self_gas, instructions, children } = self;
        let mut events: Vec<ExecutionGasEvent> = Vec::new();
        let ghost instrs = instructions@;
        let mut instructions = instructions;
        let ghost k: int = 0;
        assert(instrs.skip(0) =~= instrs);
        while instructions.len() > 0
            invariant
                0 <= k <= instrs.len(),
                instructions@ == instrs.skip(k),
                events_cost(events@) == sum_u64(instruction_costs(instrs.take(k))),
                events_native(events@) == 0,
                events@.len() == k,
                forall|a: int|
                    0 <= a < k ==> event_ok(#[trigger] events@[a]) && !(events@[a] is Call) && !(events@[a] is Loc)
                        && instr_key_of(events@[a]) == instrs[a].0,
                instrs_unique(instrs),
                names_unique(children@),
                children_wf(children@),
            decreases instructions@.len(),
        {
            let (key, cost) = instructions.remove(0);
            proof {
                assert(instrs.skip(k).drop_first() =~= instrs.skip(k + 1));
                assert(instruction_costs(instrs.take(k + 1)).drop_last() =~= instruction_costs(instrs.take(k)));
                assert(instrs[k].1 == cost);
                assert(instruction_costs(instrs.take(k + 1)).last() == cost);
            }
            let e = match key {
                InstructionKey::Bytecode { op } => ExecutionGasEvent::Bytecode { op, cost },
                InstructionKey::CallNative { module_id, fn_name, ty_args } => ExecutionGasEvent::CallNative {
                    module_id,
                    fn_name,
                    ty_args,
                    cost,
                },
                InstructionKey::LoadResource { addr, ty } => ExecutionGasEvent::LoadResource { addr, ty, cost },
                InstructionKey::CreateTy => ExecutionGasEvent::CreateTy { cost },
            };
            assert(event_cost(e) == cost);
            assert(event_native(e) == 0);
            let ghost before = events@;
            events.push(e);
            proof {
                assert(events@.drop_last() =~= before);
                assert(events@.last() == e);
                assert(instrs[k].0 == instr_key_of(e));
                assert forall|a: int| 0 <= a < k + 1 implies event_ok(#[trigger] events@[a]) && !(events@[a] is Call)
                    && !(events@[a] is Loc) && instr_key_of(events@[a]) == instrs[a].0 by {
                    if a < k {
                        assert(events@[a] == before[a]);
                    }
                }
                k = k + 1;
            }
        }
        assert(instrs.take(k) =~= instrs);
        let ghost leaf_total = events_cost(events@);
        let ghost kids = children@;
        let mut calls = unfold_children(children, Ghost(children_size(children@)));
        let ghost e1 = events@;
        let ghost e2 = calls@;
        events.append(&mut calls);
        proof {
            assert(events@ =~= e1 + e2);
            lemma_events_cost_concat(e1, e2);
            lemma_events_native_concat(e1, e2);
            assert(folded_native(self) == children_native(kids));
            let es = events@;
            assert forall|i: int| 0 <= i < es.len() implies #[trigger] event_ok(es[i]) by {
                if i < e1.len() {
                    assert(es[i] == e1[i]);
                } else {
                    assert(es[i] == e2[i - e1.len()]);
                }
            }
            assert forall|i: int, j: int| 0 <= i < es.len() && 0 <= j < es.len() && i != j implies !same_event_key(
                es[i],
                es[j],
            ) by {
                if i < e1.len() && j < e1.len() {
                    assert(es[i] == e1[i] && es[j] == e1[j]);
                    assert(!same_instruction(instrs[i].0, instrs[j].0));
                    assert(instr_key_of(e1[i]) == instrs[i].0);
                    assert(instr_key_of(e1[j]) == instrs[j].0);
                    assert(!(e1[i] is Call) && !(e1[i] is Loc) && !(e1[j] is Call) && !(e1[j] is Loc));
                } else if i >= e1.len() && j >= e1.len() {
                    assert(es[i] == e2[i - e1.len()] && es[j] == e2[j - e1.len()]);
                    assert(!same_frame_name(kids[i - e1.len()].0, kids[j - e1.len()].0));
                    assert(e2[i - e1.len()] is Call && e2[j - e1.len()] is Call);
                    assert(e2[i - e1.len()]->Call_0.name == kids[i - e1.len()].0);
                    assert(e2[j - e1.len()]->Call_0.name == kids[j - e1.len()].0);
                } else if i < e1.len() {
                    assert(es[i] == e1[i] && es[j] == e2[j - e1.len()]);
                    assert(!(e1[i] is Call) && e2[j - e1.len()] is Call);
                } else {
                    assert(es[j] == e1[j] && es[i] == e2[i - e1.len()]);
                    assert(!(e1[j] is Call) && e2[i - e1.len()] is Call);
                }
            }
        }
        let sorted = sort_events_desc(events);
        proof {
            lemma_all_ok_pointwise(sorted@);
        }
        CallFrame { name, events: sorted, native_gas: self_gas }
    }
}

/// One call event per child, each child unfolded under its name.
fn unfold_children(children: Vec<(FrameName, FoldedCallFrame)>, Ghost(bound): Ghost<nat>) -> (r: Vec<
    ExecutionGasEvent,
>)
    requires
        children_size(children@) <= bound,
        children_wf(children@),
    ensures
        events_cost(r@) == children_cost(children@),
        events_native(r@) == children_native(children@),
        r@.len() == children@.len(),
        forall|a: int|
            0 <= a < r@.len() ==> event_ok(#[trigger] r@[a]) && r@[a] is Call && r@[a]->Call_0.name == children@[a].0,
    decreases bound, 2int,
{
    let ghost kids = children@;
    let mut rest = children;
    let mut events: Vec<ExecutionGasEvent> = Vec::new();
    let ghost m: int = 0;
    assert(kids.skip(0) =~= kids);
    assert(children_cost(kids.take(0)) == 0 && children_native(kids.take(0)) == 0) by {
        assert(kids.take(0) =~= Seq::<(FrameName, FoldedCallFrame)>::empty());
    }
    while rest.len() > 0
        invariant
            0 <= m <= kids.len(),
            rest@ == kids.skip(m),
            events_cost(events@) == children_cost(kids.take(m)),
            events_native(events@) == children_native(kids.take(m)),
            children_size(kids) <= bound,
            children_wf(kids),
            events@.len() == m,
            forall|a: int|
                0 <= a < m ==> event_ok(#[trigger] events@[a]) && events@[a] is Call && events@[a]->Call_0.name
                    == kids[a].0,
        decreases rest@.len(),
    {
        let (child_name, child) = rest.remove(0);
        proof {
            assert(kids.skip(m).drop_first() =~= kids.skip(m + 1));
            assert(kids.take(m + 1).drop_last() =~= kids.take(m));
            assert(kids[m] == (child_name, child));
            assert(kids.take(m + 1).last() == kids[m]);
            lemma_children_size_part(kids, m);
            assert(folded_size(child) <= children_size(kids));
            lemma_children_wf_part(kids, m);
        }
        let unfolded = child.unfold(child_name);
        let ghost before = events@;
        let ghost call = ExecutionGasEvent::Call(unfolded);
        assert(event_cost(call) == events_cost(unfolded.events@));
        assert(event_native(call) == unfolded.native_gas + events_native(unfolded.events@));
        events.push(ExecutionGasEvent::Call(unfolded));
        proof {
            assert(events@.drop_last() =~= before);
            assert(events@.last() == call);
            assert(event_ok(call));
            assert forall|a: int| 0 <= a < m + 1 implies event_ok(#[trigger] events@[a]) && events@[a] is Call
                && events@[a]->Call_0.name == kids[a].0 by {
                if a < m {
                    assert(events@[a] == before[a]);
                }
            }
            m = m + 1;
        }
    }
    assert(kids.take(m) =~= kids);
    events
}

proof fn lemma_events_cost_prefix(s: Seq<ExecutionGasEvent>, k: int)
    requires
        0 <= k <= s.len(),
    ensures
        events_cost(s.take(k)) <= events_cost(s),
    decreases s.len(),
{
    if k < s.len() {
        lemma_events_cost_prefix(s.drop_last(), k);
        assert(s.drop_last().take(k) =~= s.take(k));
        lemma_event_cost_nonneg(s.last());
    } else {
        assert(s.take(k) =~= s);
    }
}

proof fn lemma_children_part(cs: Seq<(FrameName, FoldedCallFrame)>, j: int)
    requires
        0 <= j < cs.len(),
    ensures
        folded_cost(cs[j].1) <= children_cost(cs),
    decreases cs.len(),
{
    lemma_children_cost_nonneg(cs.drop_last());
    lemma_folded_cost_nonneg(cs.last().1);
    if j < cs.len() - 1 {
        lemma_children_part(cs.drop_last(), j);
    }
}

impl CallFrame {
    /// The frame with its events summed per instruction and its calls merged
    /// per callee, each level ordered by decreasing cost. The leaf costs add
    /// up as before when their sum fits in 64 bits.
    pub fn fold(self) -> (r: CallFrame)
        ensures
            same_name(r.name, self.name),
            r.native_gas == self.native_gas,
            events_cost(self.events@) <= u64::MAX ==> events_cost(r.events@) == events_cost(self.events@),
            sorted_by_cost_desc(r.events@),
            folded_well(r),
            events_native(self.events@) <= u64::MAX ==> events_native(r.events@) == events_native(self.events@),
    {
        let name = copy_name(&self.name);
        let CallFrame { name: _, events, native_gas } = self;
        let mut folded = FoldedCallFrame::empty();
        folded.combine(events, native_gas);
        folded.unfold(name)
    }
}

} // verus!

verus! {

/// `left` followed by `right`.
pub fn vec_concat<T>(left: Vec<T>, right: Vec<T>) -> (r: Vec<T>)
    ensures
        r@ == left@ + right@,
{
    let mut left = left;
    let mut right = right;
    left.append(&mut right);
    left
}

} // verus!

verus! {

/// The instruction a leaf event is summed under.
pub open spec fn instr_key_of(e: ExecutionGasEvent) -> InstructionKey {
    match e {
        ExecutionGasEvent::Bytecode { op, .. } => InstructionKey::Bytecode { op },
        ExecutionGasEvent::CallNative { module_id, fn_name, ty_args, .. } => InstructionKey::CallNative {
            module_id,
            fn_name,
            ty_args,
        },
        ExecutionGasEvent::LoadResource { addr, ty, .. } => InstructionKey::LoadResource { addr, ty },
        _ => InstructionKey::CreateTy,
    }
}

/// Two events of a folded frame would be merged: two calls of the same
/// callee, or two leaf events of the same instruction.
pub open spec fn same_event_key(a: ExecutionGasEvent, b: ExecutionGasEvent) -> bool {
    match (a, b) {
        (ExecutionGasEvent::Call(f), ExecutionGasEvent::Call(g)) => same_frame_name(f.name, g.name),
        (ExecutionGasEvent::Call(_), _) => false,
        (_, ExecutionGasEvent::Call(_)) => false,
        (ExecutionGasEvent::Loc(_), _) => false,
        (_, ExecutionGasEvent::Loc(_)) => false,
        _ => same_instruction(instr_key_of(a), instr_key_of(b)),
    }
}

/// No two events of `es` would be merged.
pub open spec fn keys_distinct(es: Seq<ExecutionGasEvent>) -> bool {
    forall|i: int, j: int| 0 <= i < es.len() && 0 <= j < es.len() && i != j ==> !same_event_key(es[i], es[j])
}

/// An event of a folded tree: no location marker, and a call's frame is
/// folded in turn.
pub open spec fn event_ok(e: ExecutionGasEvent) -> bool
    decreases e,
{
    match e {
        ExecutionGasEvent::Loc(_) => false,
        ExecutionGasEvent::Call(f) => all_ok(f.events@) && keys_distinct(f.events@),
        _ => true,
    }
}

pub open spec fn all_ok(es: Seq<ExecutionGasEvent>) -> bool
    decreases es,
{
    if es.len() == 0 {
        true
    } else {
        all_ok(es.drop_last()) && event_ok(es.last())
    }
}

/// A folded frame: no location markers at any depth, and in every frame one
/// event per instruction and per callee name.
pub open spec fn folded_well(f: CallFrame) -> bool {
    all_ok(f.events@) && keys_distinct(f.events@)
}

proof fn lemma_all_ok_pointwise(es: Seq<ExecutionGasEvent>)
    ensures
        all_ok(es) <==> forall|i: int| 0 <= i < es.len() ==> #[trigger] event_ok(es[i]),
    decreases es.len(),
{
    if es.len() > 0 {
        lemma_all_ok_pointwise(es.drop_last());
        if forall|i: int| 0 <= i < es.len() ==> #[trigger] event_ok(es[i]) {
            assert forall|i: int| 0 <= i < es.drop_last().len() implies #[trigger] event_ok(es.drop_last()[i]) by {
                assert(es.drop_last()[i] == es[i]);
            }
            assert(event_ok(es[es.len() - 1]));
        }
        if all_ok(es) {
            assert forall|i: int| 0 <= i < es.len() implies #[trigger] event_ok(es[i]) by {
                if i < es.len() - 1 {
                    assert(es.drop_last()[i] == es[i]);
                }
            }
        }
    }
}

pub open spec fn instrs_unique(s: Seq<(InstructionKey, u64)>) -> bool {
    forall|i: int, j: int| 0 <= i < s.len() && 0 <= j < s.len() && i != j ==> !same_instruction(s[i].0, s[j].0)
}

pub open spec fn names_unique(cs: Seq<(FrameName, FoldedCallFrame)>) -> bool {
    forall|i: int, j: int| 0 <= i < cs.len() && 0 <= j < cs.len() && i != j ==> !same_frame_name(cs[i].0, cs[j].0)
}

/// A folded frame with one entry per instruction and per callee name, at
/// every depth.
pub open spec fn folded_wf(f: FoldedCallFrame) -> bool
    decreases f,
{
    instrs_unique(f.instructions@) && names_unique(f.children@) && children_wf(f.children@)
}

pub open spec fn children_wf(cs: Seq<(FrameName, FoldedCallFrame)>) -> bool
    decreases cs,
{
    if cs.len() == 0 {
        true
    } else {
        children_wf(cs.drop_last()) && folded_wf(cs.last().1)
    }
}

proof fn lemma_children_wf_part(cs: Seq<(FrameName, FoldedCallFrame)>, j: int)
    requires
        0 <= j < cs.len(),
        children_wf(cs),
    ensures
        folded_wf(cs[j].1),
    decreases cs.len(),
{
    if j < cs.len() - 1 {
        lemma_children_wf_part(cs.drop_last(), j);
    }
}

proof fn lemma_children_wf_update(cs: Seq<(FrameName, FoldedCallFrame)>, j: int, x: (FrameName, FoldedCallFrame))
    requires
        0 <= j < cs.len(),
        children_wf(cs),
        folded_wf(x.1),
    ensures
        children_wf(cs.update(j, x)),
    decreases cs.len(),
{
    if j < cs.len() - 1 {
        lemma_children_wf_update(cs.drop_last(), j, x);
        assert(cs.update(j, x).drop_last() =~= cs.drop_last().update(j, x));
    } else {
        assert(cs.update(j, x).drop_last() =~= cs.drop_last());
    }
}

} // verus!

verus! {

/// Native gas of all frames called below the events `es`.
pub open spec fn events_native(es: Seq<ExecutionGasEvent>) -> int
    decreases es,
{
    if es.len() == 0 {
        0
    } else {
        events_native(es.drop_last()) + event_native(es.last())
    }
}

pub open spec fn event_native(e: ExecutionGasEvent) -> int
    decreases e,
{
    match e {
        ExecutionGasEvent::Call(f) => f.native_gas + events_native(f.events@),
        _ => 0,
    }
}

/// Native gas of all frames below a folded frame.
pub open spec fn folded_native(f: FoldedCallFrame) -> int
    decreases f,
{
    children_native(f.children@)
}

pub open spec fn children_native(cs: Seq<(FrameName, FoldedCallFrame)>) -> int
    decreases cs,
{
    if cs.len() == 0 {
        0
    } else {
        children_native(cs.drop_last()) + cs.last().1.self_gas + folded_native(cs.last().1)
    }
}

pub proof fn lemma_events_native_nonneg(es: Seq<ExecutionGasEvent>)
    ensures
        events_native(es) >= 0,
    decreases es,
{
    if es.len() > 0 {
        lemma_events_native_nonneg(es.drop_last());
        lemma_event_native_nonneg(es.last());
    }
}

pub proof fn lemma_event_native_nonneg(e: ExecutionGasEvent)
    ensures
        event_native(e) >= 0,
    decreases e,
{
    if let ExecutionGasEvent::Call(f) = e {
        lemma_events_native_nonneg(f.events@);
    }
}

pub proof fn lemma_folded_native_nonneg(f: FoldedCallFrame)
    ensures
        folded_native(f) >= 0,
    decreases f,
{
    lemma_children_native_nonneg(f.children@);
}

pub proof fn lemma_children_native_nonneg(cs: Seq<(FrameName, FoldedCallFrame)>)
    ensures
        children_native(cs) >= 0,
    decreases cs,
{
    if cs.len() > 0 {
        lemma_children_native_nonneg(cs.drop_last());
        lemma_folded_native_nonneg(cs.last().1);
    }
}

proof fn lemma_children_native_update(cs: Seq<(FrameName, FoldedCallFrame)>, j: int, x: (FrameName, FoldedCallFrame))
    requires
        0 <= j < cs.len(),
    ensures
        children_native(cs.update(j, x)) == children_native(cs) - cs[j].1.self_gas - folded_native(cs[j].1)
            + x.1.self_gas + folded_native(x.1),
    decreases cs.len(),
{
    if j < cs.len() - 1 {
        lemma_children_native_update(cs.drop_last(), j, x);
        assert(cs.update(j, x).drop_last() =~= cs.drop_last().update(j, x));
    } else {
        assert(cs.update(j, x).drop_last() =~= cs.drop_last());
    }
}

proof fn lemma_children_native_part(cs: Seq<(FrameName, FoldedCallFrame)>, j: int)
    requires
        0 <= j < cs.len(),
    ensures
        cs[j].1.self_gas + folded_native(cs[j].1) <= children_native(cs),
    decreases cs.len(),
{
    lemma_children_native_nonneg(cs.drop_last());
    lemma_folded_native_nonneg(cs.last().1);
    if j < cs.len() - 1 {
        lemma_children_native_part(cs.drop_last(), j);
    }
}

proof fn lemma_events_native_prefix(s: Seq<ExecutionGasEvent>, k: int)
    requires
        0 <= k <= s.len(),
    ensures
        events_native(s.take(k)) <= events_native(s),
    decreases s.len(),
{
    if k < s.len() {
        lemma_events_native_prefix(s.drop_last(), k);
        assert(s.drop_last().take(k) =~= s.take(k));
        lemma_event_native_nonneg(s.last());
    } else {
        assert(s.take(k) =~= s);
    }
}

proof fn lemma_events_native_insert(s: Seq<ExecutionGasEvent>, p: int, e: ExecutionGasEvent)
    requires
        0 <= p <= s.len(),
    ensures
        events_native(s.insert(p, e)) == events_native(s) + event_native(e),
    decreases s.len(),
{
    if p == s.len() {
        assert(s.insert(p, e).drop_last() =~= s);
    } else {
        lemma_events_native_insert(s.drop_last(), p, e);
        assert(s.insert(p, e).drop_last() =~= s.drop_last().insert(p, e));
    }
}

proof fn lemma_events_native_concat(a: Seq<ExecutionGasEvent>, b: Seq<ExecutionGasEvent>)
    ensures
        events_native(a + b) == events_native(a) + events_native(b),
    decreases b.len(),
{
    if b.len() > 0 {
        lemma_events_native_concat(a, b.drop_last());
        assert((a + b).drop_last() =~= a + b.drop_last());
    } else {
        assert(a + b =~= a);
    }
}

} // verus!

verus! {

/// Some entry of `f` is for instruction `k`.
pub open spec fn instr_covered(f: FoldedCallFrame, k: InstructionKey) -> bool {
    exists|i: int| 0 <= i < f.instructions@.len() && same_instruction(#[trigger] f.instructions@[i].0, k)
}

/// Some child of `f` is for callee `n`.
pub open spec fn child_covered(f: FoldedCallFrame, n: FrameName) -> bool {
    exists|i: int| 0 <= i < f.children@.len() && same_frame_name(#[trigger] f.children@[i].0, n)
}

/// The entry an event is folded into exists in `f`: its instruction's for a
/// leaf, its callee's for a call (location markers fold into nothing).
pub open spec fn event_covered(f: FoldedCallFrame, e: ExecutionGasEvent) -> bool {
    match e {
        ExecutionGasEvent::Loc(_) => true,
        ExecutionGasEvent::Call(g) => child_covered(f, g.name),
        _ => instr_covered(f, instr_key_of(e)),
    }
}

/// Every entry of `a` has one for the same instruction or callee in `b`.
pub open spec fn entries_kept(a: FoldedCallFrame, b: FoldedCallFrame) -> bool {
    &&& forall|i: int| 0 <= i < a.instructions@.len() ==> instr_covered(b, (#[trigger] a.instructions@[i]).0)
    &&& forall|i: int| 0 <= i < a.children@.len() ==> child_covered(b, (#[trigger] a.children@[i]).0)
}

proof fn lemma_cover_kept(a: FoldedCallFrame, b: FoldedCallFrame, e: ExecutionGasEvent)
    requires
        entries_kept(a, b),
        event_covered(a, e),
    ensures
        event_covered(b, e),
{
    match e {
        ExecutionGasEvent::Loc(_) => {},
        ExecutionGasEvent::Call(g) => {
            let i = choose|i: int| 0 <= i < a.children@.len() && same_frame_name(#[trigger] a.children@[i].0, g.name);
            assert(child_covered(b, a.children@[i].0));
            let j = choose|j: int| 0 <= j < b.children@.len() && same_frame_name(#[trigger] b.children@[j].0, a.children@[i].0);
            assert(same_frame_name(b.children@[j].0, g.name));
        },
        _ => {
            let k = instr_key_of(e);
            let i = choose|i: int| 0 <= i < a.instructions@.len() && same_instruction(#[trigger] a.instructions@[i].0, k);
            assert(instr_covered(b, a.instructions@[i].0));
            let j = choose|j: int|
                0 <= j < b.instructions@.len() && same_instruction(#[trigger] b.instructions@[j].0, a.instructions@[i].0);
            assert(same_instruction(b.instructions@[j].0, k));
        },
    }
}

proof fn lemma_entries_kept_trans(a: FoldedCallFrame, b: FoldedCallFrame, c: FoldedCallFrame)
    requires
        entries_kept(a, b),
        entries_kept(b, c),
    ensures
        entries_kept(a, c),
{
    assert forall|i: int| 0 <= i < a.instructions@.len() implies instr_covered(c, (#[trigger] a.instructions@[i]).0) by {
        let j = choose|j: int|
            0 <= j < b.instructions@.len() && same_instruction(#[trigger] b.instructions@[j].0, a.instructions@[i].0);
        assert(instr_covered(c, b.instructions@[j].0));
        let k = choose|k: int|
            0 <= k < c.instructions@.len() && same_instruction(#[trigger] c.instructions@[k].0, b.instructions@[j].0);
        assert(same_instruction(c.instructions@[k].0, a.instructions@[i].0));
    }
    assert forall|i: int| 0 <= i < a.children@.len() implies child_covered(c, (#[trigger] a.children@[i]).0) by {
        let j = choose|j: int| 0 <= j < b.children@.len() && same_frame_name(#[trigger] b.children@[j].0, a.children@[i].0);
        assert(child_covered(c, b.children@[j].0));
        let k = choose|k: int| 0 <= k < c.children@.len() && same_frame_name(#[trigger] c.children@[k].0, b.children@[j].0);
        assert(same_frame_name(c.children@[k].0, a.children@[i].0));
    }
}

proof fn lemma_entries_kept_refl(a: FoldedCallFrame)
    ensures
        entries_kept(a, a),
{
    assert forall|i: int| 0 <= i < a.instructions@.len() implies instr_covered(a, (#[trigger] a.instructions@[i]).0) by {
        assert(same_instruction(a.instructions@[i].0, a.instructions@[i].0));
    }
    assert forall|i: int| 0 <= i < a.children@.len() implies child_covered(a, (#[trigger] a.children@[i]).0) by {
        assert(same_frame_name(a.children@[i].0, a.children@[i].0));
    }
}

} // verus!
