//! A transaction as the mempool holds it: the payload class, the sender and
//! replay protector, and the bookkeeping the indexes read and write.

use vstd::prelude::*;
use crate::priority::TransactionPayload;
use crate::types::{AccountAddress, HashValue, ReplayProtector};

verus! {

/// Where a transaction stands in the broadcast timeline.
#[derive(Clone, Copy, Debug, Eq, PartialEq)]
pub enum TimelineState {
    /// Broadcast-ready under this timeline id.
    Ready(u64),
    /// Not yet executable (a sequence gap); parked.
    NotReady,
    /// Never to be broadcast from this node.
    NonQualified,
}

/// An admitted transaction. Times are microseconds since the Unix epoch.
#[derive(Clone, Copy, Debug)]
pub struct MempoolTransaction {
    pub payload: TransactionPayload,
    pub sender: AccountAddress,
    pub replay_protector: ReplayProtector,
    pub ranking_score: u64,
    pub expiration_time: u64,
    pub insertion_time: u64,
    pub committed_hash: HashValue,
    pub timeline_state: TimelineState,
    pub park_time: Option<u64>,
    pub was_parked: bool,
}

} // verus!
