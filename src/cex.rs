//! Order-book value types carried by exchange transactions.

use vstd::prelude::*;

verus! {

/// Number of asset slots an account tracks.
pub const ASSETS_SIZE: usize = 256;

/// Number of perpetual slots an account tracks, and the length of every
/// funding-rate vector.
pub const PERPS_SIZE: usize = 256;

/// Length of a subaccount identifier in bytes.
pub const ACCOUNT_ID_LENGTH: usize = 20;

/// Length of an order identifier in bytes.
pub const ORDER_ID_LENGTH: usize = 20;

/// Trading pairs the order book supports.
#[derive(Clone, Copy, Debug, Hash, Eq, PartialEq)]
pub enum ClobPair {
    Unspecified,
    BtcUsdcSpot,
    BtcUsdcPerpetual,
    EthUsdcSpot,
    EthUsdcPerpetual,
}

/// Quantity of one asset held by an account.
#[derive(Clone, Copy, Debug, Hash, Eq, PartialEq)]
pub struct AssetPosition {
    pub asset_id: u32,
    pub quantums: u64,
}

/// A perpetual position; quantities need 128-bit precision.
#[derive(Clone, Copy, Debug, Hash, Eq, PartialEq)]
pub struct PerpetualPosition {
    pub perpetual_id: u32,
    pub short_quantums: i128,
    pub long_quantums: i128,
    pub funding_index: i128,
}

/// Owner bytes plus the subaccount number under that owner.
#[derive(Clone, Copy, Debug, Hash, Eq, PartialEq)]
pub struct SubaccountId {
    pub subaccount_id: [u8; 20],
    pub number: u32,
}

/// Trigger condition of a conditional order.
#[derive(Clone, Copy, Debug, Hash, Eq, PartialEq)]
pub enum ConditionType {
    Unspecified,
    StopLoss,
    TakeProfit,
}

/// How long an order stays on the book.
#[derive(Clone, Copy, Debug, Hash, Eq, PartialEq)]
pub enum GoodTill {
    Block,
    Gtc,
    Gtd,
}

/// Execution constraint of an order: immediate-or-cancel, fill-or-kill,
/// all-or-none, or post-only.
#[derive(Clone, Copy, Debug, Hash, Eq, PartialEq)]
pub enum TimeInForce {
    Unspecified,
    Ioc,
    Fok,
    Aon,
    Alo,
}

/// Lifecycle state of an order.
#[derive(Clone, Copy, Debug, Hash, Eq, PartialEq)]
pub enum OrderState {
    Unspecified,
    Pending,
    Validated,
    Active,
    PartiallyFilled,
    Filled,
    Cancelled,
    Rejected,
}

/// Buy or sell.
#[derive(Clone, Copy, Debug, Hash, Eq, PartialEq)]
pub enum Side {
    Unspecified,
    Buy,
    Sell,
}

/// What the order asks the book to do.
#[derive(Clone, Copy, Debug, Hash, Eq, PartialEq)]
pub enum Operation {
    Unspecified,
    Place,
    Cancel,
    Replace,
}

/// Origin category of an order.
#[derive(Clone, Copy, Debug, Hash, Eq, PartialEq)]
pub enum OrderCateType {
    Regular,
    Liquidation,
    Adl,
    Funding,
}

/// An exchange order as submitted to the chain.
#[derive(Clone, Copy, Debug, Hash, Eq, PartialEq)]
pub struct Order {
    pub subaccount_id: SubaccountId,
    pub nonce: u64,
    pub clob_pair: ClobPair,
    pub side: Side,
    pub quantums: u64,
    pub subticks: u64,
    pub order_basic_type: u32,
    pub good_till: GoodTill,
    pub time_in_force: TimeInForce,
    pub reduce_only: bool,
    pub condition_type: ConditionType,
    pub trigger_subticks: u64,
    pub operation: Operation,
    /// Exchange-supplied creation time; it decides fairness among orders.
    pub timestamp: u64,
    pub target_nonce: u64,
    pub order_id: [u8; 20],
    pub state: OrderState,
    pub remaining_quantums: u64,
    pub fill_amount: u64,
    pub cate_type: OrderCateType,
    pub seq_num: u64,
}

/// A fill between a maker and a taker order.
#[derive(Clone, Copy, Debug, Hash, Eq, PartialEq)]
pub struct FillOrder {
    pub fill_id: [u8; 20],
    pub trade_id: [u8; 20],
    pub maker_order_id: [u8; 20],
    pub taker_order_id: [u8; 20],
    pub fill_quantums: u64,
    pub timestamp: u64,
}

/// Reply of the order book; it carries no data yet.
#[derive(Clone, Debug, Hash, Eq, PartialEq)]
pub struct Response {}

/// An account with its asset and perpetual positions.
#[derive(Clone, Debug, Hash, Eq, PartialEq)]
pub struct Account {
    pub id: SubaccountId,
    pub assets_size: u32,
    pub perps_size: u32,
    pub assets: Vec<AssetPosition>,
    pub perps: Vec<PerpetualPosition>,
}

/// Funding rates sampled at one block, one rate per perpetual.
#[derive(Clone, Debug, Hash, Eq, PartialEq)]
pub struct FundingSamplingEpoch {
    pub timestamp: u64,
    pub block_height: u64,
    pub rate: Vec<u64>,
}

/// Funding rates settled at one block, one rate per perpetual.
#[derive(Clone, Debug, Hash, Eq, PartialEq)]
pub struct FundingSettlementEpoch {
    pub timestamp: u64,
    pub block_height: u64,
    pub rate: Vec<u64>,
}

/// The message a rate vector of the wrong length is refused with.
pub fn rate_length_error() -> (r: String)
    ensures
        r@ == "Rate vector must have exactly 256 elements"@,
{
    "Rate vector must have exactly 256 elements".to_owned()
}

impl FundingSamplingEpoch {
    /// An epoch whose rates are all zero.
    pub fn new(timestamp: u64, block_height: u64) -> (r: Self)
        ensures
            r.timestamp == timestamp,
            r.block_height == block_height,
            r.rate@ == Seq::new(PERPS_SIZE as nat, |i: int| 0u64),
    {
        let rate = vec![0u64; PERPS_SIZE];
        assert(rate@ =~= Seq::new(PERPS_SIZE as nat, |i: int| 0u64));
        FundingSamplingEpoch { timestamp, block_height, rate }
    }

    /// An epoch with the given rates; refused unless there is one rate per
    /// perpetual.
    pub fn with_rate(timestamp: u64, block_height: u64, rate: Vec<u64>) -> (r: Result<Self, String>)
        ensures
            rate@.len() == PERPS_SIZE ==> (r matches Ok(e) && e.timestamp == timestamp
                && e.block_height == block_height && e.rate@ == rate@),
            rate@.len() != PERPS_SIZE ==> (r matches Err(m)
                && m@ == "Rate vector must have exactly 256 elements"@),
    {
        if rate.len() != PERPS_SIZE {
            return Err(rate_length_error());
        }
        Ok(FundingSamplingEpoch { timestamp, block_height, rate })
    }
}

impl FundingSettlementEpoch {
    /// An epoch whose rates are all zero.
    pub fn new(timestamp: u64, block_height: u64) -> (r: Self)
        ensures
            r.timestamp == timestamp,
            r.block_height == block_height,
            r.rate@ == Seq::new(PERPS_SIZE as nat, |i: int| 0u64),
    {
        let rate = vec![0u64; PERPS_SIZE];
        assert(rate@ =~= Seq::new(PERPS_SIZE as nat, |i: int| 0u64));
        FundingSettlementEpoch { timestamp, block_height, rate }
    }

    /// An epoch with the given rates; refused unless there is one rate per
    /// perpetual.
    pub fn with_rate(timestamp: u64, block_height: u64, rate: Vec<u64>) -> (r: Result<Self, String>)
        ensures
            rate@.len() == PERPS_SIZE ==> (r matches Ok(e) && e.timestamp == timestamp
                && e.block_height == block_height && e.rate@ == rate@),
            rate@.len() != PERPS_SIZE ==> (r matches Err(m)
                && m@ == "Rate vector must have exactly 256 elements"@),
    {
        if rate.len() != PERPS_SIZE {
            return Err(rate_length_error());
        }
        Ok(FundingSettlementEpoch { timestamp, block_height, rate })
    }
}

/// An exchange order wrapped as a transaction payload.
#[derive(Clone, Copy, Debug, Hash, Eq, PartialEq)]
pub struct CEXOrder {
    pub order: Order,
}

impl CEXOrder {
    pub fn new(order: Order) -> (r: Self)
        ensures
            r.order == order,
    {
        CEXOrder { order }
    }
}

} // verus!
