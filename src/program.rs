use vstd::prelude::*;
use crate::assets::{Asset, AssetList};
use crate::location::{Junction, Location};
use crate::weight::Weight;

verus! {

/// Oldest message version the engine handles.
pub const MIN_VERSION: u32 = 2;

/// How much weight `BuyExecution` may buy.
#[derive(Clone, Copy, Debug, PartialEq, Eq, Structural)]
pub enum WeightLimit {
    Unlimited,
    Limited(Weight),
}

/// As whom a dispatched call runs.
#[derive(Clone, Copy, Debug, PartialEq, Eq, Structural)]
pub enum OriginKind {
    /// The origin's native account.
    Native,
    /// The sovereign account of the origin.
    SovereignAccount,
    /// The superuser; only the local system itself may dispatch so.
    Superuser,
}

/// A call dispatched by `Transact`, as the host decoded it: the weight it consumes
/// and whether it succeeds.
#[derive(Clone, Copy, Debug, PartialEq, Eq, Structural)]
pub struct Call {
    pub weight: Weight,
    pub succeeds: bool,
}

/// What a trap entry is claimed by beside its origin and contents: the message version
/// under which the assets were trapped.
#[derive(Clone, Copy, Debug, PartialEq, Eq, Structural)]
pub struct Ticket {
    pub version: u32,
}

/// Payload of a `QueryResponse`.
#[derive(Debug)]
pub enum Response {
    Null,
    Assets(AssetList),
    Version(u32),
}

/// One instruction of a program.
#[derive(Debug)]
pub enum Instruction {
    WithdrawAsset(Asset),
    ReserveAssetDeposited(Asset),
    ReceiveTeleportedAsset(Asset),
    QueryResponse { query_id: u64, response: Response },
    BuyExecution { fees: Asset, weight_limit: WeightLimit },
    DepositAsset { asset: Asset, beneficiary: Location },
    Transact { origin_kind: OriginKind, require_weight_at_most: Weight, call: Call },
    DescendOrigin(Vec<Junction>),
    ClearOrigin,
    InitiateTeleport { asset: Asset, dest: Location, beneficiary: Location },
    InitiateReserveWithdraw { asset: Asset, reserve: Location, beneficiary: Location },
    ReportHolding { dest: Location, query_id: u64 },
    ClaimAsset { assets: AssetList, ticket: Ticket },
    SubscribeVersion { query_id: u64 },
}

/// A message: instructions to run in order, tagged with the format version.
#[derive(Debug)]
pub struct Program {
    pub version: u32,
    pub instructions: Vec<Instruction>,
}

/// A program handed to the router for `dest`.
#[derive(Debug)]
pub struct Outbound {
    pub dest: Location,
    pub program: Program,
}

} // verus!
