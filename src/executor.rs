use vstd::prelude::*;
use crate::assets::{Asset, AssetList};
use crate::ledger::Ledger;
use crate::location::{Junction, Location};
use crate::program::{Call, Instruction, OriginKind, Outbound, Program, Response, Ticket, WeightLimit};
use crate::traps::{TrapRegistry, trap_post};
use crate::versions::{VersionNegotiator, VersionState, min_u32, subscribed_post};
use crate::weight::{Weight, WeightMeter, fits, sat_u64, min_u64};

verus! {

/// Why a program stopped, or was refused before it started.
#[derive(Clone, Copy, Debug, PartialEq, Eq, Structural)]
pub enum XcmError {
    Overweight,
    FailedToTransactAsset,
    BadOrigin,
    NotHoldingFees,
    UnknownClaim,
    UntrustedReserveLocation,
    UnhandledXcmVersion,
    Barrier,
}

/// Outcome of the latest call dispatched by `Transact`.
#[derive(Clone, Copy, Debug, PartialEq, Eq, Structural)]
pub enum TransactStatus {
    Unset,
    Success,
    Failed,
}

/// The execution context of one program run.
#[derive(Debug)]
pub struct Registers {
    pub origin: Option<Location>,
    pub holding: AssetList,
    /// Index of the failed instruction and why it failed; set once.
    pub error: Option<(usize, XcmError)>,
    pub weight_credit: Weight,
    pub transact_status: TransactStatus,
}

pub open spec fn origin_of(r: &Registers) -> Option<(u8, Seq<Junction>)> {
    match r.origin {
        Some(o) => Some(o@),
        None => None,
    }
}

impl Registers {
    pub open spec fn wf(&self) -> bool {
        &&& self.holding.wf()
        &&& self.origin matches Some(o) ==> o.wf()
    }

    /// Fresh registers for a run on behalf of `origin`.
    pub fn new(origin: Location) -> (r: Registers)
        ensures
            r.holding.wf(),
            origin.wf() ==> r.wf(),
            origin_of(&r) == Some(origin@),
            r.holding.is_empty_spec(),
            r.error is None,
            r.weight_credit == Weight::zero_spec(),
            r.transact_status == TransactStatus::Unset,
    {
        Registers {
            origin: Some(origin),
            holding: AssetList::new(),
            error: None,
            weight_credit: Weight::zero(),
            transact_status: TransactStatus::Unset,
        }
    }
}

/// A response received for a query, other than a version notice.
#[derive(Debug)]
pub struct QueryRecord {
    pub query_id: u64,
    pub responder: Location,
    pub response: Response,
}

/// The host's choices for the engine.
#[derive(Debug)]
pub struct Config {
    /// The only asset class accepted for fees.
    pub fee_asset: u64,
    /// Execution time bought by one unit of the fee asset.
    pub ref_time_per_unit: u64,
    /// Proof size bought by one unit of the fee asset.
    pub proof_size_per_unit: u64,
    /// Account that receives paid fees.
    pub fee_account: Location,
    /// Locations trusted as teleporters and as reserves.
    pub trusted: Vec<Location>,
    /// Fixed cost of every instruction but `Transact`.
    pub base_weight: Weight,
    /// Highest message version the local system speaks.
    pub local_version: u32,
    /// Longest program accepted.
    pub max_instructions: usize,
}

/// Weight bought by `amount` units of the fee asset.
pub open spec fn price(c: &Config, amount: u128) -> Weight {
    Weight {
        ref_time: sat_u64(amount * c.ref_time_per_unit),
        proof_size: sat_u64(amount * c.proof_size_per_unit),
    }
}

pub open spec fn capped(w: Weight, limit: WeightLimit) -> Weight {
    match limit {
        WeightLimit::Unlimited => w,
        WeightLimit::Limited(l) => Weight {
            ref_time: min_u64(w.ref_time, l.ref_time),
            proof_size: min_u64(w.proof_size, l.proof_size),
        },
    }
}

pub open spec fn trusted_spec(c: &Config, w: (u8, Seq<Junction>)) -> bool {
    exists|i: int| 0 <= i < c.trusted@.len() && c.trusted@[i]@ == w
}

/// The engine together with the state that outlives one run.
#[derive(Debug)]
pub struct Executor {
    pub config: Config,
    pub ledger: Ledger,
    pub traps: TrapRegistry,
    pub versions: VersionNegotiator,
    /// Programs handed to the router, oldest first.
    pub outbox: Vec<Outbound>,
    pub responses: Vec<QueryRecord>,
    pub next_query_id: u64,
}

/// Version at which a message to `d` goes out.
pub open spec fn send_version(e: &Executor, d: (u8, Seq<Junction>)) -> u32 {
    match e.versions.state(d) {
        Some(st) => match st.known_version {
            Some(v) => min_u32(v, e.config.local_version),
            None => min_u32(e.versions.default_version, e.config.local_version),
        },
        None => min_u32(e.versions.default_version, e.config.local_version),
    }
}

/// `e1` is `e0` after sending `instrs` to `d`: the message goes out at the negotiated version,
/// preceded by a subscription request when `d` was not known.
pub open spec fn sent(e0: &Executor, e1: &Executor, d: (u8, Seq<Junction>), instrs: Seq<Instruction>) -> bool {
    &&& sent_core(e0, e1, d, instrs)
    &&& e1.versions.subscribers == e0.versions.subscribers
}

/// As `sent`, saying nothing of the subscribers.
pub open spec fn sent_core(e0: &Executor, e1: &Executor, d: (u8, Seq<Junction>), instrs: Seq<Instruction>) -> bool {
    let n = e0.outbox@.len();
    let first = e0.versions.state(d) is None;
    &&& e1.outbox@.len() == n + 1 + (if first { 1int } else { 0int })
    &&& e1.outbox@.subrange(0, n as int) == e0.outbox@
    &&& e1.outbox@.last().dest@ == d
    &&& e1.outbox@.last().program.version == send_version(e0, d)
    &&& e1.outbox@.last().program.instructions@ == instrs
    &&& first ==> e1.outbox@[n as int].dest@ == d
        && e1.outbox@[n as int].program.instructions@ == seq![Instruction::SubscribeVersion { query_id: e0.next_query_id }]
        && e1.next_query_id == e0.next_query_id.wrapping_add(1)
        && VersionNegotiator::states_set(&e0.versions, &e1.versions, d, VersionState { known_version: None, subscribed: true })
    &&& !first ==> e1.next_query_id == e0.next_query_id && e1.versions.entries == e0.versions.entries
        && e1.versions.default_version == e0.versions.default_version
    &&& e1.ledger == e0.ledger
    &&& e1.traps == e0.traps
    &&& e1.responses == e0.responses
    &&& e1.config == e0.config
}

impl Executor {
    pub open spec fn wf(&self) -> bool {
        &&& self.ledger.wf()
        &&& self.traps.wf()
        &&& self.versions.wf()
        &&& self.config.fee_account.wf()
        &&& self.config.local_version >= crate::program::MIN_VERSION
        &&& self.config.max_instructions >= 1
    }

    /// An engine with empty ledger, trap registry and version table.
    pub fn new(config: Config, default_version: u32) -> (r: Executor)
        requires
            config.fee_account.wf(),
            config.local_version >= crate::program::MIN_VERSION,
            config.max_instructions >= 1,
        ensures
            r.wf(),
            r.config == config,
            r.outbox@.len() == 0,
            r.versions.default_version == default_version,
    {
        Executor {
            config,
            ledger: Ledger::new(),
            traps: TrapRegistry::new(),
            versions: VersionNegotiator::new(default_version),
            outbox: Vec::new(),
            responses: Vec::new(),
            next_query_id: 0,
        }
    }

    pub fn is_trusted(&self, who: &Location) -> (r: bool)
        ensures
            r == trusted_spec(&self.config, who@),
    {
        let mut i: usize = 0;
        while i < self.config.trusted.len()
            invariant
                i <= self.config.trusted@.len(),
                forall|k: int| 0 <= k < i ==> self.config.trusted@[k]@ != who@,
            decreases self.config.trusted@.len() - i,
        {
            if self.config.trusted[i].same(who) {
                return true;
            }
            i = i + 1;
        }
        false
    }

    /// Hands `instructions` to the router for `dest`, at the version negotiated with it.
    pub fn send(&mut self, dest: &Location, instructions: Vec<Instruction>)
        requires
            old(self).wf(),
        ensures
            final(self).wf(),
            sent(old(self), final(self), dest@, instructions@),
    {
        let w = self.versions.wrap_version(dest, self.config.local_version);
        if w.subscribe {
            let query_id = self.next_query_id;
            self.next_query_id = self.next_query_id.wrapping_add(1);
            let sub = vec![Instruction::SubscribeVersion { query_id }];
            self.outbox.push(Outbound { dest: dest.copy(), program: Program { version: w.version, instructions: sub } });
        }
        let ghost mid = self.outbox@;
        self.outbox.push(Outbound { dest: dest.copy(), program: Program { version: w.version, instructions } });
        proof {
            assert(self.outbox@.subrange(0, old(self).outbox@.len() as int) =~= old(self).outbox@);
            let n = old(self).outbox@.len();
            let first = old(self).versions.state(dest@) is None;
            assert(self.outbox@.len() == n + 1 + (if first { 1int } else { 0int }));
            assert(self.outbox@.last().program.version == send_version(old(self), dest@));
            assert(first ==> self.outbox@[n as int].dest@ == dest@);
            assert(first ==> self.outbox@[n as int].program.instructions@ == seq![Instruction::SubscribeVersion { query_id: old(self).next_query_id }]);
            assert(!first ==> self.versions == old(self).versions);
        }
    }
}

/// Every register but the holding is as in `r0`.
pub open spec fn regs_but_holding(r0: &Registers, r1: &Registers) -> bool {
    &&& r1.origin == r0.origin
    &&& r1.error == r0.error
    &&& r1.weight_credit == r0.weight_credit
    &&& r1.transact_status == r0.transact_status
}

/// Everything of the engine but the ledger is as in `e0`.
pub open spec fn all_but_ledger(e0: &Executor, e1: &Executor) -> bool {
    &&& e1.config == e0.config
    &&& e1.traps == e0.traps
    &&& e1.versions == e0.versions
    &&& e1.outbox == e0.outbox
    &&& e1.responses == e0.responses
    &&& e1.next_query_id == e0.next_query_id
}

/// The holding of `r1` is that of `r0` with `add` more and `sub` less of class `id`.
pub open spec fn holding_moved(r0: &Registers, r1: &Registers, id: u64, add: nat, sub: nat) -> bool {
    &&& r1.holding.amount(id) + sub == r0.holding.amount(id) + add
    &&& forall|o: u64| o != id ==> #[trigger] r1.holding.amount(o) == r0.holding.amount(o)
}

pub open spec fn withdraw_post(e0: &Executor, e1: &Executor, r0: &Registers, r1: &Registers, a: Asset, res: Result<(), XcmError>) -> bool {
    match origin_of(r0) {
        None => res == Err::<(), XcmError>(XcmError::BadOrigin) && *e1 == *e0 && *r1 == *r0,
        Some(o) => if r0.holding.amount(a.id) + a.amount > u128::MAX || e0.ledger.balance(o, a.id) < a.amount {
            res == Err::<(), XcmError>(XcmError::FailedToTransactAsset) && *e1 == *e0 && *r1 == *r0
        } else {
            &&& res is Ok
            &&& e1.ledger.balance(o, a.id) + a.amount == e0.ledger.balance(o, a.id)
            &&& e1.ledger.same_except(&e0.ledger, o, a.id)
            &&& all_but_ledger(e0, e1)
            &&& holding_moved(r0, r1, a.id, a.amount as nat, 0)
            &&& regs_but_holding(r0, r1)
        },
    }
}

pub open spec fn receive_post(e: &Executor, r0: &Registers, r1: &Registers, a: Asset, teleported: bool, res: Result<(), XcmError>) -> bool {
    match origin_of(r0) {
        None => res == Err::<(), XcmError>(XcmError::BadOrigin) && *r1 == *r0,
        Some(o) => if !trusted_spec(&e.config, o) {
            res == Err::<(), XcmError>(if teleported { XcmError::BadOrigin } else { XcmError::UntrustedReserveLocation })
                && *r1 == *r0
        } else if r0.holding.amount(a.id) + a.amount > u128::MAX {
            res == Err::<(), XcmError>(XcmError::FailedToTransactAsset) && *r1 == *r0
        } else {
            res is Ok && holding_moved(r0, r1, a.id, a.amount as nat, 0) && regs_but_holding(r0, r1)
        },
    }
}

/// How much of `a` the holding can give: all of it, or what there is.
pub open spec fn available(r: &Registers, a: Asset) -> nat {
    if a.amount <= r.holding.amount(a.id) { a.amount as nat } else { r.holding.amount(a.id) }
}

pub open spec fn deposit_post(e0: &Executor, e1: &Executor, r0: &Registers, r1: &Registers, a: Asset, ben: (u8, Seq<Junction>), res: Result<(), XcmError>) -> bool {
    let n = available(r0, a);
    if e0.ledger.balance(ben, a.id) + n > u128::MAX {
        res == Err::<(), XcmError>(XcmError::FailedToTransactAsset) && *e1 == *e0 && *r1 == *r0
    } else {
        &&& res is Ok
        &&& e1.ledger.balance(ben, a.id) == e0.ledger.balance(ben, a.id) + n
        &&& e1.ledger.same_except(&e0.ledger, ben, a.id)
        &&& all_but_ledger(e0, e1)
        &&& holding_moved(r0, r1, a.id, 0, n)
        &&& regs_but_holding(r0, r1)
    }
}

pub open spec fn buy_post(e0: &Executor, e1: &Executor, r0: &Registers, r1: &Registers, fees: Asset, limit: WeightLimit, res: Result<(), XcmError>) -> bool {
    let sink = e0.config.fee_account@;
    if r0.holding.amount(fees.id) < fees.amount {
        res == Err::<(), XcmError>(XcmError::NotHoldingFees) && *e1 == *e0 && *r1 == *r0
    } else if fees.id != e0.config.fee_asset || e0.ledger.balance(sink, fees.id) + fees.amount > u128::MAX {
        res == Err::<(), XcmError>(XcmError::FailedToTransactAsset) && *e1 == *e0 && *r1 == *r0
    } else {
        let credit = capped(price(&e0.config, fees.amount), limit);
        &&& res is Ok
        &&& e1.ledger.balance(sink, fees.id) == e0.ledger.balance(sink, fees.id) + fees.amount
        &&& e1.ledger.same_except(&e0.ledger, sink, fees.id)
        &&& all_but_ledger(e0, e1)
        &&& holding_moved(r0, r1, fees.id, 0, fees.amount as nat)
        &&& r1.weight_credit.ref_time == sat_u64(r0.weight_credit.ref_time + credit.ref_time)
        &&& r1.weight_credit.proof_size == sat_u64(r0.weight_credit.proof_size + credit.proof_size)
        &&& r1.origin == r0.origin
        &&& r1.error == r0.error
        &&& r1.transact_status == r0.transact_status
    }
}

pub open spec fn transact_post(r0: &Registers, r1: &Registers, m0: &WeightMeter, m1: &WeightMeter, kind: OriginKind, require: Weight, call: Call, res: Result<(), XcmError>) -> bool {
    match origin_of(r0) {
        None => res == Err::<(), XcmError>(XcmError::BadOrigin) && *r1 == *r0 && *m1 == *m0,
        Some(o) => if kind == OriginKind::Superuser && o != crate::location::here_view() {
            res == Err::<(), XcmError>(XcmError::BadOrigin) && *r1 == *r0 && *m1 == *m0
        } else if !fits(call.weight, require) {
            res == Err::<(), XcmError>(XcmError::Overweight) && *r1 == *r0 && *m1 == *m0
        } else {
            &&& res is Ok
            &&& r1.transact_status == (if call.succeeds { TransactStatus::Success } else { TransactStatus::Failed })
            &&& r1.origin == r0.origin
            &&& r1.holding == r0.holding
            &&& r1.error == r0.error
            &&& r1.weight_credit == r0.weight_credit
            &&& m1.limit == m0.limit
            &&& m1.used.ref_time == sat_u64(m0.used.ref_time - (require.ref_time - call.weight.ref_time))
            &&& m1.used.proof_size == sat_u64(m0.used.proof_size - (require.proof_size - call.weight.proof_size))
        },
    }
}

pub open spec fn descend_post(r0: &Registers, r1: &Registers, js: Seq<Junction>, res: Result<(), XcmError>) -> bool {
    match origin_of(r0) {
        None => res == Err::<(), XcmError>(XcmError::BadOrigin) && *r1 == *r0,
        Some(o) => if o.1.len() + js.len() > crate::location::MAX_JUNCTIONS {
            res == Err::<(), XcmError>(XcmError::BadOrigin) && origin_of(r1) == origin_of(r0)
                && r1.holding == r0.holding && regs_but_origin(r0, r1)
        } else {
            res is Ok && origin_of(r1) == Some((o.0, o.1 + js)) && r1.holding == r0.holding && regs_but_origin(r0, r1)
        },
    }
}

pub open spec fn regs_but_origin(r0: &Registers, r1: &Registers) -> bool {
    &&& r1.error == r0.error
    &&& r1.weight_credit == r0.weight_credit
    &&& r1.transact_status == r0.transact_status
}

impl Executor {
    pub fn withdraw_asset(&mut self, regs: &mut Registers, a: Asset) -> (res: Result<(), XcmError>)
        requires
            old(self).wf(),
            old(regs).wf(),
        ensures
            final(self).wf(),
            final(regs).wf(),
            withdraw_post(old(self), final(self), old(regs), final(regs), a, res),
    {
        match &regs.origin {
            None => Err(XcmError::BadOrigin),
            Some(o) => {
                if !regs.holding.can_add(a) || self.ledger.balance_of(o, a.id) < a.amount {
                    return Err(XcmError::FailedToTransactAsset);
                }
                let _ = self.ledger.withdraw(o, a);
                regs.holding.subsume(a);
                Ok(())
            },
        }
    }

    pub fn receive_asset(&self, regs: &mut Registers, a: Asset, teleported: bool) -> (res: Result<(), XcmError>)
        requires
            old(regs).wf(),
        ensures
            final(regs).wf(),
            receive_post(self, old(regs), final(regs), a, teleported, res),
    {
        match &regs.origin {
            None => Err(XcmError::BadOrigin),
            Some(o) => {
                if !self.is_trusted(o) {
                    return Err(if teleported { XcmError::BadOrigin } else { XcmError::UntrustedReserveLocation });
                }
                if !regs.holding.can_add(a) {
                    return Err(XcmError::FailedToTransactAsset);
                }
                regs.holding.subsume(a);
                Ok(())
            },
        }
    }

    pub fn deposit_asset(&mut self, regs: &mut Registers, a: Asset, beneficiary: &Location) -> (res: Result<(), XcmError>)
        requires
            old(self).wf(),
            old(regs).wf(),
        ensures
            final(self).wf(),
            final(regs).wf(),
            deposit_post(old(self), final(self), old(regs), final(regs), a, beneficiary@, res),
    {
        let have = regs.holding.amount_of(a.id);
        let n = if a.amount <= have { a.amount } else { have };
        if self.ledger.balance_of(beneficiary, a.id) > u128::MAX - n {
            return Err(XcmError::FailedToTransactAsset);
        }
        let taken = regs.holding.take(a.id, n);
        let _ = self.ledger.deposit(beneficiary, Asset { id: a.id, amount: taken });
        Ok(())
    }

    pub fn buy_execution(&mut self, regs: &mut Registers, fees: Asset, limit: WeightLimit) -> (res: Result<(), XcmError>)
        requires
            old(self).wf(),
            old(regs).wf(),
        ensures
            final(self).wf(),
            final(regs).wf(),
            buy_post(old(self), final(self), old(regs), final(regs), fees, limit, res),
    {
        if regs.holding.amount_of(fees.id) < fees.amount {
            return Err(XcmError::NotHoldingFees);
        }
        if fees.id != self.config.fee_asset
            || self.ledger.balance_of(&self.config.fee_account, fees.id) > u128::MAX - fees.amount {
            return Err(XcmError::FailedToTransactAsset);
        }
        regs.holding.take(fees.id, fees.amount);
        let _ = self.ledger.deposit(&self.config.fee_account, fees);
        let bought = Weight {
            ref_time: saturating_product(fees.amount, self.config.ref_time_per_unit),
            proof_size: saturating_product(fees.amount, self.config.proof_size_per_unit),
        };
        let credit = match limit {
            WeightLimit::Unlimited => bought,
            WeightLimit::Limited(l) => bought.min(&l),
        };
        regs.weight_credit = regs.weight_credit.saturating_add(&credit);
        Ok(())
    }

    pub fn transact(&self, regs: &mut Registers, meter: &mut WeightMeter, kind: OriginKind, require: Weight, call: Call) -> (res: Result<(), XcmError>)
        requires
            old(regs).wf(),
            old(meter).wf(),
        ensures
            final(regs).wf(),
            final(meter).wf(),
            transact_post(old(regs), final(regs), old(meter), final(meter), kind, require, call, res),
    {
        match &regs.origin {
            None => Err(XcmError::BadOrigin),
            Some(o) => {
                if kind == OriginKind::Superuser && !o.is_here() {
                    return Err(XcmError::BadOrigin);
                }
                if !call.weight.all_lte(&require) {
                    return Err(XcmError::Overweight);
                }
                regs.transact_status = if call.succeeds { TransactStatus::Success } else { TransactStatus::Failed };
                meter.refund(require.saturating_sub(&call.weight));
                Ok(())
            },
        }
    }

    pub fn descend_origin(regs: &mut Registers, js: &Vec<Junction>) -> (res: Result<(), XcmError>)
        requires
            old(regs).wf(),
        ensures
            final(regs).wf(),
            descend_post(old(regs), final(regs), js@, res),
    {
        match &mut regs.origin {
            None => Err(XcmError::BadOrigin),
            Some(o) => {
                if o.descend(js) {
                    Ok(())
                } else {
                    Err(XcmError::BadOrigin)
                }
            },
        }
    }
}

/// `a * b`, or the largest `u64` when that is more.
pub fn saturating_product(a: u128, b: u64) -> (r: u64)
    ensures
        r == sat_u64(a * b),
{
    if b == 0 {
        return 0;
    }
    if a > (u64::MAX as u128) / (b as u128) {
        proof {
            assert(a * b > u64::MAX) by (nonlinear_arith)
                requires a > (u64::MAX as u128) / (b as u128), b > 0;
        }
        u64::MAX
    } else {
        proof {
            assert(a * b <= u64::MAX) by (nonlinear_arith)
                requires a <= (u64::MAX as u128) / (b as u128), b > 0;
        }
        (a * (b as u128)) as u64
    }
}

/// Two responses carry the same payload.
pub open spec fn same_response(a: &Response, b: &Response) -> bool {
    match (a, b) {
        (Response::Null, Response::Null) => true,
        (Response::Assets(x), Response::Assets(y)) => x@ == y@,
        (Response::Version(u), Response::Version(v)) => u == v,
        _ => false,
    }
}

impl Response {
    pub fn copy(&self) -> (r: Response)
        ensures
            same_response(&r, self),
    {
        match self {
            Response::Null => Response::Null,
            Response::Assets(l) => Response::Assets(l.copy()),
            Response::Version(v) => Response::Version(*v),
        }
    }
}

/// The program sent by a transfer of `n` of class `id` to be deposited to `ben`.
pub open spec fn transfer_message(instrs: Seq<Instruction>, id: u64, n: nat, ben: (u8, Seq<Junction>), teleported: bool) -> bool {
    &&& instrs.len() == 2
    &&& instrs[0] == (if teleported {
            Instruction::ReceiveTeleportedAsset(Asset { id, amount: n as u128 })
        } else {
            Instruction::ReserveAssetDeposited(Asset { id, amount: n as u128 })
        })
    &&& instrs[1] matches Instruction::DepositAsset { asset, beneficiary }
        && asset == (Asset { id, amount: n as u128 }) && beneficiary@ == ben
}

pub open spec fn transfer_post(e0: &Executor, e1: &Executor, r0: &Registers, r1: &Registers, a: Asset, dest: (u8, Seq<Junction>), ben: (u8, Seq<Junction>), teleported: bool) -> bool {
    let n = available(r0, a);
    &&& sent(e0, e1, dest, e1.outbox@.last().program.instructions@)
    &&& transfer_message(e1.outbox@.last().program.instructions@, a.id, n, ben, teleported)
    &&& holding_moved(r0, r1, a.id, 0, n)
    &&& regs_but_holding(r0, r1)
}

pub open spec fn report_post(e0: &Executor, e1: &Executor, r0: &Registers, dest: (u8, Seq<Junction>), query_id: u64) -> bool {
    let instrs = e1.outbox@.last().program.instructions@;
    &&& sent(e0, e1, dest, instrs)
    &&& instrs.len() == 1
    &&& instrs[0] matches Instruction::QueryResponse { query_id: q, response: Response::Assets(l) }
        && q == query_id && l@ == r0.holding@
}

pub open spec fn claim_asset_post(e0: &Executor, e1: &Executor, r0: &Registers, r1: &Registers, assets: &AssetList, ticket: Ticket, res: Result<(), XcmError>) -> bool {
    match origin_of(r0) {
        None => res == Err::<(), XcmError>(XcmError::BadOrigin) && *e1 == *e0 && *r1 == *r0,
        Some(o) => if !assets.wf() || e0.traps.count(o, ticket.version, assets@) == 0 {
            res == Err::<(), XcmError>(XcmError::UnknownClaim) && *e1 == *e0 && *r1 == *r0
        } else if !(forall|id: u64| r0.holding.amount(id) + assets.amount(id) <= u128::MAX) {
            res == Err::<(), XcmError>(XcmError::FailedToTransactAsset) && *e1 == *e0 && *r1 == *r0
        } else {
            &&& res is Ok
            &&& trap_post(e1.traps@, e0.traps@, o, ticket.version, assets@)
            &&& forall|id: u64| #[trigger] r1.holding.amount(id) == r0.holding.amount(id) + assets.amount(id)
            &&& regs_but_holding(r0, r1)
            &&& e1.config == e0.config
            &&& e1.ledger == e0.ledger
            &&& e1.versions == e0.versions
            &&& e1.outbox == e0.outbox
            &&& e1.responses == e0.responses
            &&& e1.next_query_id == e0.next_query_id
        },
    }
}

pub open spec fn query_response_post(e0: &Executor, e1: &Executor, r0: &Registers, query_id: u64, response: &Response, res: Result<(), XcmError>) -> bool {
    match origin_of(r0) {
        None => res == Err::<(), XcmError>(XcmError::BadOrigin) && *e1 == *e0,
        Some(o) => res is Ok && match response {
            Response::Version(v) => VersionNegotiator::note_post(&e0.versions, &e1.versions, o, *v)
                && e1.config == e0.config && e1.ledger == e0.ledger && e1.traps == e0.traps
                && e1.outbox == e0.outbox && e1.responses == e0.responses && e1.next_query_id == e0.next_query_id,
            _ => e1.responses@.len() == e0.responses@.len() + 1
                && e1.responses@.subrange(0, e0.responses@.len() as int) == e0.responses@
                && e1.responses@.last().query_id == query_id
                && e1.responses@.last().responder@ == o
                && same_response(&e1.responses@.last().response, response)
                && e1.config == e0.config && e1.ledger == e0.ledger && e1.traps == e0.traps
                && e1.outbox == e0.outbox && e1.versions == e0.versions && e1.next_query_id == e0.next_query_id,
        },
    }
}

impl Executor {
    /// Removes what there is of `a` from the holding, up to its amount, and sends it to `dest`
    /// with the instruction that credits it there, followed by a deposit to `beneficiary`.
    pub fn initiate_transfer(&mut self, regs: &mut Registers, a: Asset, dest: &Location, beneficiary: &Location, teleported: bool)
        requires
            old(self).wf(),
            old(regs).wf(),
        ensures
            final(self).wf(),
            final(regs).wf(),
            transfer_post(old(self), final(self), old(regs), final(regs), a, dest@, beneficiary@, teleported),
    {
        let taken = regs.holding.take(a.id, a.amount);
        let moved = Asset { id: a.id, amount: taken };
        let receive = if teleported {
            Instruction::ReceiveTeleportedAsset(moved)
        } else {
            Instruction::ReserveAssetDeposited(moved)
        };
        let instrs = vec![receive, Instruction::DepositAsset { asset: moved, beneficiary: beneficiary.copy() }];
        self.send(dest, instrs);
    }

    /// Sends the contents of the holding to `dest` as the response to query `query_id`.
    pub fn report_holding(&mut self, regs: &Registers, dest: &Location, query_id: u64)
        requires
            old(self).wf(),
        ensures
            final(self).wf(),
            report_post(old(self), final(self), regs, dest@, query_id),
    {
        let instrs = vec![Instruction::QueryResponse { query_id, response: Response::Assets(regs.holding.copy()) }];
        self.send(dest, instrs);
    }

    pub fn claim_asset(&mut self, regs: &mut Registers, assets: &AssetList, ticket: Ticket) -> (res: Result<(), XcmError>)
        requires
            old(self).wf(),
            old(regs).wf(),
        ensures
            final(self).wf(),
            final(regs).wf(),
            claim_asset_post(old(self), final(self), old(regs), final(regs), assets, ticket, res),
    {
        match &regs.origin {
            None => Err(XcmError::BadOrigin),
            Some(o) => {
                if !assets.check_wf() {
                    return Err(XcmError::UnknownClaim);
                }
                if self.traps.count_of(o, ticket.version, assets) == 0 {
                    return Err(XcmError::UnknownClaim);
                }
                if !regs.holding.can_absorb(assets) {
                    return Err(XcmError::FailedToTransactAsset);
                }
                match self.traps.claim(o, ticket.version, assets) {
                    None => Err(XcmError::UnknownClaim),
                    Some(got) => {
                        proof {
                            assert forall|id: u64| regs.holding.amount(id) + got.amount(id) <= u128::MAX by {
                                assert(got.amount(id) == assets.amount(id));
                            }
                        }
                        let ghost h0 = regs.holding;
                        regs.holding.absorb(&got);

                        proof {
                            assert forall|id: u64| #[trigger] regs.holding.amount(id) == h0.amount(id) + assets.amount(id) by {
                                assert(got.amount(id) == assets.amount(id));
                            }
                        }
                        Ok(())
                    },
                }
            },
        }
    }

    pub fn query_response(&mut self, regs: &Registers, query_id: u64, response: &Response) -> (res: Result<(), XcmError>)
        requires
            old(self).wf(),
        ensures
            final(self).wf(),
            query_response_post(old(self), final(self), regs, query_id, response, res),
    {
        match &regs.origin {
            None => Err(XcmError::BadOrigin),
            Some(o) => {
                match response {
                    Response::Version(v) => {
                        self.versions.note_version(o, *v);
                    },
                    _ => {
                        let rec = QueryRecord { query_id, responder: o.copy(), response: response.copy() };
                        self.responses.push(rec);
                        proof {
                            assert(self.responses@.subrange(0, old(self).responses@.len() as int) =~= old(self).responses@);
                        }
                    },
                }
                Ok(())
            },
        }
    }
}

pub open spec fn subscribe_post(e0: &Executor, e1: &Executor, r0: &Registers, query_id: u64, res: Result<(), XcmError>) -> bool {
    match origin_of(r0) {
        None => res == Err::<(), XcmError>(XcmError::BadOrigin) && *e1 == *e0,
        Some(o) => res is Ok
            && subscribed_post(e0.versions.subscribers@, e1.versions.subscribers@, o, query_id)
            && sent_core(e0, e1, o, seq![Instruction::QueryResponse { query_id, response: Response::Version(e0.config.local_version) }]),
    }
}

/// Weight charged for `i` before it runs.
pub open spec fn weight_of(c: &Config, i: &Instruction) -> Weight {
    match i {
        Instruction::Transact { require_weight_at_most, .. } => *require_weight_at_most,
        _ => c.base_weight,
    }
}

/// What running `instr` does, once its weight is charged.
pub open spec fn step_post(e0: &Executor, e1: &Executor, r0: &Registers, r1: &Registers, m0: &WeightMeter, m1: &WeightMeter, instr: &Instruction, res: Result<(), XcmError>) -> bool {
    match instr {
        Instruction::Transact { origin_kind, require_weight_at_most, call } =>
            *e1 == *e0 && transact_post(r0, r1, m0, m1, *origin_kind, *require_weight_at_most, *call, res),
        _ => *m1 == *m0 && match instr {
            Instruction::WithdrawAsset(a) => withdraw_post(e0, e1, r0, r1, *a, res),
            Instruction::ReserveAssetDeposited(a) => *e1 == *e0 && receive_post(e0, r0, r1, *a, false, res),
            Instruction::ReceiveTeleportedAsset(a) => *e1 == *e0 && receive_post(e0, r0, r1, *a, true, res),
            Instruction::QueryResponse { query_id, response } =>
                *r1 == *r0 && query_response_post(e0, e1, r0, *query_id, response, res),
            Instruction::BuyExecution { fees, weight_limit } => buy_post(e0, e1, r0, r1, *fees, *weight_limit, res),
            Instruction::DepositAsset { asset, beneficiary } => deposit_post(e0, e1, r0, r1, *asset, beneficiary@, res),
            Instruction::DescendOrigin(js) => *e1 == *e0 && descend_post(r0, r1, js@, res),
            Instruction::ClearOrigin => *e1 == *e0 && res is Ok && r1.origin is None
                && r1.holding == r0.holding && regs_but_origin(r0, r1),
            Instruction::InitiateTeleport { asset, dest, beneficiary } =>
                res is Ok && transfer_post(e0, e1, r0, r1, *asset, dest@, beneficiary@, true),
            Instruction::InitiateReserveWithdraw { asset, reserve, beneficiary } =>
                res is Ok && transfer_post(e0, e1, r0, r1, *asset, reserve@, beneficiary@, false),
            Instruction::ReportHolding { dest, query_id } =>
                res is Ok && *r1 == *r0 && report_post(e0, e1, r0, dest@, *query_id),
            Instruction::ClaimAsset { assets, ticket } => claim_asset_post(e0, e1, r0, r1, assets, *ticket, res),
            Instruction::SubscribeVersion { query_id } => *r1 == *r0 && subscribe_post(e0, e1, r0, *query_id, res),
            Instruction::Transact { .. } => true,
        },
    }
}

impl Executor {
    pub fn subscribe_version(&mut self, regs: &Registers, query_id: u64) -> (res: Result<(), XcmError>)
        requires
            old(self).wf(),
        ensures
            final(self).wf(),
            subscribe_post(old(self), final(self), regs, query_id, res),
    {
        match &regs.origin {
            None => Err(XcmError::BadOrigin),
            Some(o) => {
                self.versions.add_subscriber(o, query_id);
                let v = self.config.local_version;
                let mut instrs: Vec<Instruction> = Vec::new();
                instrs.push(Instruction::QueryResponse { query_id, response: Response::Version(v) });
                proof {
                    assert(instrs@ =~= seq![Instruction::QueryResponse { query_id, response: Response::Version(v) }]);
                }
                self.send(o, instrs);
                Ok(())
            },
        }
    }

    pub fn instruction_weight(&self, instr: &Instruction) -> (r: Weight)
        ensures
            r == weight_of(&self.config, instr),
    {
        match instr {
            Instruction::Transact { require_weight_at_most, .. } => *require_weight_at_most,
            _ => self.config.base_weight,
        }
    }

    /// Runs one instruction whose weight has been charged.
    pub fn execute_instruction(&mut self, regs: &mut Registers, meter: &mut WeightMeter, instr: &Instruction) -> (res: Result<(), XcmError>)
        requires
            old(self).wf(),
            old(regs).wf(),
            old(meter).wf(),
        ensures
            final(self).wf(),
            final(regs).wf(),
            final(meter).wf(),
            step_post(old(self), final(self), old(regs), final(regs), old(meter), final(meter), instr, res),
    {
        match instr {
            Instruction::WithdrawAsset(a) => self.withdraw_asset(regs, *a),
            Instruction::ReserveAssetDeposited(a) => self.receive_asset(regs, *a, false),
            Instruction::ReceiveTeleportedAsset(a) => self.receive_asset(regs, *a, true),
            Instruction::QueryResponse { query_id, response } => self.query_response(regs, *query_id, response),
            Instruction::BuyExecution { fees, weight_limit } => self.buy_execution(regs, *fees, *weight_limit),
            Instruction::DepositAsset { asset, beneficiary } => self.deposit_asset(regs, *asset, beneficiary),
            Instruction::Transact { origin_kind, require_weight_at_most, call } =>
                self.transact(regs, meter, *origin_kind, *require_weight_at_most, *call),
            Instruction::DescendOrigin(js) => Executor::descend_origin(regs, js),
            Instruction::ClearOrigin => {
                regs.origin = None;
                Ok(())
            },
            Instruction::InitiateTeleport { asset, dest, beneficiary } => {
                self.initiate_transfer(regs, *asset, dest, beneficiary, true);
                Ok(())
            },
            Instruction::InitiateReserveWithdraw { asset, reserve, beneficiary } => {
                self.initiate_transfer(regs, *asset, reserve, beneficiary, false);
                Ok(())
            },
            Instruction::ReportHolding { dest, query_id } => {
                self.report_holding(regs, dest, *query_id);
                Ok(())
            },
            Instruction::ClaimAsset { assets, ticket } => self.claim_asset(regs, assets, *ticket),
            Instruction::SubscribeVersion { query_id } => self.subscribe_version(regs, *query_id),
        }
    }
}

/// How a program run ended, or why it was refused before it started.
#[derive(Clone, Copy, Debug, PartialEq, Eq, Structural)]
pub enum Outcome {
    Complete { used: Weight },
    Incomplete { used: Weight, error: XcmError },
    Error(XcmError),
}

/// A finished run: its outcome and the registers as it left them.
#[derive(Debug)]
pub struct Execution {
    pub outcome: Outcome,
    pub registers: Registers,
}

/// Charging the weight of `instr` and then running it.
pub open spec fn charged_post(e0: &Executor, e1: &Executor, r0: &Registers, r1: &Registers, m0: &WeightMeter, m1: &WeightMeter, instr: &Instruction, res: Result<(), XcmError>) -> bool {
    let w = weight_of(&e0.config, instr);
    if m0.used.ref_time + w.ref_time > m0.limit.ref_time || m0.used.proof_size + w.proof_size > m0.limit.proof_size {
        res == Err::<(), XcmError>(XcmError::Overweight) && *e1 == *e0 && *r1 == *r0 && *m1 == *m0
    } else {
        let charged = WeightMeter {
            used: Weight {
                ref_time: (m0.used.ref_time + w.ref_time) as u64,
                proof_size: (m0.used.proof_size + w.proof_size) as u64,
            },
            limit: m0.limit,
        };
        step_post(e0, e1, r0, r1, &charged, m1, instr, res)
    }
}

pub open spec fn trace_step(es: Seq<Executor>, rs: Seq<Registers>, ms: Seq<WeightMeter>, instrs: Seq<Instruction>, k: int) -> bool {
    charged_post(&es[k], &es[k + 1], &rs[k], &rs[k + 1], &ms[k], &ms[k + 1], &instrs[k], Ok(()))
}

/// The states `es`, `rs`, `ms` are those of a run of `instrs` in which the first `n` instructions
/// succeeded and then either the program ended or instruction `n` failed with `failed`.
pub open spec fn run_trace(es: Seq<Executor>, rs: Seq<Registers>, ms: Seq<WeightMeter>, instrs: Seq<Instruction>, n: int, failed: Option<XcmError>) -> bool {
    let len = n + 1 + (if failed is Some { 1int } else { 0int });
    &&& 0 <= n <= instrs.len()
    &&& es.len() == len && rs.len() == len && ms.len() == len
    &&& forall|k: int| 0 <= k < n ==> #[trigger] trace_step(es, rs, ms, instrs, k)
    &&& match failed {
        None => n == instrs.len(),
        Some(err) => n < instrs.len()
            && charged_post(&es[n], &es[n + 1], &rs[n], &rs[n + 1], &ms[n], &ms[n + 1], &instrs[n], Err(err)),
    }
}

/// What is left in the holding of `r` at the end of a run goes to the trap registry, under the
/// current origin or, once that is cleared, under `fallback`.
pub open spec fn disposed(e0: &Executor, e1: &Executor, r: &Registers, fallback: (u8, Seq<Junction>), version: u32) -> bool {
    let who = match origin_of(r) { Some(o) => o, None => fallback };
    if r.holding.is_empty_spec() {
        *e1 == *e0
    } else {
        &&& trap_post(e0.traps@, e1.traps@, who, version, r.holding@)
        &&& all_but_traps(e0, e1)
    }
}

pub open spec fn all_but_traps(e0: &Executor, e1: &Executor) -> bool {
    &&& e1.config == e0.config
    &&& e1.ledger == e0.ledger
    &&& e1.versions == e0.versions
    &&& e1.outbox == e0.outbox
    &&& e1.responses == e0.responses
    &&& e1.next_query_id == e0.next_query_id
}

pub open spec fn run_post(e0: &Executor, e1: &Executor, r0: &Registers, r1: &Registers, instrs: Seq<Instruction>, limit: Weight, fallback: (u8, Seq<Junction>), version: u32, out: Outcome) -> bool {
    exists|es: Seq<Executor>, rs: Seq<Registers>, ms: Seq<WeightMeter>, n: int, failed: Option<XcmError>|
        #[trigger] run_trace(es, rs, ms, instrs, n, failed)
        && es[0] == *e0 && rs[0] == *r0 && ms[0] == (WeightMeter { used: Weight::zero_spec(), limit })
        && run_end(es.last(), e1, rs.last(), r1, ms.last(), n, failed, fallback, version, out)
}

pub open spec fn run_end(e: Executor, e1: &Executor, r: Registers, r1: &Registers, m: WeightMeter, n: int, failed: Option<XcmError>, fallback: (u8, Seq<Junction>), version: u32, out: Outcome) -> bool {
    &&& out == match failed {
        None => Outcome::Complete { used: m.used },
        Some(err) => Outcome::Incomplete { used: m.used, error: err },
    }
    &&& r1.error == match failed {
        None => None,
        Some(err) => Some((n as usize, err)),
    }
    &&& r1.origin == r.origin
    &&& r1.weight_credit == r.weight_credit
    &&& r1.transact_status == r.transact_status
    &&& r1.holding.is_empty_spec()
    &&& disposed(&e, e1, &r, fallback, version)
}

impl Executor {
    /// Runs `instrs` in order against `regs` within `limit`, stopping at the first failure, and
    /// traps what is left in the holding.
    pub fn execute(&mut self, regs: &mut Registers, instrs: &Vec<Instruction>, limit: Weight, fallback: &Location, version: u32) -> (out: Outcome)
        requires
            old(self).wf(),
            old(regs).wf(),
            old(regs).error is None,
        ensures
            final(self).wf(),
            final(regs).wf(),
            run_post(old(self), final(self), old(regs), final(regs), instrs@, limit, fallback@, version, out),
    {
        let mut meter = WeightMeter::with_limit(limit);
        let ghost mut es: Seq<Executor> = seq![*self];
        let ghost mut rs: Seq<Registers> = seq![*regs];
        let ghost mut ms: Seq<WeightMeter> = seq![meter];
        let mut i: usize = 0;
        let mut failed: Option<XcmError> = None;
        while i < instrs.len() && failed.is_none()
            invariant
                self.wf(),
                regs.wf(),
                meter.wf(),
                meter.limit == limit,
                regs.error is None,
                i <= instrs@.len(),
                es[0] == *old(self),
                rs[0] == *old(regs),
                ms[0] == (WeightMeter { used: Weight::zero_spec(), limit }),
                es.last() == *self,
                rs.last() == *regs,
                ms.last() == meter,
                run_trace(es, rs, ms, instrs@, i as int, failed) || (failed is None && i < instrs@.len()
                    && es.len() == i + 1 && rs.len() == i + 1 && ms.len() == i + 1
                    && forall|k: int| 0 <= k < i ==> #[trigger] trace_step(es, rs, ms, instrs@, k)),
            decreases instrs@.len() - i + (if failed is None { 1int } else { 0int }),
        {
            let instr = &instrs[i];
            let w = self.instruction_weight(instr);
            let ghost es0 = es;
            let ghost rs0 = rs;
            let ghost ms0 = ms;
            let res = match meter.charge(w) {
                Err(_) => Err(XcmError::Overweight),
                Ok(()) => self.execute_instruction(regs, &mut meter, instr),
            };
            proof {
                es = es.push(*self);
                rs = rs.push(*regs);
                ms = ms.push(meter);
                assert forall|k: int| 0 <= k < i implies #[trigger] trace_step(es, rs, ms, instrs@, k) by {
                    assert(trace_step(es0, rs0, ms0, instrs@, k));
                    assert(es[k] == es0[k] && es[k + 1] == es0[k + 1]);
                    assert(rs[k] == rs0[k] && rs[k + 1] == rs0[k + 1]);
                    assert(ms[k] == ms0[k] && ms[k + 1] == ms0[k + 1]);
                }
                assert(charged_post(&es[i as int], &es[i + 1], &rs[i as int], &rs[i + 1], &ms[i as int], &ms[i + 1], &instrs@[i as int], res));
            }
            match res {
                Err(e) => {
                    failed = Some(e);
                },
                Ok(()) => {
                    proof { assert(trace_step(es, rs, ms, instrs@, i as int)); }
                    i = i + 1;
                },
            }
        }
        let ghost n = i as int;
        let ghost last_e = *self;
        let ghost last_r = *regs;
        if let Some(e) = failed {
            regs.error = Some((i, e));
        }
        if !regs.holding.is_empty() {
            let who = match &regs.origin {
                Some(o) => o.copy(),
                None => fallback.copy(),
            };
            let h = regs.holding.copy();
            self.traps.trap(&who, version, h);
        } else {
            proof {
                assert(last_r.holding.is_empty_spec());
            }
        }
        regs.holding = AssetList::new();
        let out = match failed {
            None => Outcome::Complete { used: meter.used },
            Some(err) => Outcome::Incomplete { used: meter.used, error: err },
        };
        proof {
            assert(run_trace(es, rs, ms, instrs@, n, failed));
            assert(run_end(es.last(), self, rs.last(), regs, ms.last(), n, failed, fallback@, version, out));
        }
        out
    }
}

/// Sum of the execution times charged for `s`.
pub open spec fn total_ref(c: &Config, s: Seq<Instruction>) -> int
    decreases s.len(),
{
    if s.len() == 0 { 0 } else { total_ref(c, s.drop_last()) + weight_of(c, &s.last()).ref_time }
}

/// Sum of the proof sizes charged for `s`.
pub open spec fn total_proof(c: &Config, s: Seq<Instruction>) -> int
    decreases s.len(),
{
    if s.len() == 0 { 0 } else { total_proof(c, s.drop_last()) + weight_of(c, &s.last()).proof_size }
}

/// Registers as a run on behalf of `o` starts with.
pub open spec fn fresh(r: &Registers, o: (u8, Seq<Junction>)) -> bool {
    &&& r.wf()
    &&& origin_of(r) == Some(o)
    &&& r.holding.is_empty_spec()
    &&& r.error is None
    &&& r.weight_credit == Weight::zero_spec()
    &&& r.transact_status == TransactStatus::Unset
}

/// Why `prepare_and_execute` refuses a program before running it, if it does.
pub open spec fn refusal(e: &Executor, origin: (u8, Seq<Junction>), p: &Program, limit: Weight) -> Option<XcmError> {
    if !crate::location::location_wf(origin) {
        Some(XcmError::BadOrigin)
    } else if p.version < crate::program::MIN_VERSION || p.version > e.config.local_version {
        Some(XcmError::UnhandledXcmVersion)
    } else if p.instructions@.len() > e.config.max_instructions {
        Some(XcmError::Barrier)
    } else if total_ref(&e.config, p.instructions@) > limit.ref_time || total_proof(&e.config, p.instructions@) > limit.proof_size {
        Some(XcmError::Overweight)
    } else {
        None
    }
}

pub open spec fn prepared_post(e0: &Executor, e1: &Executor, origin: (u8, Seq<Junction>), p: &Program, limit: Weight, r: &Execution) -> bool {
    match refusal(e0, origin, p, limit) {
        Some(err) => r.outcome == Outcome::Error(err) && *e1 == *e0,
        None => exists|r0: Registers| fresh(&r0, origin)
            && #[trigger] run_post(e0, e1, &r0, &r.registers, p.instructions@, limit, origin, p.version, r.outcome),
    }
}

impl Executor {
    /// Whether the weights of `instrs` add up to no more than `limit` in both dimensions.
    pub fn fits_program(&self, instrs: &Vec<Instruction>, limit: Weight) -> (r: bool)
        ensures
            r == (total_ref(&self.config, instrs@) <= limit.ref_time && total_proof(&self.config, instrs@) <= limit.proof_size),
    {
        let mut rt: u128 = 0;
        let mut ps: u128 = 0;
        let mut i: usize = 0;
        while i < instrs.len()
            invariant
                i <= instrs@.len(),
                rt == total_ref(&self.config, instrs@.subrange(0, i as int)),
                ps == total_proof(&self.config, instrs@.subrange(0, i as int)),
                rt <= limit.ref_time,
                ps <= limit.proof_size,
            decreases instrs@.len() - i,
        {
            let w = self.instruction_weight(&instrs[i]);
            proof {
                let pre = instrs@.subrange(0, i + 1);
                assert(pre.drop_last() =~= instrs@.subrange(0, i as int));
                assert(pre.last() == instrs@[i as int]);
            }
            rt = rt + w.ref_time as u128;
            ps = ps + w.proof_size as u128;
            i = i + 1;
            if rt > limit.ref_time as u128 || ps > limit.proof_size as u128 {
                proof { lemma_totals_grow(&self.config, instrs@, i as int); }
                return false;
            }
        }
        proof { assert(instrs@.subrange(0, instrs@.len() as int) =~= instrs@); }
        true
    }

    /// Runs `program` on behalf of `origin` within `weight_limit`, unless it is refused first.
    pub fn prepare_and_execute(&mut self, origin: Location, program: &Program, weight_limit: Weight) -> (r: Execution)
        requires
            old(self).wf(),
        ensures
            final(self).wf(),
            prepared_post(old(self), final(self), origin@, program, weight_limit, &r),
    {
        let refused = if origin.interior.len() > crate::location::MAX_JUNCTIONS {
            Some(XcmError::BadOrigin)
        } else if program.version < crate::program::MIN_VERSION || program.version > self.config.local_version {
            Some(XcmError::UnhandledXcmVersion)
        } else if program.instructions.len() > self.config.max_instructions {
            Some(XcmError::Barrier)
        } else if !self.fits_program(&program.instructions, weight_limit) {
            Some(XcmError::Overweight)
        } else {
            None
        };
        let fallback = origin.copy();
        let mut regs = Registers::new(origin);
        match refused {
            Some(err) => Execution { outcome: Outcome::Error(err), registers: regs },
            None => {
                let ghost r0 = regs;
                let outcome = self.execute(&mut regs, &program.instructions, weight_limit, &fallback, program.version);
                proof {
                    assert(fresh(&r0, fallback@));
                    assert(run_post(old(self), self, &r0, &regs, program.instructions@, weight_limit, fallback@, program.version, outcome));
                }
                Execution { outcome, registers: regs }
            },
        }
    }

    /// Adopts `v` as the local version and tells every subscriber of it.
    pub fn set_local_version(&mut self, v: u32)
        requires
            old(self).wf(),
            v >= crate::program::MIN_VERSION,
        ensures
            final(self).wf(),
            final(self).config.local_version == v,
            final(self).outbox@.len() == old(self).outbox@.len() + old(self).versions.subscribers@.len(),
            final(self).outbox@.subrange(0, old(self).outbox@.len() as int) == old(self).outbox@,
            forall|k: int| 0 <= k < old(self).versions.subscribers@.len() ==> {
                let m = #[trigger] final(self).outbox@[old(self).outbox@.len() + k];
                let s = old(self).versions.subscribers@[k];
                &&& m.dest@ == s.who@
                &&& m.program.version == v
                &&& m.program.instructions@ == seq![Instruction::QueryResponse { query_id: s.query_id, response: Response::Version(v) }]
            },
            final(self).ledger == old(self).ledger,
            final(self).traps == old(self).traps,
            final(self).versions == old(self).versions,
    {
        self.config.local_version = v;
        let n0 = self.outbox.len();
        let mut i: usize = 0;
        while i < self.versions.subscribers.len()
            invariant
                self.wf(),
                self.config.local_version == v,
                self.ledger == old(self).ledger,
                self.traps == old(self).traps,
                self.versions == old(self).versions,
                n0 == old(self).outbox@.len(),
                i <= self.versions.subscribers@.len(),
                self.outbox@.len() == n0 + i,
                self.outbox@.subrange(0, n0 as int) == old(self).outbox@,
                forall|k: int| 0 <= k < i ==> {
                    let m = #[trigger] self.outbox@[n0 + k];
                    let s = old(self).versions.subscribers@[k];
                    &&& m.dest@ == s.who@
                    &&& m.program.version == v
                    &&& m.program.instructions@ == seq![Instruction::QueryResponse { query_id: s.query_id, response: Response::Version(v) }]
                },
            decreases self.versions.subscribers@.len() - i,
        {
            let dest = self.versions.subscribers[i].who.copy();
            let query_id = self.versions.subscribers[i].query_id;
            let mut instrs: Vec<Instruction> = Vec::new();
            instrs.push(Instruction::QueryResponse { query_id, response: Response::Version(v) });
            proof {
                assert(instrs@ =~= seq![Instruction::QueryResponse { query_id, response: Response::Version(v) }]);
            }
            let ghost before = self.outbox@;
            self.outbox.push(Outbound { dest, program: Program { version: v, instructions: instrs } });
            proof {
                assert(self.outbox@.subrange(0, n0 as int) =~= before.subrange(0, n0 as int));
                assert forall|k: int| 0 <= k < i + 1 implies {
                    let m = #[trigger] self.outbox@[n0 + k];
                    let s = old(self).versions.subscribers@[k];
                    &&& m.dest@ == s.who@
                    &&& m.program.version == v
                    &&& m.program.instructions@ == seq![Instruction::QueryResponse { query_id: s.query_id, response: Response::Version(v) }]
                } by {
                    if k < i {
                        assert(self.outbox@[n0 + k] == before[n0 + k]);
                    }
                }
            }
            i = i + 1;
        }
    }
}

proof fn lemma_totals_grow(c: &Config, s: Seq<Instruction>, i: int)
    requires
        0 <= i <= s.len(),
    ensures
        total_ref(c, s.subrange(0, i)) <= total_ref(c, s),
        total_proof(c, s.subrange(0, i)) <= total_proof(c, s),
    decreases s.len() - i,
{
    if i < s.len() {
        lemma_totals_grow(c, s, i + 1);
        let pre = s.subrange(0, i + 1);
        assert(pre.drop_last() =~= s.subrange(0, i));
    } else {
        assert(s.subrange(0, i) =~= s);
    }
}

/// Teleporting conserves assets: what `InitiateTeleport` removes from the holding on the
/// sending system is exactly what the `ReceiveTeleportedAsset` that it sends puts into the
/// holding on the receiving system, class by class.
pub proof fn lemma_teleport_conserves(
    a0: Executor,
    a1: Executor,
    ra0: Registers,
    ra1: Registers,
    asset: Asset,
    dest: Location,
    beneficiary: Location,
    b0: Executor,
    b1: Executor,
    rb0: Registers,
    rb1: Registers,
    m0: WeightMeter,
    m1: WeightMeter,
)
    requires
        step_post(&a0, &a1, &ra0, &ra1, &m0, &m0,
            &Instruction::InitiateTeleport { asset, dest, beneficiary }, Ok(())),
        step_post(&b0, &b1, &rb0, &rb1, &m1, &m1,
            &a1.outbox@.last().program.instructions@[0], Ok(())),
    ensures
        forall|id: u64| ra0.holding.amount(id) - ra1.holding.amount(id)
            == rb1.holding.amount(id) - rb0.holding.amount(id),
{
    let n = available(&ra0, asset);
    let moved = Asset { id: asset.id, amount: n as u128 };
    assert(a1.outbox@.last().program.instructions@[0] == Instruction::ReceiveTeleportedAsset(moved));
    assert forall|id: u64| ra0.holding.amount(id) - ra1.holding.amount(id)
        == rb1.holding.amount(id) - rb0.holding.amount(id) by {
        if id != asset.id {
            assert(ra1.holding.amount(id) == ra0.holding.amount(id));
            assert(rb1.holding.amount(id) == rb0.holding.amount(id));
        }
    }
}

} // verus!
