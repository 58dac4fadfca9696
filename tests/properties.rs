use xcvm::assets::{Asset, AssetList};
use xcvm::codec::{decode, encode};
use xcvm::executor::{saturating_product, Config, Executor, Outcome, TransactStatus, XcmError};
use xcvm::ledger::{Ledger, LedgerError};
use xcvm::location::{Junction, Location};
use xcvm::pallet::{Error, Pallet, TestWeightInfo, WeightInfo};
use xcvm::program::{Call, Instruction, OriginKind, Program, Response, Ticket, WeightLimit};
use xcvm::traps::TrapRegistry;
use xcvm::versions::VersionNegotiator;
use xcvm::weight::{Overweight, Weight, WeightMeter};

const NATIVE: u64 = 0;

fn account(n: u64) -> Location {
    Location::new(0, vec![Junction::AccountIndex64(n)]).unwrap()
}

fn native(amount: u128) -> Asset {
    Asset { id: NATIVE, amount }
}

fn config() -> Config {
    Config {
        fee_asset: NATIVE,
        ref_time_per_unit: 1_000,
        proof_size_per_unit: 10,
        fee_account: account(99),
        trusted: vec![Location::parent()],
        base_weight: Weight::from_parts(100, 10),
        local_version: 3,
        max_instructions: 4,
    }
}

fn funded() -> Executor {
    let mut e = Executor::new(config(), 2);
    e.ledger.deposit(&account(1), native(1000)).unwrap();
    e
}

fn limit() -> Weight {
    Weight::from_parts(1_000_000, 1_000_000)
}

fn run(e: &mut Executor, instructions: Vec<Instruction>) -> xcvm::executor::Execution {
    e.prepare_and_execute(account(1), &Program { version: 3, instructions }, limit())
}

#[test]
fn charge_adds_exactly_and_refuses_without_effect() {
    let mut m = WeightMeter::with_limit(Weight::from_parts(100, 50));
    assert_eq!(m.charge(Weight::from_parts(30, 20)), Ok(()));
    assert_eq!(m.used, Weight::from_parts(30, 20));
    assert_eq!(m.charge(Weight::from_parts(70, 31)), Err(Overweight));
    assert_eq!(m.used, Weight::from_parts(30, 20));
    assert_eq!(m.charge(Weight::from_parts(70, 30)), Ok(()));
    assert_eq!(m.used, Weight::from_parts(100, 50));
    m.refund(Weight::from_parts(200, 5));
    assert_eq!(m.used, Weight::from_parts(0, 45));
}

#[test]
fn trap_then_claim_restores_once() {
    let mut e = funded();
    let x = run(&mut e, vec![Instruction::WithdrawAsset(native(100))]);
    assert!(matches!(x.outcome, Outcome::Complete { .. }));
    let h = AssetList::single(native(100));
    let claim = || vec![Instruction::ClaimAsset { assets: AssetList::single(native(100)), ticket: Ticket { version: 3 } }];
    let y = run(&mut e, claim());
    // The claimed assets are in the holding again, and so trapped again at the end.
    assert!(matches!(y.outcome, Outcome::Complete { .. }));
    assert_eq!(e.traps.count_of(&account(1), 3, &h), 1);
    let mut with_deposit = claim();
    with_deposit.push(Instruction::DepositAsset { asset: native(100), beneficiary: account(1) });
    let z = run(&mut e, with_deposit);
    assert!(matches!(z.outcome, Outcome::Complete { .. }));
    assert_eq!(e.traps.count_of(&account(1), 3, &h), 0);
    assert_eq!(e.ledger.balance_of(&account(1), NATIVE), 1000);
    let w = run(&mut e, claim());
    assert_eq!(w.outcome, Outcome::Incomplete { used: Weight::from_parts(100, 10), error: XcmError::UnknownClaim });
}

#[test]
fn claim_by_another_origin_is_unknown() {
    let mut e = funded();
    run(&mut e, vec![Instruction::WithdrawAsset(native(100))]);
    let x = e.prepare_and_execute(
        account(2),
        &Program { version: 3, instructions: vec![Instruction::ClaimAsset { assets: AssetList::single(native(100)), ticket: Ticket { version: 3 } }] },
        limit(),
    );
    assert!(matches!(x.outcome, Outcome::Incomplete { error: XcmError::UnknownClaim, .. }));
}

#[test]
fn trap_registry_claims_each_entry_once() {
    let mut t = TrapRegistry::new();
    let mut h = AssetList::new();
    h.subsume(Asset { id: 1, amount: 5 });
    h.subsume(Asset { id: 2, amount: 7 });
    t.trap(&account(1), 3, h.copy());
    // Order of entries does not matter for a claim.
    let mut same = AssetList::new();
    same.subsume(Asset { id: 2, amount: 7 });
    same.subsume(Asset { id: 1, amount: 5 });
    let got = t.claim(&account(1), 3, &same).unwrap();
    assert!(got.same_contents(&h));
    assert!(t.claim(&account(1), 3, &same).is_none());
}

#[test]
fn noting_a_version_twice_is_idempotent() {
    let mut v = VersionNegotiator::new(2);
    v.note_version(&account(5), 4);
    let once = v.state_of(&account(5));
    v.note_version(&account(5), 4);
    assert_eq!(v.state_of(&account(5)), once);
    assert_eq!(v.state_of(&account(5)).unwrap().known_version, Some(4));
    assert_eq!(v.entries.len(), 1);
}

#[test]
fn wrap_version_subscribes_once_then_uses_known_version() {
    let mut v = VersionNegotiator::new(2);
    let first = v.wrap_version(&account(5), 3);
    assert_eq!((first.version, first.subscribe), (2, true));
    let second = v.wrap_version(&account(5), 3);
    assert_eq!((second.version, second.subscribe), (2, false));
    v.note_version(&account(5), 5);
    let third = v.wrap_version(&account(5), 3);
    assert_eq!((third.version, third.subscribe), (3, false));
}

#[test]
fn encode_then_decode_round_trips() {
    let mut list = AssetList::new();
    list.subsume(Asset { id: 9, amount: u128::MAX });
    let program = Program {
        version: 3,
        instructions: vec![
            Instruction::WithdrawAsset(native(100)),
            Instruction::BuyExecution { fees: native(10), weight_limit: WeightLimit::Limited(Weight::from_parts(7, 8)) },
            Instruction::DepositAsset { asset: native(90), beneficiary: account(2) },
            Instruction::Transact {
                origin_kind: OriginKind::Superuser,
                require_weight_at_most: Weight::from_parts(1, 2),
                call: Call { weight: Weight::from_parts(3, 4), succeeds: true },
            },
            Instruction::DescendOrigin(vec![Junction::PalletInstance(3), Junction::GeneralIndex(u128::MAX)]),
            Instruction::ClearOrigin,
            Instruction::InitiateTeleport { asset: native(1), dest: Location::parent(), beneficiary: account(3) },
            Instruction::QueryResponse { query_id: 4, response: Response::Assets(list.copy()) },
            Instruction::ClaimAsset { assets: list, ticket: Ticket { version: 2 } },
            Instruction::SubscribeVersion { query_id: u64::MAX },
        ],
    };
    let bytes = encode(&program);
    // Version, count, then the first instruction: tag 0, class, amount.
    assert_eq!(&bytes[0..8], &[3, 0, 0, 0, 10, 0, 0, 0]);
    assert_eq!(bytes[8], 0);
    let back = decode(&bytes).unwrap();
    assert_eq!(encode(&back), bytes);
    assert_eq!(back.instructions.len(), 10);
    match &back.instructions[4] {
        Instruction::DescendOrigin(js) => assert_eq!(js, &vec![Junction::PalletInstance(3), Junction::GeneralIndex(u128::MAX)]),
        _ => panic!("expected DescendOrigin"),
    }
}

#[test]
fn decode_rejects_trailing_and_truncated_bytes() {
    let program = Program { version: 2, instructions: vec![Instruction::ClearOrigin] };
    let mut bytes = encode(&program);
    assert_eq!(bytes, vec![2, 0, 0, 0, 1, 0, 0, 0, 8]);
    bytes.push(0);
    assert!(decode(&bytes).is_none());
    assert!(decode(&vec![2, 0, 0, 0, 1, 0, 0, 0]).is_none());
    assert!(decode(&vec![2, 0, 0, 0, 1, 0, 0, 0, 99]).is_none());
    // A descent that starts above the local system is no instruction.
    assert!(decode(&vec![2, 0, 0, 0, 1, 0, 0, 0, 7, 1, 0]).is_none());
    // Nine junctions exceed the bound on locations.
    assert!(decode(&vec![2, 0, 0, 0, 1, 0, 0, 0, 7, 0, 9]).is_none());
    assert!(decode(&vec![]).is_none());
}

#[test]
fn scenario_withdraw_then_trap() {
    let mut e = funded();
    let x = run(&mut e, vec![Instruction::WithdrawAsset(native(100))]);
    assert_eq!(x.outcome, Outcome::Complete { used: Weight::from_parts(100, 10) });
    assert_eq!(e.ledger.balance_of(&account(1), NATIVE), 900);
    assert_eq!(e.traps.count_of(&account(1), 3, &AssetList::single(native(100))), 1);
}

#[test]
fn scenario_buy_execution_and_deposit() {
    let mut e = funded();
    let cap = Weight::from_parts(5_000, 1_000);
    let x = run(
        &mut e,
        vec![
            Instruction::WithdrawAsset(native(100)),
            Instruction::BuyExecution { fees: native(10), weight_limit: WeightLimit::Limited(cap) },
            Instruction::DepositAsset { asset: native(90), beneficiary: account(2) },
        ],
    );
    assert!(matches!(x.outcome, Outcome::Complete { .. }));
    assert_eq!(e.ledger.balance_of(&account(2), NATIVE), 90);
    // Ten units buy 10_000 of time and 100 of proof; time is capped.
    assert_eq!(x.registers.weight_credit, Weight::from_parts(5_000, 100));
    assert_eq!(e.traps.len(), 0);
}

#[test]
fn scenario_transact_over_declared_weight_traps() {
    let mut e = funded();
    let x = run(
        &mut e,
        vec![
            Instruction::Transact {
                origin_kind: OriginKind::Native,
                require_weight_at_most: Weight::from_parts(10, 10),
                call: Call { weight: Weight::from_parts(11, 10), succeeds: true },
            },
            Instruction::WithdrawAsset(native(100)),
        ],
    );
    assert_eq!(x.outcome, Outcome::Incomplete { used: Weight::from_parts(10, 10), error: XcmError::Overweight });
    assert_eq!(x.registers.error, Some((0, XcmError::Overweight)));
    assert_eq!(x.registers.transact_status, TransactStatus::Unset);
    assert_eq!(e.ledger.balance_of(&account(1), NATIVE), 1000);
}

#[test]
fn teleport_conserves_amounts() {
    let mut a = funded();
    run(
        &mut a,
        vec![
            Instruction::WithdrawAsset(native(70)),
            Instruction::InitiateTeleport { asset: native(500), dest: account(7), beneficiary: account(8) },
        ],
    );
    let msg = a.outbox.pop().unwrap();
    match &msg.program.instructions[0] {
        Instruction::ReceiveTeleportedAsset(x) => assert_eq!(*x, native(70)),
        _ => panic!("expected a teleport receipt"),
    }
    let mut b = Executor::new(config(), 2);
    let y = b.prepare_and_execute(Location::parent(), &msg.program, limit());
    assert!(matches!(y.outcome, Outcome::Complete { .. }));
    assert_eq!(b.ledger.balance_of(&account(8), NATIVE), 70);
}

#[test]
fn errors_each_have_an_input() {
    let mut e = funded();
    let x = run(&mut e, vec![Instruction::BuyExecution { fees: native(1), weight_limit: WeightLimit::Unlimited }]);
    assert!(matches!(x.outcome, Outcome::Incomplete { error: XcmError::NotHoldingFees, .. }));
    let x = run(&mut e, vec![Instruction::WithdrawAsset(native(5000))]);
    assert!(matches!(x.outcome, Outcome::Incomplete { error: XcmError::FailedToTransactAsset, .. }));
    let x = run(&mut e, vec![Instruction::ReserveAssetDeposited(native(1))]);
    assert!(matches!(x.outcome, Outcome::Incomplete { error: XcmError::UntrustedReserveLocation, .. }));
    let x = run(&mut e, vec![Instruction::ReceiveTeleportedAsset(native(1))]);
    assert!(matches!(x.outcome, Outcome::Incomplete { error: XcmError::BadOrigin, .. }));
    let old = e.prepare_and_execute(account(1), &Program { version: 1, instructions: vec![] }, limit());
    assert_eq!(old.outcome, Outcome::Error(XcmError::UnhandledXcmVersion));
    let long = e.prepare_and_execute(account(1), &Program { version: 3, instructions: vec![
        Instruction::ClearOrigin, Instruction::ClearOrigin, Instruction::ClearOrigin, Instruction::ClearOrigin, Instruction::ClearOrigin,
    ] }, limit());
    assert_eq!(long.outcome, Outcome::Error(XcmError::Barrier));
    let heavy = e.prepare_and_execute(account(1), &Program { version: 3, instructions: vec![Instruction::ClearOrigin] }, Weight::from_parts(99, 10));
    assert_eq!(heavy.outcome, Outcome::Error(XcmError::Overweight));
    let deep = Location::new(0, vec![Junction::Parachain(1); 8]).unwrap();
    let x = e.prepare_and_execute(deep, &Program { version: 3, instructions: vec![Instruction::DescendOrigin(vec![Junction::Parachain(2)])] }, limit());
    assert!(matches!(x.outcome, Outcome::Incomplete { error: XcmError::BadOrigin, .. }));
    assert_eq!(e.ledger.balance_of(&account(1), NATIVE), 1000);
}

#[test]
fn asset_list_merges_and_takes_what_is_there() {
    let mut l = AssetList::new();
    assert!(l.is_empty());
    l.subsume(Asset { id: 1, amount: 5 });
    l.subsume(Asset { id: 1, amount: 6 });
    l.subsume(Asset { id: 2, amount: 1 });
    assert_eq!(l.len(), 2);
    assert_eq!(l.amount_of(1), 11);
    assert_eq!(l.take(1, 20), 11);
    assert_eq!(l.amount_of(1), 0);
    assert_eq!(l.take(2, 0), 0);
    assert_eq!(l.len(), 1);
    assert!(!l.can_add(Asset { id: 2, amount: u128::MAX }));
}

#[test]
fn ledger_refuses_overdraft_and_overflow() {
    let mut ledger = Ledger::new();
    assert_eq!(ledger.withdraw(&account(1), native(1)), Err(LedgerError::InsufficientBalance));
    ledger.deposit(&account(1), native(u128::MAX)).unwrap();
    assert_eq!(ledger.deposit(&account(1), native(1)), Err(LedgerError::Overflow));
    assert_eq!(ledger.withdraw(&account(1), native(u128::MAX)), Ok(()));
    assert_eq!(ledger.balance_of(&account(1), NATIVE), 0);
}

#[test]
fn location_is_bounded_and_descends() {
    assert!(Location::new(0, vec![Junction::Parachain(1); 9]).is_none());
    let mut l = Location::parent();
    assert!(l.descend(&vec![Junction::Parachain(1000)]));
    assert!(l.same(&Location::new(1, vec![Junction::Parachain(1000)]).unwrap()));
    assert!(!l.descend(&vec![Junction::PalletInstance(1); 8]));
    assert!(Location::here().is_here());
}

#[test]
fn weights_saturate_and_multiply() {
    assert_eq!(saturating_product(3, 7), 21);
    assert_eq!(saturating_product(u128::MAX, 2), u64::MAX);
    let w = Weight::from_parts(u64::MAX, 1).saturating_add(&Weight::from_parts(1, 1));
    assert_eq!(w, Weight::from_parts(u64::MAX, 2));
    assert_eq!(TestWeightInfo::trap_assets(), Weight::from_parts(1_000_000, 1_000_000));
    assert_eq!(TestWeightInfo::claim_assets(), Weight::from_parts(1_000_000, 1_000_000));
    assert_eq!(<() as WeightInfo>::trap_assets(), Weight::zero());
    assert_eq!(<() as WeightInfo>::claim_assets(), Weight::zero());
}

#[test]
fn pallet_traps_and_claims() {
    let mut pallet = Pallet { executor: funded() };
    assert_eq!(pallet.trap_assets(None, &AssetList::single(native(10))), Err(Error::BadOrigin));
    assert_eq!(pallet.trap_assets(Some(account(1)), &AssetList::single(native(10))), Ok(()));
    assert_eq!(pallet.executor.ledger.balance_of(&account(1), NATIVE), 990);
    assert_eq!(pallet.executor.traps.len(), 1);
    assert_eq!(pallet.claim_assets(Some(account(1)), &AssetList::single(native(10)), Ticket { version: 3 }), Ok(()));
    assert_eq!(pallet.executor.traps.len(), 0);
    assert_eq!(pallet.executor.ledger.balance_of(&account(1), NATIVE), 1000);
}
