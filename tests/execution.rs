use xcvm::assets::{Asset, AssetList};
use xcvm::executor::{Config, Execution, Executor, Outcome, TransactStatus, XcmError};
use xcvm::location::{Junction, Location};
use xcvm::program::{Call, Instruction, OriginKind, Program, Response, WeightLimit};
use xcvm::weight::Weight;

const INITIAL_BALANCE: u128 = 1000;
const NATIVE: u64 = 0;

fn account(n: u64) -> Location {
    Location::new(0, vec![Junction::AccountIndex64(n)]).unwrap()
}

fn alice() -> Location {
    account(1)
}

fn bob() -> Location {
    account(2)
}

fn para_a() -> Location {
    Location::new(0, vec![Junction::Parachain(1)]).unwrap()
}

fn config() -> Config {
    Config {
        fee_asset: NATIVE,
        ref_time_per_unit: 100_000_000_000,
        proof_size_per_unit: 104_858,
        fee_account: account(99),
        trusted: vec![Location::parent()],
        base_weight: Weight::from_parts(1_000_000, 1024),
        local_version: 3,
        max_instructions: 100,
    }
}

fn chain() -> Executor {
    let mut e = Executor::new(config(), 2);
    e.ledger.deposit(&alice(), Asset { id: NATIVE, amount: INITIAL_BALANCE }).unwrap();
    e.ledger.deposit(&para_a(), Asset { id: NATIVE, amount: INITIAL_BALANCE }).unwrap();
    e
}

fn native(amount: u128) -> Asset {
    Asset { id: NATIVE, amount }
}

fn run(e: &mut Executor, origin: Location, instructions: Vec<Instruction>) -> Execution {
    let program = Program { version: 3, instructions };
    e.prepare_and_execute(origin, &program, Weight::from_parts(100_000_000_000, 100_000_000_000))
}

fn completed(x: &Execution) -> bool {
    matches!(x.outcome, Outcome::Complete { .. })
}

#[test]
fn execute_withdraw_asset() {
    let mut e = chain();
    let withdraw_amount = 100u128;
    let x = run(&mut e, alice(), vec![Instruction::WithdrawAsset(native(withdraw_amount))]);
    assert!(completed(&x));
    assert_eq!(e.ledger.balance_of(&alice(), NATIVE), INITIAL_BALANCE - withdraw_amount);
    // What was left in the holding is trapped under the origin.
    assert_eq!(e.traps.len(), 1);
    let trapped = AssetList::single(native(withdraw_amount));
    assert_eq!(e.traps.count_of(&alice(), 3, &trapped), 1);
}

#[test]
fn execute_buy_execution() {
    let mut e = chain();
    let weight = Weight::from_parts(1_000_000_000_000u64, 1024 * 1024);
    let x = run(
        &mut e,
        alice(),
        vec![
            Instruction::WithdrawAsset(native(100)),
            Instruction::BuyExecution { fees: native(10), weight_limit: WeightLimit::Limited(weight) },
        ],
    );
    assert!(completed(&x));
    assert_eq!(x.registers.weight_credit, weight);
    assert_eq!(e.ledger.balance_of(&account(99), NATIVE), 10);
}

#[test]
fn execute_send_funds_to_bob() {
    let mut e = chain();
    let withdraw_amount = 100u128;
    let x = run(
        &mut e,
        alice(),
        vec![
            Instruction::WithdrawAsset(native(withdraw_amount)),
            Instruction::DepositAsset { asset: native(withdraw_amount), beneficiary: bob() },
        ],
    );
    assert!(completed(&x));
    assert_eq!(e.ledger.balance_of(&bob(), NATIVE), withdraw_amount);
    assert_eq!(e.ledger.balance_of(&alice(), NATIVE), INITIAL_BALANCE - withdraw_amount);
    assert_eq!(e.traps.len(), 0);
}

#[test]
fn execute_transact_message() {
    let mut e = chain();
    let call = Call { weight: Weight::from_parts(500_000, 500), succeeds: true };
    let x = run(
        &mut e,
        alice(),
        vec![Instruction::Transact {
            origin_kind: OriginKind::SovereignAccount,
            require_weight_at_most: Weight::from_parts(1_000_000, 1000),
            call,
        }],
    );
    // The unused part of the declared weight is refunded.
    assert_eq!(x.outcome, Outcome::Complete { used: Weight::from_parts(500_000, 500) });
    assert_eq!(x.registers.transact_status, TransactStatus::Success);
}

#[test]
fn execute_origin_mutating_instruction() {
    let mut e = chain();
    let x = run(
        &mut e,
        alice(),
        vec![
            Instruction::DescendOrigin(vec![Junction::PalletInstance(5)]),
            Instruction::ClearOrigin,
            Instruction::WithdrawAsset(native(100)),
        ],
    );
    assert!(matches!(x.outcome, Outcome::Incomplete { error: XcmError::BadOrigin, .. }));
    assert_eq!(x.registers.error, Some((2, XcmError::BadOrigin)));
    assert!(x.registers.origin.is_none());
    assert_eq!(e.ledger.balance_of(&alice(), NATIVE), INITIAL_BALANCE);
}

#[test]
fn execute_transact_on_own_dispatchable() {
    let mut e = chain();
    let transact = || Instruction::Transact {
        origin_kind: OriginKind::Superuser,
        require_weight_at_most: Weight::from_parts(1_000_000, 1000),
        call: Call { weight: Weight::from_parts(1_000_000, 1000), succeeds: false },
    };
    let x = run(&mut e, alice(), vec![transact()]);
    assert!(matches!(x.outcome, Outcome::Incomplete { error: XcmError::BadOrigin, .. }));
    let y = run(&mut e, Location::here(), vec![transact()]);
    assert!(completed(&y));
    assert_eq!(y.registers.transact_status, TransactStatus::Failed);
}

fn transfer_to_para_a(teleport: bool) {
    let mut relay = chain();
    let withdraw_amount = 100u128;
    let beneficiary = alice();
    let send = if teleport {
        Instruction::InitiateTeleport { asset: native(withdraw_amount), dest: para_a(), beneficiary }
    } else {
        Instruction::InitiateReserveWithdraw { asset: native(withdraw_amount), reserve: para_a(), beneficiary }
    };
    let x = run(&mut relay, alice(), vec![Instruction::WithdrawAsset(native(withdraw_amount)), send]);
    assert!(completed(&x));
    assert_eq!(relay.ledger.balance_of(&alice(), NATIVE), INITIAL_BALANCE - withdraw_amount);
    // A subscription request goes first to a destination not seen before.
    assert_eq!(relay.outbox.len(), 2);
    assert!(matches!(relay.outbox[0].program.instructions[0], Instruction::SubscribeVersion { .. }));
    let msg = relay.outbox.pop().unwrap();
    assert!(msg.dest.same(&para_a()));
    assert_eq!(msg.program.version, 2);
    let expected = if teleport {
        Instruction::ReceiveTeleportedAsset(native(withdraw_amount))
    } else {
        Instruction::ReserveAssetDeposited(native(withdraw_amount))
    };
    match (&msg.program.instructions[0], &expected) {
        (Instruction::ReceiveTeleportedAsset(a), Instruction::ReceiveTeleportedAsset(b)) => assert_eq!(a, b),
        (Instruction::ReserveAssetDeposited(a), Instruction::ReserveAssetDeposited(b)) => assert_eq!(a, b),
        _ => panic!("unexpected first instruction"),
    }

    let mut para = Executor::new(config(), 2);
    let y = para.prepare_and_execute(Location::parent(), &msg.program, Weight::from_parts(100_000_000_000, 100_000_000_000));
    assert!(completed(&y));
    assert_eq!(para.ledger.balance_of(&alice(), NATIVE), withdraw_amount);
}

#[test]
fn execute_initiate_teleport_to_para_a() {
    transfer_to_para_a(true);
}

#[test]
fn execute_initiate_reserve_withdraw_to_para_a() {
    transfer_to_para_a(false);
}

#[test]
fn send_ump_withdraw_deposit_alice() {
    let mut relay = chain();
    let withdraw_amount = 100u128;
    let x = run(
        &mut relay,
        para_a(),
        vec![
            Instruction::WithdrawAsset(native(withdraw_amount)),
            Instruction::DepositAsset { asset: native(withdraw_amount), beneficiary: alice() },
        ],
    );
    assert!(completed(&x));
    assert_eq!(relay.ledger.balance_of(&alice(), NATIVE), INITIAL_BALANCE + withdraw_amount);
    assert_eq!(relay.ledger.balance_of(&para_a(), NATIVE), INITIAL_BALANCE - withdraw_amount);
}

#[test]
fn withdraw_and_query_holding_xcmp() {
    let mut relay = chain();
    let withdraw_amount = 100u128;
    let x = run(
        &mut relay,
        para_a(),
        vec![
            Instruction::WithdrawAsset(native(withdraw_amount)),
            Instruction::ReportHolding { dest: para_a(), query_id: 7 },
            Instruction::DepositAsset { asset: native(withdraw_amount), beneficiary: para_a() },
        ],
    );
    assert!(completed(&x));
    let report = relay.outbox.pop().unwrap();
    assert!(report.dest.same(&para_a()));
    match &report.program.instructions[0] {
        Instruction::QueryResponse { query_id, response: Response::Assets(held) } => {
            assert_eq!(*query_id, 7);
            assert_eq!(held.amount_of(NATIVE), withdraw_amount);
        },
        _ => panic!("expected a holding report"),
    }
    // The response arrives back at the parachain.
    let mut para = Executor::new(config(), 2);
    let y = para.prepare_and_execute(Location::parent(), &report.program, Weight::from_parts(100_000_000_000, 100_000_000_000));
    assert!(completed(&y));
    assert_eq!(para.responses.len(), 1);
    assert_eq!(para.responses[0].query_id, 7);
}

#[test]
fn test_automatic_versioning_on_runtime_upgrade_with_relay() {
    // The parachain speaks version 2, the relay knows nothing of it yet.
    let mut para_config = config();
    para_config.local_version = 2;
    let mut para = Executor::new(para_config, 2);
    let mut relay = Executor::new(config(), 2);

    // Sending to an unknown destination triggers version negotiation.
    relay.send(&para_a(), vec![]);
    assert_eq!(relay.outbox.len(), 2);
    assert_eq!(relay.versions.state_of(&para_a()).unwrap().known_version, None);
    let subscribe = relay.outbox.remove(0);

    // The parachain answers with its version.
    let x = para.prepare_and_execute(Location::parent(), &subscribe.program, Weight::from_parts(100_000_000_000, 100_000_000_000));
    assert!(completed(&x));
    assert_eq!(para.versions.subscribers.len(), 1);
    let answer = para.outbox.pop().unwrap();
    let y = relay.prepare_and_execute(para_a(), &answer.program, Weight::from_parts(100_000_000_000, 100_000_000_000));
    assert!(completed(&y));
    assert_eq!(relay.versions.state_of(&para_a()).unwrap().known_version, Some(2));

    // A runtime upgrade of the parachain notifies the relay of the new version.
    para.set_local_version(3);
    let notice = para.outbox.pop().unwrap();
    assert!(notice.dest.same(&Location::parent()));
    let z = relay.prepare_and_execute(para_a(), &notice.program, Weight::from_parts(100_000_000_000, 100_000_000_000));
    assert!(completed(&z));
    assert_eq!(relay.versions.state_of(&para_a()).unwrap().known_version, Some(3));
}
