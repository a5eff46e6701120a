use blackbox::protocol::{
    apply_callback, deposit, Argument, deposit_callback, expire_request, initialize_mapping_account, transfer,
    transfer_callback, withdraw, withdraw_callback, CustodyAction, EngineOutput, Ledger, OperationKind,
    PendingRequest,
};
use blackbox::state::{init_blackbox, BlackboxAccount, ErrorCode, MappingAccount};

const MINT: [u8; 32] = [7u8; 32];
const VAULT: [u8; 32] = [8u8; 32];
const A: [u8; 32] = [1u8; 32];
const B: [u8; 32] = [2u8; 32];
const CT1: [u8; 32] = [0x11u8; 32];
const CT2: [u8; 32] = [0x22u8; 32];
const CT3: [u8; 32] = [0x33u8; 32];

fn ledger_with_shard() -> Ledger {
    let mut l = Ledger::new(MINT, VAULT, 1);
    initialize_mapping_account(&mut l).unwrap();
    l
}

#[test]
fn deposit_reserves_entry_and_records_request() {
    let mut l = ledger_with_shard();
    let args = deposit(&mut l, 1, A, 100).unwrap();
    assert_eq!(args.len(), 2);
    assert!(matches!(args[0], Argument::PlaintextPubkey(k) if k == A));
    assert!(matches!(args[1], Argument::PlaintextU64(100)));
    assert_eq!(l.mapping_accounts[0].encrypted_pubkeys, vec![A]);
    assert_eq!(l.mapping_accounts[0].encrypted_balances, vec![[0u8; 32]]);
    assert_eq!(l.pending.len(), 1);
    assert_eq!(l.pending[0].request_id, 1);
    assert_eq!(l.pending[0].kind, OperationKind::Deposit);
    assert_eq!(l.pending[0].primary, (0, 0));
    assert_eq!(l.pending[0].amount, 100);
}

#[test]
fn deposit_callback_stores_ciphertext() {
    let mut l = ledger_with_shard();
    deposit(&mut l, 1, A, 100).unwrap();
    assert_eq!(deposit_callback(&mut l, 1, true, CT1), Ok(CustodyAction::Keep));
    assert_eq!(l.mapping_accounts[0].encrypted_balances, vec![CT1]);
    assert!(l.pending.is_empty());
    assert_eq!(l.closed, vec![1]);
}

#[test]
fn callback_delivered_twice_applies_once() {
    let mut l = ledger_with_shard();
    deposit(&mut l, 9, A, 100).unwrap();
    assert_eq!(deposit_callback(&mut l, 9, true, CT1), Ok(CustodyAction::Keep));
    assert_eq!(deposit_callback(&mut l, 9, true, CT2), Err(ErrorCode::DuplicateCallback));
    assert_eq!(l.mapping_accounts[0].encrypted_balances, vec![CT1]);
    assert_eq!(l.closed, vec![9]);
    assert!(l.pending.is_empty());
}

#[test]
fn unauthenticated_callback_is_refused() {
    let mut l = ledger_with_shard();
    deposit(&mut l, 1, A, 100).unwrap();
    assert_eq!(deposit_callback(&mut l, 1, false, CT1), Err(ErrorCode::UnauthenticatedCallback));
    assert_eq!(l.mapping_accounts[0].encrypted_balances, vec![[0u8; 32]]);
    assert_eq!(l.pending.len(), 1);
    assert!(l.closed.is_empty());
}

#[test]
fn callback_for_unknown_request_is_refused() {
    let mut l = ledger_with_shard();
    deposit(&mut l, 1, A, 100).unwrap();
    assert_eq!(deposit_callback(&mut l, 2, true, CT1), Err(ErrorCode::UnauthenticatedCallback));
    assert_eq!(l.pending.len(), 1);
}

#[test]
fn callback_of_wrong_kind_is_refused() {
    let mut l = ledger_with_shard();
    deposit(&mut l, 1, A, 100).unwrap();
    assert_eq!(withdraw_callback(&mut l, 1, true, CT1, true), Err(ErrorCode::UnauthenticatedCallback));
    assert_eq!(l.mapping_accounts[0].encrypted_balances, vec![[0u8; 32]]);
    assert_eq!(l.pending.len(), 1);
}

#[test]
fn reused_request_id_is_refused() {
    let mut l = ledger_with_shard();
    deposit(&mut l, 1, A, 100).unwrap();
    assert_eq!(deposit(&mut l, 1, B, 5).err(), Some(ErrorCode::DuplicateRequest));
    deposit_callback(&mut l, 1, true, CT1).unwrap();
    assert_eq!(withdraw(&mut l, 1, A, 5).err(), Some(ErrorCode::DuplicateRequest));
    assert_eq!(l.mapping_accounts[0].encrypted_pubkeys, vec![A]);
}

#[test]
fn deposit_without_room_is_refused() {
    let mut l = Ledger::new(MINT, VAULT, 1);
    assert_eq!(deposit(&mut l, 1, A, 100).err(), Some(ErrorCode::NoSpaceAvailable));
    assert!(l.pending.is_empty());
}

#[test]
fn transfer_round_trip_writes_both_balances() {
    let mut l = ledger_with_shard();
    deposit(&mut l, 1, A, 100).unwrap();
    deposit_callback(&mut l, 1, true, CT1).unwrap();
    let args = transfer(&mut l, 2, A, B, CT3, CT2).unwrap();
    assert_eq!(args.len(), 3);
    assert!(matches!(args[0], Argument::PlaintextPubkey(k) if k == A));
    assert!(matches!(args[1], Argument::CipheredPubkey(k) if k == CT3));
    assert!(matches!(args[2], Argument::CipheredU64(k) if k == CT2));
    assert_eq!(l.pending[0].kind, OperationKind::Transfer);
    assert_eq!(l.pending[0].primary, (0, 0));
    assert_eq!(l.pending[0].secondary, (0, 1));
    assert_eq!(transfer_callback(&mut l, 2, true, CT2, CT3), Ok(CustodyAction::Keep));
    assert_eq!(l.mapping_accounts[0].encrypted_pubkeys, vec![A, B]);
    assert_eq!(l.mapping_accounts[0].encrypted_balances, vec![CT2, CT3]);
}

#[test]
fn transfer_from_unknown_sender_is_refused() {
    let mut l = ledger_with_shard();
    assert_eq!(transfer(&mut l, 2, A, B, CT3, CT2).err(), Some(ErrorCode::UserNotFound));
    assert!(l.mapping_accounts[0].encrypted_pubkeys.is_empty());
    assert!(l.pending.is_empty());
}

#[test]
fn withdraw_accepted_pays_out() {
    let mut l = ledger_with_shard();
    deposit(&mut l, 1, A, 100).unwrap();
    deposit_callback(&mut l, 1, true, CT1).unwrap();
    let args = withdraw(&mut l, 2, A, 60).unwrap();
    assert_eq!(args.len(), 2);
    assert!(matches!(args[0], Argument::PlaintextPubkey(k) if k == A));
    assert!(matches!(args[1], Argument::PlaintextU64(60)));
    assert_eq!(withdraw_callback(&mut l, 2, true, CT2, true), Ok(CustodyAction::PayOut(60)));
    assert_eq!(l.mapping_accounts[0].encrypted_balances, vec![CT2]);
}

#[test]
fn withdraw_rejected_by_engine_pays_nothing() {
    let mut l = ledger_with_shard();
    deposit(&mut l, 1, A, 100).unwrap();
    deposit_callback(&mut l, 1, true, CT1).unwrap();
    withdraw(&mut l, 2, A, 600).unwrap();
    let out = EngineOutput::Withdraw { balance: CT3, success: false };
    assert_eq!(apply_callback(&mut l, 2, true, out), Ok(CustodyAction::Keep));
    assert_eq!(l.closed, vec![1, 2]);
}

#[test]
fn withdraw_by_unknown_user_is_refused() {
    let mut l = ledger_with_shard();
    assert_eq!(withdraw(&mut l, 1, A, 1).err(), Some(ErrorCode::UserNotFound));
}

#[test]
fn expired_deposit_is_refunded_and_late_callback_refused() {
    let mut l = ledger_with_shard();
    deposit(&mut l, 4, A, 70).unwrap();
    assert_eq!(expire_request(&mut l, 4), Ok(CustodyAction::PayOut(70)));
    assert_eq!(deposit_callback(&mut l, 4, true, CT1), Err(ErrorCode::DuplicateCallback));
    assert_eq!(l.mapping_accounts[0].encrypted_balances, vec![[0u8; 32]]);
    assert_eq!(expire_request(&mut l, 4), Err(ErrorCode::UnknownRequest));
}

#[test]
fn expired_withdraw_keeps_funds() {
    let mut l = ledger_with_shard();
    deposit(&mut l, 1, A, 70).unwrap();
    deposit_callback(&mut l, 1, true, CT1).unwrap();
    withdraw(&mut l, 2, A, 10).unwrap();
    assert_eq!(expire_request(&mut l, 2), Ok(CustodyAction::Keep));
    assert!(l.pending.is_empty());
}

fn stored_shard(index: u8, keys: Vec<[u8; 32]>) -> MappingAccount {
    let balances = keys.iter().map(|_| CT1).collect();
    MappingAccount { index, token_mint: MINT, encrypted_pubkeys: keys, encrypted_balances: balances }
}

fn stored_request(request_id: u64, slot: (usize, usize)) -> PendingRequest {
    PendingRequest { request_id, kind: OperationKind::Withdraw, primary: slot, secondary: slot, amount: 3 }
}

fn stored_record(count: u8) -> BlackboxAccount {
    let mut b = init_blackbox(MINT, VAULT, 1);
    b.mapping_account_count = count;
    b
}

#[test]
fn open_accepts_consistent_records() {
    let l = Ledger::open(
        stored_record(2),
        vec![stored_shard(0, vec![A]), stored_shard(1, vec![B])],
        vec![stored_request(5, (1, 0))],
        vec![1, 2],
    )
    .unwrap();
    assert_eq!(l.mapping_accounts.len(), 2);
    assert_eq!(l.pending[0].request_id, 5);
    assert_eq!(l.closed, vec![1, 2]);
}

#[test]
fn open_then_settle_request() {
    let mut l = Ledger::open(stored_record(1), vec![stored_shard(0, vec![A])], vec![stored_request(5, (0, 0))], vec![])
        .unwrap();
    assert_eq!(withdraw_callback(&mut l, 5, true, CT2, true), Ok(CustodyAction::PayOut(3)));
    assert_eq!(l.mapping_accounts[0].encrypted_balances, vec![CT2]);
}

#[test]
fn open_refuses_inconsistent_records() {
    let bad = Some(ErrorCode::InconsistentLedger);
    let open = |count: u8, shards: Vec<MappingAccount>, pending: Vec<PendingRequest>, closed: Vec<u64>| {
        Ledger::open(stored_record(count), shards, pending, closed).err()
    };
    assert_eq!(open(2, vec![stored_shard(0, vec![A])], vec![], vec![]), bad);
    assert_eq!(open(1, vec![stored_shard(1, vec![A])], vec![], vec![]), bad);
    let mut foreign = stored_shard(0, vec![A]);
    foreign.token_mint = VAULT;
    assert_eq!(open(1, vec![foreign], vec![], vec![]), bad);
    let mut uneven = stored_shard(0, vec![A]);
    uneven.encrypted_balances.push(CT2);
    assert_eq!(open(1, vec![uneven], vec![], vec![]), bad);
    assert_eq!(open(1, vec![stored_shard(0, vec![A])], vec![stored_request(5, (0, 1))], vec![]), bad);
    assert_eq!(open(1, vec![stored_shard(0, vec![A])], vec![stored_request(5, (1, 0))], vec![]), bad);
    assert_eq!(
        open(1, vec![stored_shard(0, vec![A])], vec![stored_request(5, (0, 0)), stored_request(5, (0, 0))], vec![]),
        bad
    );
    assert_eq!(open(1, vec![stored_shard(0, vec![A])], vec![stored_request(5, (0, 0))], vec![5]), bad);
    assert!(open(1, vec![stored_shard(0, vec![A])], vec![stored_request(5, (0, 0))], vec![4]).is_none());
}
