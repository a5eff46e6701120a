use blackbox::engine::{deposit, ids_equal, init_mapping, transfer, withdraw, Mapping};
use blackbox::state::ErrorCode;

const A: [u8; 32] = [1u8; 32];
const B: [u8; 32] = [2u8; 32];
const C: [u8; 32] = [3u8; 32];

fn balance(m: &Mapping, id: [u8; 32]) -> Option<u64> {
    m.pubkeys.iter().position(|k| *k == id).map(|i| m.balances[i])
}

fn total(m: &Mapping) -> u128 {
    m.balances.iter().map(|b| *b as u128).sum()
}

fn mapping_of(entries: &[([u8; 32], u64)]) -> Mapping {
    Mapping {
        pubkeys: entries.iter().map(|e| e.0).collect(),
        balances: entries.iter().map(|e| e.1).collect(),
    }
}

#[test]
fn init_mapping_is_empty() {
    let m = init_mapping();
    assert!(m.pubkeys.is_empty());
    assert!(m.balances.is_empty());
}

#[test]
fn scenario_deposit_transfer_withdraw() {
    let m = init_mapping();
    let m = deposit(A, 100, m).unwrap();
    assert_eq!(m.pubkeys, vec![A]);
    assert_eq!(m.balances, vec![100]);
    let m = deposit(B, 50, m).unwrap();
    assert_eq!(m.pubkeys, vec![A, B]);
    assert_eq!(m.balances, vec![100, 50]);
    let m = transfer(m, A, B, 30);
    assert_eq!(m.pubkeys, vec![A, B]);
    assert_eq!(m.balances, vec![70, 80]);
    let (m, ok) = withdraw(m, A, 100);
    assert!(!ok);
    assert_eq!(m.balances, vec![70, 80]);
    let (m, ok) = withdraw(m, A, 70);
    assert!(ok);
    assert_eq!(m.pubkeys, vec![A, B]);
    assert_eq!(m.balances, vec![0, 80]);
}

#[test]
fn deposits_sum_per_identity_in_any_order() {
    let ops = [(A, 10u64), (B, 5), (A, 7), (C, 1), (B, 5)];
    let mut m = init_mapping();
    for (id, amount) in ops.iter() {
        m = deposit(*id, *amount, m).unwrap();
    }
    assert_eq!(balance(&m, A), Some(17));
    assert_eq!(balance(&m, B), Some(10));
    assert_eq!(balance(&m, C), Some(1));
    let mut r = init_mapping();
    for (id, amount) in ops.iter().rev() {
        r = deposit(*id, *amount, r).unwrap();
    }
    assert_eq!(balance(&r, A), Some(17));
    assert_eq!(balance(&r, B), Some(10));
    assert_eq!(balance(&r, C), Some(1));
    assert_eq!(r.pubkeys, vec![B, C, A]);
}

#[test]
fn deposit_appends_new_identity_at_end() {
    let m = mapping_of(&[(A, 4)]);
    let m = deposit(C, 9, m).unwrap();
    assert_eq!(m.pubkeys, vec![A, C]);
    assert_eq!(m.balances, vec![4, 9]);
}

#[test]
fn deposit_overflow_is_refused() {
    let m = mapping_of(&[(A, u64::MAX - 1), (B, 3)]);
    assert_eq!(deposit(A, 2, m).err(), Some(ErrorCode::BalanceOverflow));
    let m = mapping_of(&[(A, u64::MAX - 1), (B, 3)]);
    let m = deposit(A, 1, m).unwrap();
    assert_eq!(m.balances, vec![u64::MAX, 3]);
}

#[test]
fn transfer_keeps_total_when_it_moves_funds() {
    let m = mapping_of(&[(A, 40), (B, 2)]);
    let before = total(&m);
    let m = transfer(m, A, B, 15);
    assert_eq!(m.balances, vec![25, 17]);
    assert_eq!(total(&m), before);
}

#[test]
fn transfer_keeps_total_when_balance_is_short() {
    let m = mapping_of(&[(A, 10), (B, 2)]);
    let before = total(&m);
    let m = transfer(m, A, B, 11);
    assert_eq!(m.pubkeys, vec![A, B]);
    assert_eq!(m.balances, vec![10, 2]);
    assert_eq!(total(&m), before);
}

#[test]
fn transfer_to_new_recipient_appends_entry() {
    let m = mapping_of(&[(A, 10)]);
    let m = transfer(m, A, C, 10);
    assert_eq!(m.pubkeys, vec![A, C]);
    assert_eq!(m.balances, vec![0, 10]);
}

#[test]
fn transfer_from_missing_sender_changes_nothing() {
    let m = mapping_of(&[(A, 10), (B, 2)]);
    let m = transfer(m, C, B, 1);
    assert_eq!(m.pubkeys, vec![A, B]);
    assert_eq!(m.balances, vec![10, 2]);
}

#[test]
fn transfer_to_self_changes_nothing() {
    let m = mapping_of(&[(A, 10)]);
    let m = transfer(m, A, A, 4);
    assert_eq!(m.pubkeys, vec![A]);
    assert_eq!(m.balances, vec![10]);
}

#[test]
fn transfer_that_would_overflow_recipient_changes_nothing() {
    let m = mapping_of(&[(A, 10), (B, u64::MAX)]);
    let m = transfer(m, A, B, 1);
    assert_eq!(m.balances, vec![10, u64::MAX]);
}

#[test]
fn transfer_recipient_before_sender() {
    let m = mapping_of(&[(B, 1), (C, 0), (A, 9)]);
    let m = transfer(m, A, B, 9);
    assert_eq!(m.balances, vec![10, 0, 0]);
}

#[test]
fn withdraw_more_than_balance_fails() {
    let m = mapping_of(&[(A, 5), (B, 8)]);
    let (m, ok) = withdraw(m, B, 9);
    assert!(!ok);
    assert_eq!(m.balances, vec![5, 8]);
}

#[test]
fn withdraw_exact_balance_succeeds() {
    let m = mapping_of(&[(A, 5), (B, 8)]);
    let (m, ok) = withdraw(m, B, 8);
    assert!(ok);
    assert_eq!(m.balances, vec![5, 0]);
    assert_eq!(m.pubkeys, vec![A, B]);
}

#[test]
fn withdraw_by_unknown_owner_fails() {
    let m = mapping_of(&[(A, 5)]);
    let (m, ok) = withdraw(m, C, 0);
    assert!(!ok);
    assert_eq!(m.balances, vec![5]);
}

#[test]
fn ids_equal_compares_every_byte() {
    let mut x = A;
    assert!(ids_equal(&A, &x));
    x[31] = 0;
    assert!(!ids_equal(&A, &x));
    assert!(!ids_equal(&A, &B));
}
