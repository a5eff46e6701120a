//! The computations that the confidential engine runs, stated on the decrypted mapping.
//!
//! Inside the engine the mapping is decrypted, changed by one of these functions and
//! encrypted again under a fresh nonce; the encryption itself belongs to the engine and is
//! not modelled here. Choices made where the behaviour was open:
//! - a deposit that would overflow a balance is refused, not saturated;
//! - a transfer keeps its silent no-op: the sender missing, too small a balance, a transfer
//!   to oneself and an overflowing recipient all leave the mapping as it was;
//! - an entry is never removed, even when its balance falls to zero.

use vstd::prelude::*;

use crate::state::ErrorCode;

verus! {

/// A mapping from owner identities to balances, as the confidential engine sees it once
/// decrypted: `pubkeys[i]` owns `balances[i]`, in insertion order.
pub struct Mapping {
    pub pubkeys: Vec<[u8; 32]>,
    pub balances: Vec<u64>,
}

/// The mathematical content of a `Mapping`.
pub ghost struct MappingModel {
    pub keys: Seq<[u8; 32]>,
    pub balances: Seq<u64>,
}

impl View for Mapping {
    type V = MappingModel;

    open spec fn view(&self) -> MappingModel {
        MappingModel { keys: self.pubkeys@, balances: self.balances@ }
    }
}

/// Sum of a sequence of balances, as an unbounded integer.
pub open spec fn sum_balances(s: Seq<u64>) -> int
    decreases s.len(),
{
    if s.len() == 0 {
        0
    } else {
        sum_balances(s.drop_last()) + s.last()
    }
}

impl MappingModel {
    /// One balance per identity, and no identity twice.
    pub open spec fn wf(self) -> bool {
        &&& self.keys.len() == self.balances.len()
        &&& self.keys.no_duplicates()
    }

    pub open spec fn empty() -> MappingModel {
        MappingModel { keys: Seq::empty(), balances: Seq::empty() }
    }

    /// The balance held by `id`; an identity without an entry holds nothing.
    pub open spec fn balance_of(self, id: [u8; 32]) -> nat {
        if self.keys.contains(id) {
            self.balances[self.keys.index_of(id)] as nat
        } else {
            0
        }
    }

    /// Sum of all balances in the mapping.
    pub open spec fn total(self) -> int {
        sum_balances(self.balances)
    }
}

/// The mapping after crediting `amount` to `to`: the existing entry grows, or a new entry
/// is appended. `None` when the credited balance would not fit in a `u64`.
pub open spec fn deposit_model(m: MappingModel, to: [u8; 32], amount: u64) -> Option<MappingModel> {
    if m.keys.contains(to) {
        let i = m.keys.index_of(to);
        if m.balances[i] + amount <= u64::MAX {
            Some(
                MappingModel {
                    keys: m.keys,
                    balances: m.balances.update(i, (m.balances[i] + amount) as u64),
                },
            )
        } else {
            None
        }
    } else {
        Some(MappingModel { keys: m.keys.push(to), balances: m.balances.push(amount) })
    }
}

/// The mapping after moving `amount` from `from` to `to`. Nothing changes when the sender
/// has no entry, holds less than `amount`, is the recipient itself, or when the
/// recipient's balance would overflow.
pub open spec fn transfer_model(m: MappingModel, from: [u8; 32], to: [u8; 32], amount: u64) -> MappingModel {
    if m.keys.contains(from) && from != to && m.balances[m.keys.index_of(from)] >= amount {
        let s = m.keys.index_of(from);
        let debited = m.balances.update(s, (m.balances[s] - amount) as u64);
        if m.keys.contains(to) {
            let r = m.keys.index_of(to);
            if debited[r] + amount <= u64::MAX {
                MappingModel { keys: m.keys, balances: debited.update(r, (debited[r] + amount) as u64) }
            } else {
                m
            }
        } else {
            MappingModel { keys: m.keys.push(to), balances: debited.push(amount) }
        }
    } else {
        m
    }
}

/// Whether `from` can withdraw `amount`: it has an entry holding at least that much.
pub open spec fn withdraw_allowed(m: MappingModel, from: [u8; 32], amount: u64) -> bool {
    m.keys.contains(from) && m.balances[m.keys.index_of(from)] >= amount
}

/// The mapping after a withdrawal of `amount` by `from`, unchanged when it is not allowed.
pub open spec fn withdraw_model(m: MappingModel, from: [u8; 32], amount: u64) -> MappingModel {
    if withdraw_allowed(m, from, amount) {
        let i = m.keys.index_of(from);
        MappingModel { keys: m.keys, balances: m.balances.update(i, (m.balances[i] - amount) as u64) }
    } else {
        m
    }
}

/// In a sequence without duplicates, the position of an element is the one it stands at.
pub proof fn lemma_index_of_unique(s: Seq<[u8; 32]>, i: int)
    requires
        s.no_duplicates(),
        0 <= i < s.len(),
    ensures
        s.contains(s[i]),
        s.index_of(s[i]) == i,
{
    assert(s.contains(s[i]));
    let j = s.index_of(s[i]);
    assert(0 <= j < s.len() && s[j] == s[i]);
}

/// Appending an identity that is absent keeps the identities distinct.
pub proof fn lemma_push_fresh(s: Seq<[u8; 32]>, x: [u8; 32])
    requires
        s.no_duplicates(),
        !s.contains(x),
    ensures
        s.push(x).no_duplicates(),
        s.push(x).contains(x),
        s.push(x).index_of(x) == s.len(),
        forall|i: int| 0 <= i < s.len() ==> s.push(x)[i] == s[i],
{
    let t = s.push(x);
    assert forall|i: int, j: int| 0 <= i < t.len() && 0 <= j < t.len() && i != j implies t[i] != t[j] by {
        if i < s.len() && j < s.len() {
        } else if i < s.len() {
            assert(s.contains(s[i]));
        } else {
            assert(s.contains(s[j]));
        }
    }
    lemma_index_of_unique(t, s.len() as int);
}

/// Whether two identities are the same, byte by byte.
pub fn ids_equal(a: &[u8; 32], b: &[u8; 32]) -> (r: bool)
    ensures
        r == (*a == *b),
{
    let mut i: usize = 0;
    while i < 32
        invariant
            0 <= i <= 32,
            forall|j: int| 0 <= j < i ==> a[j] == b[j],
        decreases 32 - i,
    {
        if a[i] != b[i] {
            return false;
        }
        i = i + 1;
    }
    assert(*a =~= *b);
    true
}

/// Index of the entry owned by `id`, scanning in insertion order.
pub(crate) fn position_of(keys: &Vec<[u8; 32]>, id: &[u8; 32]) -> (r: Option<usize>)
    ensures
        match r {
            Some(i) => i < keys@.len() && keys@[i as int] == *id && forall|j: int|
                0 <= j < i ==> keys@[j] != *id,
            None => !keys@.contains(*id),
        },
{
    let mut i: usize = 0;
    while i < keys.len()
        invariant
            0 <= i <= keys@.len(),
            forall|j: int| 0 <= j < i ==> keys@[j] != *id,
        decreases keys@.len() - i,
    {
        if ids_equal(&keys[i], id) {
            return Some(i);
        }
        i = i + 1;
    }
    None
}

/// A fresh, empty mapping.
pub fn init_mapping() -> (r: Mapping)
    ensures
        r@ == MappingModel::empty(),
        r@.wf(),
{
    let r = Mapping { pubkeys: Vec::new(), balances: Vec::new() };
    assert(r@.keys =~= Seq::<[u8; 32]>::empty());
    assert(r@.balances =~= Seq::<u64>::empty());
    r
}

/// Credits `deposit_amount` to `to`: the existing entry grows, or a new entry is appended.
/// Refused with `BalanceOverflow`, and nothing else, when the credited balance would not
/// fit in a `u64`.
pub fn deposit(to: [u8; 32], deposit_amount: u64, mapping: Mapping) -> (r: Result<Mapping, ErrorCode>)
    requires
        mapping@.wf(),
    ensures
        match r {
            Ok(m) => deposit_model(mapping@, to, deposit_amount) == Some(m@) && m@.wf(),
            Err(e) => e == ErrorCode::BalanceOverflow && deposit_model(mapping@, to, deposit_amount)
                is None,
        },
{
    let mut mapping = mapping;
    match position_of(&mapping.pubkeys, &to) {
        Some(i) => {
            proof {
                lemma_index_of_unique(mapping@.keys, i as int);
            }
            let current = mapping.balances[i];
            if current > u64::MAX - deposit_amount {
                return Err(ErrorCode::BalanceOverflow);
            }
            let ghost before = mapping@;
            mapping.balances.set(i, current + deposit_amount);
            assert(mapping@.balances =~= before.balances.update(i as int, (current + deposit_amount) as u64));
            Ok(mapping)
        },
        None => {
            proof {
                lemma_push_fresh(mapping@.keys, to);
            }
            mapping.pubkeys.push(to);
            mapping.balances.push(deposit_amount);
            Ok(mapping)
        },
    }
}

/// Moves `transfer_amount` from `from` to `to`, creating the recipient's entry if needed.
/// The mapping comes back unchanged when the sender has no entry or too small a balance,
/// when sender and recipient are the same identity, or when the recipient's balance would
/// overflow; the caller learns nothing of which case held.
pub fn transfer(mapping: Mapping, from: [u8; 32], to: [u8; 32], transfer_amount: u64) -> (r: Mapping)
    requires
        mapping@.wf(),
    ensures
        r@ == transfer_model(mapping@, from, to, transfer_amount),
        r@.wf(),
{
    let mut mapping = mapping;
    let ghost m0 = mapping@;
    let mut sender_idx: Option<usize> = None;
    let mut recipient_idx: Option<usize> = None;
    let n = mapping.pubkeys.len();
    let mut i: usize = 0;
    while i < n
        invariant
            mapping@ == m0,
            m0.wf(),
            n == m0.keys.len(),
            0 <= i <= n,
            match sender_idx {
                Some(s) => s < i && m0.keys[s as int] == from,
                None => forall|j: int| 0 <= j < i ==> m0.keys[j] != from,
            },
            match recipient_idx {
                Some(t) => t < i && m0.keys[t as int] == to && to != from,
                None => forall|j: int| 0 <= j < i && m0.keys[j] != from ==> m0.keys[j] != to,
            },
        ensures
            i == n || (sender_idx is Some && recipient_idx is Some),
        decreases n - i,
    {
        if ids_equal(&mapping.pubkeys[i], &from) {
            sender_idx = Some(i);
        } else if ids_equal(&mapping.pubkeys[i], &to) {
            recipient_idx = Some(i);
        }
        i = i + 1;
        if sender_idx.is_some() && recipient_idx.is_some() {
            break;
        }
    }
    let same = ids_equal(&from, &to);
    if let Some(s) = sender_idx {
        proof {
            lemma_index_of_unique(m0.keys, s as int);
        }
        if !same && mapping.balances[s] >= transfer_amount {
            let debited = mapping.balances[s] - transfer_amount;
            match recipient_idx {
                Some(t) => {
                    proof {
                        lemma_index_of_unique(m0.keys, t as int);
                    }
                    let credited_before = mapping.balances[t];
                    if credited_before <= u64::MAX - transfer_amount {
                        mapping.balances.set(s, debited);
                        mapping.balances.set(t, credited_before + transfer_amount);
                        let ghost d = m0.balances.update(s as int, debited);
                        assert(mapping@.balances =~= d.update(t as int, (d[t as int] + transfer_amount) as u64));
                    }
                },
                None => {
                    assert(!m0.keys.contains(to)) by {
                        if m0.keys.contains(to) {
                            let j = m0.keys.index_of(to);
                            assert(m0.keys[j] == to);
                        }
                    }
                    proof {
                        lemma_push_fresh(m0.keys, to);
                    }
                    mapping.balances.set(s, debited);
                    mapping.pubkeys.push(to);
                    mapping.balances.push(transfer_amount);
                    assert(mapping@.balances =~= m0.balances.update(s as int, debited).push(transfer_amount));
                },
            }
        }
    }
    mapping
}

/// Withdraws `withdraw_amount` from `from`'s entry when it holds at least that much, and
/// reports whether it did; otherwise the mapping comes back unchanged with `false`.
pub fn withdraw(mapping: Mapping, from: [u8; 32], withdraw_amount: u64) -> (r: (Mapping, bool))
    requires
        mapping@.wf(),
    ensures
        r.1 == withdraw_allowed(mapping@, from, withdraw_amount),
        r.0@ == withdraw_model(mapping@, from, withdraw_amount),
        r.0@.wf(),
{
    let mut mapping = mapping;
    if let Some(i) = position_of(&mapping.pubkeys, &from) {
        proof {
            lemma_index_of_unique(mapping@.keys, i as int);
        }
        let current = mapping.balances[i];
        if current >= withdraw_amount {
            let ghost before = mapping@;
            mapping.balances.set(i, current - withdraw_amount);
            assert(mapping@.balances =~= before.balances.update(i as int, (current - withdraw_amount) as u64));
            return (mapping, true);
        }
    }
    (mapping, false)
}

/// Applies the deposits `ops`, in order, to `m`; `None` as soon as one of them overflows.
pub open spec fn deposit_all(m: MappingModel, ops: Seq<([u8; 32], u64)>) -> Option<MappingModel>
    decreases ops.len(),
{
    if ops.len() == 0 {
        Some(m)
    } else {
        match deposit_all(m, ops.drop_last()) {
            Some(m1) => deposit_model(m1, ops.last().0, ops.last().1),
            None => None,
        }
    }
}

/// Sum of the amounts that `ops` deposits to `id`.
pub open spec fn deposited(ops: Seq<([u8; 32], u64)>, id: [u8; 32]) -> nat
    decreases ops.len(),
{
    if ops.len() == 0 {
        0
    } else {
        deposited(ops.drop_last(), id) + if ops.last().0 == id {
            ops.last().1 as nat
        } else {
            0nat
        }
    }
}

proof fn lemma_sum_push(s: Seq<u64>, v: u64)
    ensures
        sum_balances(s.push(v)) == sum_balances(s) + v,
{
    assert(s.push(v).drop_last() =~= s);
}

proof fn lemma_sum_update(s: Seq<u64>, i: int, v: u64)
    requires
        0 <= i < s.len(),
    ensures
        sum_balances(s.update(i, v)) == sum_balances(s) - s[i] + v,
    decreases s.len(),
{
    let t = s.update(i, v);
    if i == s.len() - 1 {
        assert(t.drop_last() =~= s.drop_last());
    } else {
        assert(t.drop_last() =~= s.drop_last().update(i, v));
        lemma_sum_update(s.drop_last(), i, v);
    }
}

/// A successful deposit keeps the mapping well formed, credits exactly `amount` to `to`
/// and leaves every other identity's balance as it was; it fails exactly when `to`'s
/// balance plus `amount` exceeds `u64::MAX`.
pub proof fn lemma_deposit_balance(m: MappingModel, to: [u8; 32], amount: u64)
    requires
        m.wf(),
    ensures
        deposit_model(m, to, amount) is Some <==> m.balance_of(to) + amount <= u64::MAX,
        deposit_model(m, to, amount) matches Some(n) ==> n.wf() && forall|id: [u8; 32]|
            n.balance_of(id) == m.balance_of(id) + if id == to {
                amount as nat
            } else {
                0nat
            },
{
    if m.keys.contains(to) {
        let i = m.keys.index_of(to);
        if m.balances[i] + amount <= u64::MAX {
            let n = deposit_model(m, to, amount)->Some_0;
            assert forall|id: [u8; 32]| n.balance_of(id) == m.balance_of(id) + if id == to {
                amount as nat
            } else {
                0nat
            } by {
                if m.keys.contains(id) {
                    let j = m.keys.index_of(id);
                    lemma_index_of_unique(m.keys, j);
                }
            }
        }
    } else {
        lemma_push_fresh(m.keys, to);
        let n = deposit_model(m, to, amount)->Some_0;
        assert forall|id: [u8; 32]| n.balance_of(id) == m.balance_of(id) + if id == to {
            amount as nat
        } else {
            0nat
        } by {
            if m.keys.contains(id) {
                let j = m.keys.index_of(id);
                lemma_index_of_unique(n.keys, j);
            } else if id != to {
                assert(!n.keys.contains(id)) by {
                    if n.keys.contains(id) {
                        let j = n.keys.index_of(id);
                        assert(j < m.keys.len() ==> m.keys[j] == id);
                    }
                }
            }
        }
    }
}

proof fn lemma_deposited_prefix(ops: Seq<([u8; 32], u64)>, id: [u8; 32])
    requires
        ops.len() > 0,
    ensures
        deposited(ops.drop_last(), id) <= deposited(ops, id),
{
}

/// Depositing into a fresh mapping, in any order, leaves each identity holding exactly the
/// sum of the amounts deposited to it; and the deposits all succeed whenever each of those
/// sums fits in a `u64`.
pub proof fn lemma_deposits_accumulate(ops: Seq<([u8; 32], u64)>)
    ensures
        deposit_all(MappingModel::empty(), ops) matches Some(m) ==> m.wf() && forall|id: [u8; 32]|
            m.balance_of(id) == deposited(ops, id),
        (forall|id: [u8; 32]| deposited(ops, id) <= u64::MAX) ==> deposit_all(
            MappingModel::empty(),
            ops,
        ) is Some,
    decreases ops.len(),
{
    let e = MappingModel::empty();
    if ops.len() == 0 {
        assert(e.keys.no_duplicates());
        assert forall|id: [u8; 32]| e.balance_of(id) == deposited(ops, id) by {
            assert(!e.keys.contains(id));
        }
    } else {
        let pre = ops.drop_last();
        lemma_deposits_accumulate(pre);
        let (to, amount) = ops.last();
        if forall|id: [u8; 32]| deposited(ops, id) <= u64::MAX {
            assert forall|id: [u8; 32]| deposited(pre, id) <= u64::MAX by {
                lemma_deposited_prefix(ops, id);
            }
        }
        if let Some(m1) = deposit_all(e, pre) {
            lemma_deposit_balance(m1, to, amount);
            assert(deposited(ops, to) == deposited(pre, to) + amount);
        }
    }
}

/// A transfer never changes the total of all balances, whether it moves funds or not.
pub proof fn lemma_transfer_conserves_total(m: MappingModel, from: [u8; 32], to: [u8; 32], amount: u64)
    requires
        m.wf(),
    ensures
        transfer_model(m, from, to, amount).total() == m.total(),
{
    if m.keys.contains(from) && from != to && m.balances[m.keys.index_of(from)] >= amount {
        let s = m.keys.index_of(from);
        let debited = m.balances.update(s, (m.balances[s] - amount) as u64);
        lemma_sum_update(m.balances, s, (m.balances[s] - amount) as u64);
        if m.keys.contains(to) {
            let r = m.keys.index_of(to);
            if debited[r] + amount <= u64::MAX {
                lemma_sum_update(debited, r, (debited[r] + amount) as u64);
            }
        } else {
            lemma_sum_push(debited, amount);
        }
    }
}

/// A transfer from an identity that has no entry leaves the mapping exactly as it was.
pub proof fn lemma_transfer_from_absent_sender(m: MappingModel, from: [u8; 32], to: [u8; 32], amount: u64)
    requires
        !m.keys.contains(from),
    ensures
        transfer_model(m, from, to, amount) == m,
{
}

/// A withdrawal that is allowed lowers the owner's balance by exactly the amount and no
/// other balance; one that is not leaves every balance as it was.
pub proof fn lemma_withdraw_balance(m: MappingModel, from: [u8; 32], amount: u64)
    requires
        m.wf(),
    ensures
        withdraw_allowed(m, from, amount) <==> m.keys.contains(from) && m.balance_of(from) >= amount,
        forall|id: [u8; 32]|
            withdraw_model(m, from, amount).balance_of(id) == if id == from && withdraw_allowed(
                m,
                from,
                amount,
            ) {
                m.balance_of(id) - amount
            } else {
                m.balance_of(id) as int
            },
{
    let n = withdraw_model(m, from, amount);
    assert forall|id: [u8; 32]|
        n.balance_of(id) == if id == from && withdraw_allowed(m, from, amount) {
            m.balance_of(id) - amount
        } else {
            m.balance_of(id) as int
        } by {
        if m.keys.contains(id) {
            lemma_index_of_unique(m.keys, m.keys.index_of(id));
        }
        if withdraw_allowed(m, from, amount) {
            lemma_index_of_unique(m.keys, m.keys.index_of(from));
        }
    }
}

} // verus!
