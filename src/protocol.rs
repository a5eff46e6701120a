//! Requests to the confidential engine and the callbacks that settle them.
//!
//! Submitting an operation reserves the entries it will write, records the request under
//! its correlation id and returns the engine's arguments; nothing is reserved when it is
//! refused. The callback stores the engine's ciphertexts at those entries and settles the
//! request, once. Every change goes through `&mut Ledger`, so reservation and write-back
//! are exclusive. Custody moves funds in on deposit and pays out only when the engine
//! accepted a withdrawal, so nothing taken optimistically has to be rolled back.

use vstd::prelude::*;

use crate::shards::{
    find_or_create_model, find_or_create_user_entry, find_user_entry, first_entry, grows, holds_entry,
    lemma_first_entry_is,
};
use crate::engine::ids_equal;
use crate::state::{
    init_blackbox, store_view, store_wf, BlackboxAccount, ErrorCode, MappingAccount, ShardModel,
    MAX_ENTRIES_PER_ACCOUNT,
};

verus! {

/// The kind of operation a request asks the confidential engine to run.
#[derive(Clone, Copy, Debug, PartialEq, Eq, Structural)]
pub enum OperationKind {
    Deposit,
    Transfer,
    Withdraw,
}

/// A request handed to the confidential engine and not yet answered. `primary` is the
/// entry of the owner (the sender, for a transfer) and `secondary` that of the recipient of
/// a transfer; `amount` is the plaintext amount of a deposit or a withdrawal.
#[derive(Clone, Copy, Debug)]
pub struct PendingRequest {
    pub request_id: u64,
    pub kind: OperationKind,
    pub primary: (usize, usize),
    pub secondary: (usize, usize),
    pub amount: u64,
}

/// One positional argument of a computation handed to the confidential engine: an
/// identity or an amount, in the clear or as a ciphertext.
#[derive(Clone, Copy, Debug)]
pub enum Argument {
    PlaintextPubkey([u8; 32]),
    PlaintextU64(u64),
    CipheredPubkey([u8; 32]),
    CipheredU64([u8; 32]),
}

/// What the confidential engine hands back for a request: the new balance ciphertexts of
/// the entries it touched and, for a withdrawal, whether it succeeded.
#[derive(Clone, Copy, Debug)]
pub enum EngineOutput {
    Deposit { balance: [u8; 32] },
    Transfer { sender_balance: [u8; 32], recipient_balance: [u8; 32] },
    Withdraw { balance: [u8; 32], success: bool },
}

/// What the custody vault must do once a request is settled.
#[derive(Clone, Copy, Debug, PartialEq, Eq, Structural)]
pub enum CustodyAction {
    /// Nothing moves.
    Keep,
    /// Pay this plaintext amount out of the vault to the request's owner.
    PayOut(u64),
}

/// The ledger of one asset: its record, its shards, the requests in flight and the
/// correlation ids of those already settled.
pub struct Ledger {
    pub blackbox: BlackboxAccount,
    pub mapping_accounts: Vec<MappingAccount>,
    pub pending: Vec<PendingRequest>,
    pub closed: Vec<u64>,
}

pub ghost struct LedgerModel {
    pub blackbox: BlackboxAccount,
    pub shards: Seq<ShardModel>,
    pub pending: Seq<PendingRequest>,
    pub closed: Seq<u64>,
}

impl View for Ledger {
    type V = LedgerModel;

    open spec fn view(&self) -> LedgerModel {
        LedgerModel {
            blackbox: self.blackbox,
            shards: store_view(self.mapping_accounts@),
            pending: self.pending@,
            closed: self.closed@,
        }
    }
}

/// The balance ciphertext that a reserved entry holds until its request is settled.
pub open spec fn unset_balance() -> [u8; 32] {
    vstd::array::spec_array_fill_for_copy_type::<u8, 32>(0u8)
}

/// Entry `s.1` of shard `s.0` exists.
pub open spec fn slot_valid(shards: Seq<ShardModel>, s: (usize, usize)) -> bool {
    s.0 < shards.len() && s.1 < shards[s.0 as int].keys.len()
}

pub open spec fn has_pending(pending: Seq<PendingRequest>, id: u64) -> bool {
    exists|i: int| 0 <= i < pending.len() && #[trigger] pending[i].request_id == id
}

/// Where the request `id` stands among those in flight.
pub open spec fn pending_index(pending: Seq<PendingRequest>, id: u64) -> int {
    choose|i: int| 0 <= i < pending.len() && #[trigger] pending[i].request_id == id
}

impl LedgerModel {
    /// The shards are well formed, there are as many as the record counts, each knows its
    /// place and holds the ledger's asset; every request in flight points at existing entries, and correlation ids
    /// are never shared between two requests in flight or with a settled one.
    pub open spec fn wf(self) -> bool {
        &&& store_wf(self.shards)
        &&& self.shards.len() == self.blackbox.mapping_account_count
        &&& forall|a: int| 0 <= a < self.shards.len() ==> #[trigger] self.shards[a].index == a
        &&& forall|a: int|
            0 <= a < self.shards.len() ==> #[trigger] self.shards[a].token_mint == self.blackbox.token_mint
        &&& forall|i: int|
            0 <= i < self.pending.len() ==> slot_valid(self.shards, #[trigger] self.pending[i].primary)
                && slot_valid(self.shards, self.pending[i].secondary)
        &&& forall|i: int, j: int|
            0 <= i < self.pending.len() && 0 <= j < self.pending.len() && i != j
                ==> #[trigger] self.pending[i].request_id != #[trigger] self.pending[j].request_id
        &&& forall|i: int|
            0 <= i < self.pending.len() ==> !self.closed.contains(#[trigger] self.pending[i].request_id)
    }

    /// The correlation id is taken, by a request in flight or a settled one.
    pub open spec fn id_in_use(self, id: u64) -> bool {
        self.closed.contains(id) || has_pending(self.pending, id)
    }

    /// The ledger with one more request in flight and the shards given.
    pub open spec fn with_request(self, shards: Seq<ShardModel>, req: PendingRequest) -> LedgerModel {
        LedgerModel { shards, pending: self.pending.push(req), ..self }
    }
}

/// Drops what a successful result carries.
pub open spec fn outcome<T>(r: Result<T, ErrorCode>) -> Result<(), ErrorCode> {
    match r {
        Ok(_) => Ok(()),
        Err(e) => Err(e),
    }
}

/// The engine's arguments for a deposit or a withdrawal: the owner and the amount, in the
/// clear.
pub open spec fn owner_arguments(user: [u8; 32], amount: u64) -> Seq<Argument> {
    seq![Argument::PlaintextPubkey(user), Argument::PlaintextU64(amount)]
}

/// The engine's arguments for a transfer: the sender in the clear, the recipient and the
/// amount as ciphertexts.
pub open spec fn transfer_arguments(sender: [u8; 32], enc_recipient: [u8; 32], enc_amount: [u8; 32]) -> Seq<Argument> {
    seq![Argument::PlaintextPubkey(sender), Argument::CipheredPubkey(enc_recipient), Argument::CipheredU64(enc_amount)]
}

/// Submitting a deposit of `amount` for `user`: its entry is found or reserved, and the
/// request is recorded in flight.
pub open spec fn submit_deposit_model(l: LedgerModel, request_id: u64, user: [u8; 32], amount: u64) -> (
    Result<(), ErrorCode>,
    LedgerModel,
) {
    if l.id_in_use(request_id) {
        (Err(ErrorCode::DuplicateRequest), l)
    } else {
        let (r, shards) = find_or_create_model(l.shards, user, unset_balance());
        match r {
            Ok(p) => {
                let slot = (p.0 as usize, p.1 as usize);
                (
                    Ok(()),
                    l.with_request(
                        shards,
                        PendingRequest {
                            request_id,
                            kind: OperationKind::Deposit,
                            primary: slot,
                            secondary: slot,
                            amount,
                        },
                    ),
                )
            },
            Err(e) => (Err(e), l),
        }
    }
}

/// Submitting a transfer from `sender` to `recipient`: the sender's entry must exist, the
/// recipient's is found or reserved, and the request is recorded in flight.
pub open spec fn submit_transfer_model(l: LedgerModel, request_id: u64, sender: [u8; 32], recipient: [u8; 32]) -> (
    Result<(), ErrorCode>,
    LedgerModel,
) {
    if l.id_in_use(request_id) {
        (Err(ErrorCode::DuplicateRequest), l)
    } else if !holds_entry(l.shards, sender) {
        (Err(ErrorCode::UserNotFound), l)
    } else {
        let s = first_entry(l.shards, sender);
        let (r, shards) = find_or_create_model(l.shards, recipient, unset_balance());
        match r {
            Ok(p) => (
                Ok(()),
                l.with_request(
                    shards,
                    PendingRequest {
                        request_id,
                        kind: OperationKind::Transfer,
                        primary: (s.0 as usize, s.1 as usize),
                        secondary: (p.0 as usize, p.1 as usize),
                        amount: 0,
                    },
                ),
            ),
            Err(e) => (Err(e), l),
        }
    }
}

/// Submitting a withdrawal of `amount` by `user`: its entry must exist, and the request is
/// recorded in flight.
pub open spec fn submit_withdraw_model(l: LedgerModel, request_id: u64, user: [u8; 32], amount: u64) -> (
    Result<(), ErrorCode>,
    LedgerModel,
) {
    if l.id_in_use(request_id) {
        (Err(ErrorCode::DuplicateRequest), l)
    } else if !holds_entry(l.shards, user) {
        (Err(ErrorCode::UserNotFound), l)
    } else {
        let s = first_entry(l.shards, user);
        let slot = (s.0 as usize, s.1 as usize);
        (
            Ok(()),
            l.with_request(
                l.shards,
                PendingRequest { request_id, kind: OperationKind::Withdraw, primary: slot, secondary: slot, amount },
            ),
        )
    }
}

/// The output is of the kind the request asked for.
pub open spec fn output_matches(kind: OperationKind, out: EngineOutput) -> bool {
    match out {
        EngineOutput::Deposit { .. } => kind == OperationKind::Deposit,
        EngineOutput::Transfer { .. } => kind == OperationKind::Transfer,
        EngineOutput::Withdraw { .. } => kind == OperationKind::Withdraw,
    }
}

/// The shards with the balance ciphertext at `slot` replaced by `ct`.
pub open spec fn write_model(shards: Seq<ShardModel>, slot: (usize, usize), ct: [u8; 32]) -> Seq<ShardModel> {
    shards.update(slot.0 as int, shards[slot.0 as int].set_balance(slot.1 as int, ct))
}

/// The shards once the engine's ciphertexts for `req` are stored.
pub open spec fn written(shards: Seq<ShardModel>, req: PendingRequest, out: EngineOutput) -> Seq<ShardModel> {
    match out {
        EngineOutput::Deposit { balance } => write_model(shards, req.primary, balance),
        EngineOutput::Transfer { sender_balance, recipient_balance } => write_model(
            write_model(shards, req.primary, sender_balance),
            req.secondary,
            recipient_balance,
        ),
        EngineOutput::Withdraw { balance, .. } => write_model(shards, req.primary, balance),
    }
}

/// A withdrawal that the engine accepted pays its amount out; nothing else moves funds.
pub open spec fn custody_model(req: PendingRequest, out: EngineOutput) -> CustodyAction {
    match out {
        EngineOutput::Withdraw { success, .. } => if success {
            CustodyAction::PayOut(req.amount)
        } else {
            CustodyAction::Keep
        },
        _ => CustodyAction::Keep,
    }
}

/// The request `id` leaves the set in flight and joins the settled ones.
pub open spec fn settle(l: LedgerModel, id: u64, shards: Seq<ShardModel>) -> LedgerModel {
    LedgerModel {
        shards,
        pending: l.pending.remove(pending_index(l.pending, id)),
        closed: l.closed.push(id),
        ..l
    }
}

/// Delivering the engine's `out` for request `id`. Rejected, with the ledger unchanged,
/// when it is not authenticated, when the request was already settled, when no such
/// request is in flight, or when the output is not of the request's kind.
pub open spec fn callback_model(l: LedgerModel, id: u64, authenticated: bool, out: EngineOutput) -> (
    Result<CustodyAction, ErrorCode>,
    LedgerModel,
) {
    if !authenticated {
        (Err(ErrorCode::UnauthenticatedCallback), l)
    } else if l.closed.contains(id) {
        (Err(ErrorCode::DuplicateCallback), l)
    } else if !has_pending(l.pending, id) {
        (Err(ErrorCode::UnauthenticatedCallback), l)
    } else {
        let req = l.pending[pending_index(l.pending, id)];
        if !output_matches(req.kind, out) {
            (Err(ErrorCode::UnauthenticatedCallback), l)
        } else {
            (Ok(custody_model(req, out)), settle(l, id, written(l.shards, req, out)))
        }
    }
}

/// Abandoning request `id`: it is settled without an answer; a deposit's amount goes back
/// to its owner.
pub open spec fn expire_model(l: LedgerModel, id: u64) -> (Result<CustodyAction, ErrorCode>, LedgerModel) {
    if !has_pending(l.pending, id) {
        (Err(ErrorCode::UnknownRequest), l)
    } else {
        let req = l.pending[pending_index(l.pending, id)];
        (
            Ok(
                if req.kind == OperationKind::Deposit {
                    CustodyAction::PayOut(req.amount)
                } else {
                    CustodyAction::Keep
                },
            ),
            settle(l, id, l.shards),
        )
    }
}

proof fn lemma_pending_index(pending: Seq<PendingRequest>, i: int)
    requires
        0 <= i < pending.len(),
        forall|a: int, b: int|
            0 <= a < pending.len() && 0 <= b < pending.len() && a != b ==> #[trigger] pending[a].request_id
                != #[trigger] pending[b].request_id,
    ensures
        has_pending(pending, pending[i].request_id),
        pending_index(pending, pending[i].request_id) == i,
{
    let id = pending[i].request_id;
    assert(pending[i].request_id == id);
    let j = pending_index(pending, id);
    assert(0 <= j < pending.len() && pending[j].request_id == id);
}

proof fn lemma_write_keeps(shards: Seq<ShardModel>, slot: (usize, usize), ct: [u8; 32])
    requires
        store_wf(shards),
        slot_valid(shards, slot),
    ensures
        store_wf(write_model(shards, slot, ct)),
        write_model(shards, slot, ct).len() == shards.len(),
        grows(shards, write_model(shards, slot, ct)),
        forall|a: int| 0 <= a < shards.len() ==> #[trigger] write_model(shards, slot, ct)[a].keys == shards[a].keys,
{
    let w = write_model(shards, slot, ct);
    assert forall|a: int| 0 <= a < w.len() implies #[trigger] w[a].wf() by {
        assert(shards[a].wf());
    }
}

proof fn lemma_wf_after_request(l: LedgerModel, shards: Seq<ShardModel>, req: PendingRequest)
    requires
        l.wf(),
        store_wf(shards),
        shards.len() == l.shards.len(),
        grows(l.shards, shards),
        slot_valid(shards, req.primary),
        slot_valid(shards, req.secondary),
        !l.id_in_use(req.request_id),
    ensures
        l.with_request(shards, req).wf(),
{
    let n = l.with_request(shards, req);
    assert forall|a: int| 0 <= a < n.shards.len() implies #[trigger] n.shards[a].index == a by {
        assert(l.shards[a].index == a);
        assert(l.shards[a].keys.len() <= shards[a].keys.len());
    }
    assert forall|a: int| 0 <= a < n.shards.len() implies #[trigger] n.shards[a].token_mint == n.blackbox.token_mint by {
        assert(l.shards[a].token_mint == l.blackbox.token_mint);
        assert(l.shards[a].keys.len() <= shards[a].keys.len());
    }
    assert forall|i: int| 0 <= i < n.pending.len() implies slot_valid(n.shards, #[trigger] n.pending[i].primary)
        && slot_valid(n.shards, n.pending[i].secondary) by {
        if i < l.pending.len() {
            assert(slot_valid(l.shards, l.pending[i].primary));
            assert(slot_valid(l.shards, l.pending[i].secondary));
        }
    }
    assert forall|i: int, j: int|
        0 <= i < n.pending.len() && 0 <= j < n.pending.len() && i != j implies #[trigger] n.pending[i].request_id
        != #[trigger] n.pending[j].request_id by {
        if i < l.pending.len() && j < l.pending.len() {
        } else if i < l.pending.len() {
            assert(l.pending[i].request_id == n.pending[i].request_id);
        } else {
            assert(l.pending[j].request_id == n.pending[j].request_id);
        }
    }
    assert forall|i: int| 0 <= i < n.pending.len() implies !n.closed.contains(#[trigger] n.pending[i].request_id) by {
        if i < l.pending.len() {
            assert(!l.closed.contains(l.pending[i].request_id));
        }
    }
}

proof fn lemma_wf_after_settle(l: LedgerModel, id: u64, shards: Seq<ShardModel>)
    requires
        l.wf(),
        has_pending(l.pending, id),
        store_wf(shards),
        shards.len() == l.shards.len(),
        grows(l.shards, shards),
    ensures
        settle(l, id, shards).wf(),
{
    let k = pending_index(l.pending, id);
    let n = settle(l, id, shards);
    assert(0 <= k < l.pending.len() && l.pending[k].request_id == id);
    assert forall|a: int| 0 <= a < n.shards.len() implies #[trigger] n.shards[a].index == a by {
        assert(l.shards[a].index == a);
        assert(l.shards[a].keys.len() <= shards[a].keys.len());
    }
    assert forall|a: int| 0 <= a < n.shards.len() implies #[trigger] n.shards[a].token_mint == n.blackbox.token_mint by {
        assert(l.shards[a].token_mint == l.blackbox.token_mint);
        assert(l.shards[a].keys.len() <= shards[a].keys.len());
    }
    assert forall|i: int| 0 <= i < n.pending.len() implies slot_valid(n.shards, #[trigger] n.pending[i].primary)
        && slot_valid(n.shards, n.pending[i].secondary) by {
        let o = if i < k { i } else { i + 1 };
        assert(n.pending[i] == l.pending[o]);
        assert(slot_valid(l.shards, l.pending[o].primary));
        assert(slot_valid(l.shards, l.pending[o].secondary));
    }
    assert forall|i: int, j: int|
        0 <= i < n.pending.len() && 0 <= j < n.pending.len() && i != j implies #[trigger] n.pending[i].request_id
        != #[trigger] n.pending[j].request_id by {
        let oi = if i < k { i } else { i + 1 };
        let oj = if j < k { j } else { j + 1 };
        assert(n.pending[i] == l.pending[oi]);
        assert(n.pending[j] == l.pending[oj]);
    }
    assert forall|i: int| 0 <= i < n.pending.len() implies !n.closed.contains(#[trigger] n.pending[i].request_id) by {
        let o = if i < k { i } else { i + 1 };
        assert(n.pending[i] == l.pending[o]);
        assert(!l.closed.contains(l.pending[o].request_id));
        assert(l.pending[o].request_id != id);
        if n.closed.contains(n.pending[i].request_id) {
            let c = choose|c: int| 0 <= c < n.closed.len() && n.closed[c] == n.pending[i].request_id;
            if c < l.closed.len() {
                assert(l.closed[c] == n.closed[c]);
            }
        }
    }
}

fn closed_contains(closed: &Vec<u64>, id: u64) -> (r: bool)
    ensures
        r == closed@.contains(id),
{
    let mut i: usize = 0;
    while i < closed.len()
        invariant
            0 <= i <= closed@.len(),
            forall|j: int| 0 <= j < i ==> closed@[j] != id,
        decreases closed@.len() - i,
    {
        if closed[i] == id {
            return true;
        }
        i = i + 1;
    }
    false
}

fn find_pending(pending: &Vec<PendingRequest>, id: u64) -> (r: Option<usize>)
    ensures
        match r {
            Some(i) => i < pending@.len() && pending@[i as int].request_id == id,
            None => !has_pending(pending@, id),
        },
{
    let mut i: usize = 0;
    while i < pending.len()
        invariant
            0 <= i <= pending@.len(),
            forall|j: int| 0 <= j < i ==> #[trigger] pending@[j].request_id != id,
        decreases pending@.len() - i,
    {
        if pending[i].request_id == id {
            return Some(i);
        }
        i = i + 1;
    }
    None
}

fn id_in_use(ledger: &Ledger, id: u64) -> (r: bool)
    ensures
        r == ledger@.id_in_use(id),
{
    closed_contains(&ledger.closed, id) || find_pending(&ledger.pending, id).is_some()
}

fn write_balance(mapping_accounts: &mut Vec<MappingAccount>, slot: (usize, usize), ct: [u8; 32])
    requires
        store_wf(store_view(old(mapping_accounts)@)),
        slot_valid(store_view(old(mapping_accounts)@), slot),
    ensures
        store_view(final(mapping_accounts)@) == write_model(store_view(old(mapping_accounts)@), slot, ct),
{
    let ghost s0 = store_view(mapping_accounts@);
    proof {
        assert(s0[slot.0 as int].wf());
    }
    let mut shard = mapping_accounts.remove(slot.0);
    shard.encrypted_balances.set(slot.1, ct);
    mapping_accounts.insert(slot.0, shard);
    assert(store_view(mapping_accounts@) =~= write_model(s0, slot, ct));
}

fn shards_valid(blackbox: &BlackboxAccount, mapping_accounts: &Vec<MappingAccount>) -> (r: bool)
    ensures
        r == {
            let shards = store_view(mapping_accounts@);
            &&& store_wf(shards)
            &&& shards.len() == blackbox.mapping_account_count
            &&& forall|a: int| 0 <= a < shards.len() ==> #[trigger] shards[a].index == a
            &&& forall|a: int| 0 <= a < shards.len() ==> #[trigger] shards[a].token_mint == blackbox.token_mint
        },
{
    let ghost shards = store_view(mapping_accounts@);
    if mapping_accounts.len() != blackbox.mapping_account_count as usize {
        return false;
    }
    let mut a: usize = 0;
    while a < mapping_accounts.len()
        invariant
            shards == store_view(mapping_accounts@),
            0 <= a <= shards.len(),
            forall|b: int| 0 <= b < a ==> #[trigger] shards[b].wf(),
            forall|b: int| 0 <= b < a ==> #[trigger] shards[b].index == b,
            forall|b: int| 0 <= b < a ==> #[trigger] shards[b].token_mint == blackbox.token_mint,
        decreases shards.len() - a,
    {
        let shard = &mapping_accounts[a];
        if shard.encrypted_pubkeys.len() != shard.encrypted_balances.len()
            || shard.encrypted_pubkeys.len() > MAX_ENTRIES_PER_ACCOUNT
            || shard.index as usize != a
            || !ids_equal(&shard.token_mint, &blackbox.token_mint) {
            assert(!shards[a as int].wf() || shards[a as int].index != a || shards[a as int].token_mint
                != blackbox.token_mint);
            return false;
        }
        a = a + 1;
    }
    true
}

fn slot_ok(mapping_accounts: &Vec<MappingAccount>, slot: (usize, usize)) -> (r: bool)
    ensures
        r == slot_valid(store_view(mapping_accounts@), slot),
{
    slot.0 < mapping_accounts.len() && slot.1 < mapping_accounts[slot.0].encrypted_pubkeys.len()
}

fn requests_valid(mapping_accounts: &Vec<MappingAccount>, pending: &Vec<PendingRequest>, closed: &Vec<u64>) -> (r: bool)
    ensures
        r == {
            let shards = store_view(mapping_accounts@);
            &&& forall|i: int|
                0 <= i < pending@.len() ==> slot_valid(shards, #[trigger] pending@[i].primary) && slot_valid(
                    shards,
                    pending@[i].secondary,
                )
            &&& forall|i: int, j: int|
                0 <= i < pending@.len() && 0 <= j < pending@.len() && i != j ==> #[trigger] pending@[i].request_id
                    != #[trigger] pending@[j].request_id
            &&& forall|i: int| 0 <= i < pending@.len() ==> !closed@.contains(#[trigger] pending@[i].request_id)
        },
{
    let ghost shards = store_view(mapping_accounts@);
    let ghost p = pending@;
    let mut i: usize = 0;
    while i < pending.len()
        invariant
            shards == store_view(mapping_accounts@),
            p == pending@,
            0 <= i <= p.len(),
            forall|k: int| 0 <= k < i ==> slot_valid(shards, #[trigger] p[k].primary) && slot_valid(shards, p[k].secondary),
            forall|k: int, j: int| 0 <= k < i && 0 <= j < p.len() && k != j ==> #[trigger] p[k].request_id != #[trigger] p[j].request_id,
            forall|k: int| 0 <= k < i ==> !closed@.contains(#[trigger] p[k].request_id),
        decreases p.len() - i,
    {
        let req = pending[i];
        if !slot_ok(mapping_accounts, req.primary) || !slot_ok(mapping_accounts, req.secondary) {
            return false;
        }
        if closed_contains(closed, req.request_id) {
            return false;
        }
        let mut j: usize = 0;
        while j < pending.len()
            invariant
                p == pending@,
                0 <= i < p.len(),
                req == p[i as int],
                0 <= j <= p.len(),
                slot_valid(shards, req.primary) && slot_valid(shards, req.secondary),
                !closed@.contains(req.request_id),
                forall|k: int| 0 <= k < i ==> slot_valid(shards, #[trigger] p[k].primary) && slot_valid(shards, p[k].secondary),
                forall|k: int, m: int| 0 <= k < i && 0 <= m < p.len() && k != m ==> #[trigger] p[k].request_id != #[trigger] p[m].request_id,
                forall|k: int| 0 <= k < i ==> !closed@.contains(#[trigger] p[k].request_id),
                forall|m: int| 0 <= m < j && m != i ==> #[trigger] p[m].request_id != req.request_id,
            decreases p.len() - j,
        {
            if j != i && pending[j].request_id == req.request_id {
                assert(p[i as int].request_id == p[j as int].request_id);
                return false;
            }
            j = j + 1;
        }
        assert(slot_valid(shards, p[i as int].primary) && slot_valid(shards, p[i as int].secondary));
        assert forall|k: int| 0 <= k < i + 1 implies slot_valid(shards, #[trigger] p[k].primary) && slot_valid(
            shards,
            p[k].secondary,
        ) by {
            if k == i {
                assert(p[k] == req);
            }
        }
        assert forall|k: int, m: int| 0 <= k < i + 1 && 0 <= m < p.len() && k != m implies #[trigger] p[k].request_id
            != #[trigger] p[m].request_id by {
            if k == i {
                assert(p[m].request_id != req.request_id);
            }
        }
        i = i + 1;
    }
    true
}

impl Ledger {
    /// A ledger for the asset `token_mint`, with its custody `vault`: no shard, no request.
    pub fn new(token_mint: [u8; 32], vault: [u8; 32], bump: u8) -> (r: Ledger)
        ensures
            r@.wf(),
            r@.blackbox.token_mint == token_mint,
            r@.blackbox.vault == vault,
            r@.blackbox.bump == bump,
            r@.blackbox.mapping_account_count == 0,
            r@.shards.len() == 0,
            r@.pending.len() == 0,
            r@.closed.len() == 0,
    {
        Ledger {
            blackbox: init_blackbox(token_mint, vault, bump),
            mapping_accounts: Vec::new(),
            pending: Vec::new(),
            closed: Vec::new(),
        }
    }

    /// Puts a ledger together from stored records, provided they agree with one another as
    /// the ledger requires; `InconsistentLedger` otherwise.
    pub fn open(
        blackbox: BlackboxAccount,
        mapping_accounts: Vec<MappingAccount>,
        pending: Vec<PendingRequest>,
        closed: Vec<u64>,
    ) -> (r: Result<Ledger, ErrorCode>)
        ensures
            r is Ok <==> (LedgerModel {
                blackbox,
                shards: store_view(mapping_accounts@),
                pending: pending@,
                closed: closed@,
            }).wf(),
            r matches Ok(l) ==> l@ == (LedgerModel {
                blackbox,
                shards: store_view(mapping_accounts@),
                pending: pending@,
                closed: closed@,
            }),
            r matches Err(e) ==> e == ErrorCode::InconsistentLedger,
    {
        if !shards_valid(&blackbox, &mapping_accounts) || !requests_valid(&mapping_accounts, &pending, &closed) {
            return Err(ErrorCode::InconsistentLedger);
        }
        Ok(Ledger { blackbox, mapping_accounts, pending, closed })
    }
}

/// Appends an empty shard whose index is the current shard count, and counts it. Refused
/// with `ShardLimitReached`, changing nothing, once the count cannot grow.
pub fn initialize_mapping_account(ledger: &mut Ledger) -> (r: Result<u8, ErrorCode>)
    requires
        old(ledger)@.wf(),
    ensures
        final(ledger)@.wf(),
        match r {
            Ok(i) => {
                &&& old(ledger)@.blackbox.mapping_account_count < u8::MAX
                &&& i == old(ledger)@.blackbox.mapping_account_count
                &&& final(ledger)@ == (LedgerModel {
                    blackbox: BlackboxAccount { mapping_account_count: (i + 1) as u8, ..old(ledger)@.blackbox },
                    shards: old(ledger)@.shards.push(
                        ShardModel {
                            index: i,
                            token_mint: old(ledger)@.blackbox.token_mint,
                            keys: Seq::empty(),
                            balances: Seq::empty(),
                        },
                    ),
                    ..old(ledger)@
                })
            },
            Err(e) => e == ErrorCode::ShardLimitReached && old(ledger)@.blackbox.mapping_account_count
                == u8::MAX && final(ledger)@ == old(ledger)@,
        },
{
    let index = ledger.blackbox.mapping_account_count;
    if index == u8::MAX {
        return Err(ErrorCode::ShardLimitReached);
    }
    let ghost l0 = ledger@;
    let shard = MappingAccount {
        index,
        token_mint: ledger.blackbox.token_mint,
        encrypted_pubkeys: Vec::new(),
        encrypted_balances: Vec::new(),
    };
    ledger.mapping_accounts.push(shard);
    ledger.blackbox.mapping_account_count = index + 1;
    proof {
        let shards = l0.shards.push(
            ShardModel {
                index,
                token_mint: l0.blackbox.token_mint,
                keys: Seq::empty(),
                balances: Seq::empty(),
            },
        );
        assert(ledger@.shards =~= shards);
        let n = ledger@;
        assert forall|a: int| 0 <= a < n.shards.len() implies #[trigger] n.shards[a].wf() by {
            if a < l0.shards.len() {
                assert(l0.shards[a].wf());
            }
        }
        assert forall|a: int| 0 <= a < n.shards.len() implies #[trigger] n.shards[a].index == a by {
            if a < l0.shards.len() {
                assert(l0.shards[a].index == a);
            }
        }
        assert forall|a: int| 0 <= a < n.shards.len() implies #[trigger] n.shards[a].token_mint == n.blackbox.token_mint by {
            if a < l0.shards.len() {
                assert(l0.shards[a].token_mint == l0.blackbox.token_mint);
            }
        }
        assert forall|i: int| 0 <= i < n.pending.len() implies slot_valid(n.shards, #[trigger] n.pending[i].primary)
            && slot_valid(n.shards, n.pending[i].secondary) by {
            assert(slot_valid(l0.shards, l0.pending[i].primary));
            assert(slot_valid(l0.shards, l0.pending[i].secondary));
        }
    }
    Ok(index)
}

/// Submits a deposit of `amount` for `user` under the correlation id `request_id`: the
/// user's entry is found, or reserved in the first shard with room, and the request is
/// recorded in flight; the arguments for the engine are returned. Refused, changing
/// nothing, when the id is taken (`DuplicateRequest`) or every shard is full
/// (`NoSpaceAvailable`).
pub fn deposit(ledger: &mut Ledger, request_id: u64, user: [u8; 32], amount: u64) -> (r: Result<Vec<Argument>, ErrorCode>)
    requires
        old(ledger)@.wf(),
    ensures
        (outcome(r), final(ledger)@) == submit_deposit_model(old(ledger)@, request_id, user, amount),
        r matches Ok(args) ==> args@ == owner_arguments(user, amount),
        final(ledger)@.wf(),
{
    if id_in_use(ledger, request_id) {
        return Err(ErrorCode::DuplicateRequest);
    }
    let ghost l0 = ledger@;
    let unset: [u8; 32] = [0u8; 32];
    match find_or_create_user_entry(&mut ledger.mapping_accounts, user, unset) {
        Ok(slot) => {
            let req = PendingRequest {
                request_id,
                kind: OperationKind::Deposit,
                primary: slot,
                secondary: slot,
                amount,
            };
            ledger.pending.push(req);
            proof {
                lemma_wf_after_request(l0, ledger@.shards, req);
                assert(ledger@ == l0.with_request(ledger@.shards, req));
            }
            Ok(owner_args(user, amount))
        },
        Err(e) => Err(e),
    }
}

fn owner_args(user: [u8; 32], amount: u64) -> (r: Vec<Argument>)
    ensures
        r@ == owner_arguments(user, amount),
{
    let r = vec![Argument::PlaintextPubkey(user), Argument::PlaintextU64(amount)];
    assert(r@ =~= owner_arguments(user, amount));
    r
}

/// Submits a transfer from `sender` to `recipient` under `request_id`. The engine gets the
/// recipient and the amount only as the ciphertexts `enc_recipient` and `enc_amount`. The
/// sender's entry must exist (`UserNotFound`); the recipient's is found or reserved
/// (`NoSpaceAvailable`). A refused request changes nothing.
pub fn transfer(
    ledger: &mut Ledger,
    request_id: u64,
    sender: [u8; 32],
    recipient: [u8; 32],
    enc_recipient: [u8; 32],
    enc_amount: [u8; 32],
) -> (r: Result<Vec<Argument>, ErrorCode>)
    requires
        old(ledger)@.wf(),
    ensures
        (outcome(r), final(ledger)@) == submit_transfer_model(old(ledger)@, request_id, sender, recipient),
        r matches Ok(args) ==> args@ == transfer_arguments(sender, enc_recipient, enc_amount),
        final(ledger)@.wf(),
{
    if id_in_use(ledger, request_id) {
        return Err(ErrorCode::DuplicateRequest);
    }
    let ghost l0 = ledger@;
    let from = match find_user_entry(&ledger.mapping_accounts, sender) {
        Ok(p) => p,
        Err(e) => return Err(e),
    };
    proof {
        lemma_first_entry_is(l0.shards, sender, from.0 as int, from.1 as int);
    }
    let unset: [u8; 32] = [0u8; 32];
    match find_or_create_user_entry(&mut ledger.mapping_accounts, recipient, unset) {
        Ok(to) => {
            let req = PendingRequest {
                request_id,
                kind: OperationKind::Transfer,
                primary: from,
                secondary: to,
                amount: 0,
            };
            ledger.pending.push(req);
            proof {
                assert(ledger@.shards[from.0 as int].keys.len() >= l0.shards[from.0 as int].keys.len());
                lemma_wf_after_request(l0, ledger@.shards, req);
                assert(ledger@ == l0.with_request(ledger@.shards, req));
            }
            let args = vec![
                Argument::PlaintextPubkey(sender),
                Argument::CipheredPubkey(enc_recipient),
                Argument::CipheredU64(enc_amount),
            ];
            assert(args@ =~= transfer_arguments(sender, enc_recipient, enc_amount));
            Ok(args)
        },
        Err(e) => Err(e),
    }
}

/// Submits a withdrawal of `amount` by `user` under `request_id`. The user's entry must
/// exist (`UserNotFound`); whether the balance suffices is decided by the engine, whose
/// arguments are returned.
pub fn withdraw(ledger: &mut Ledger, request_id: u64, user: [u8; 32], amount: u64) -> (r: Result<Vec<Argument>, ErrorCode>)
    requires
        old(ledger)@.wf(),
    ensures
        (outcome(r), final(ledger)@) == submit_withdraw_model(old(ledger)@, request_id, user, amount),
        r matches Ok(args) ==> args@ == owner_arguments(user, amount),
        final(ledger)@.wf(),
{
    if id_in_use(ledger, request_id) {
        return Err(ErrorCode::DuplicateRequest);
    }
    let ghost l0 = ledger@;
    let slot = match find_user_entry(&ledger.mapping_accounts, user) {
        Ok(p) => p,
        Err(e) => return Err(e),
    };
    proof {
        lemma_first_entry_is(l0.shards, user, slot.0 as int, slot.1 as int);
    }
    let req = PendingRequest { request_id, kind: OperationKind::Withdraw, primary: slot, secondary: slot, amount };
    ledger.pending.push(req);
    proof {
        lemma_wf_after_request(l0, l0.shards, req);
        assert(ledger@ == l0.with_request(l0.shards, req));
    }
    Ok(owner_args(user, amount))
}

/// Settles request `request_id` with the engine's `output`: its ciphertexts are stored at
/// the entries reserved on submission, the request leaves the set in flight, and the
/// custody action to perform is returned. A callback that is not authenticated, arrives a
/// second time (`DuplicateCallback`), names no request in flight or carries the output of
/// another kind of operation is refused and changes nothing. `authenticated` is the host's
/// verdict on whether the engine signed this callback for `request_id`.
pub fn apply_callback(ledger: &mut Ledger, request_id: u64, authenticated: bool, output: EngineOutput) -> (r: Result<CustodyAction, ErrorCode>)
    requires
        old(ledger)@.wf(),
    ensures
        (r, final(ledger)@) == callback_model(old(ledger)@, request_id, authenticated, output),
        final(ledger)@.wf(),
{
    if !authenticated {
        return Err(ErrorCode::UnauthenticatedCallback);
    }
    if closed_contains(&ledger.closed, request_id) {
        return Err(ErrorCode::DuplicateCallback);
    }
    let i = match find_pending(&ledger.pending, request_id) {
        Some(i) => i,
        None => return Err(ErrorCode::UnauthenticatedCallback),
    };
    let ghost l0 = ledger@;
    proof {
        lemma_pending_index(l0.pending, i as int);
    }
    let req = ledger.pending[i];
    proof {
        assert(slot_valid(l0.shards, req.primary));
        assert(slot_valid(l0.shards, req.secondary));
    }
    let action = match output {
        EngineOutput::Deposit { balance } => {
            if req.kind != OperationKind::Deposit {
                return Err(ErrorCode::UnauthenticatedCallback);
            }
            proof {
                lemma_write_keeps(l0.shards, req.primary, balance);
            }
            write_balance(&mut ledger.mapping_accounts, req.primary, balance);
            CustodyAction::Keep
        },
        EngineOutput::Transfer { sender_balance, recipient_balance } => {
            if req.kind != OperationKind::Transfer {
                return Err(ErrorCode::UnauthenticatedCallback);
            }
            proof {
                lemma_write_keeps(l0.shards, req.primary, sender_balance);
                let w = write_model(l0.shards, req.primary, sender_balance);
                assert(w[req.secondary.0 as int].keys == l0.shards[req.secondary.0 as int].keys);
                lemma_write_keeps(w, req.secondary, recipient_balance);
            }
            write_balance(&mut ledger.mapping_accounts, req.primary, sender_balance);
            write_balance(&mut ledger.mapping_accounts, req.secondary, recipient_balance);
            CustodyAction::Keep
        },
        EngineOutput::Withdraw { balance, success } => {
            if req.kind != OperationKind::Withdraw {
                return Err(ErrorCode::UnauthenticatedCallback);
            }
            proof {
                lemma_write_keeps(l0.shards, req.primary, balance);
            }
            write_balance(&mut ledger.mapping_accounts, req.primary, balance);
            if success {
                CustodyAction::PayOut(req.amount)
            } else {
                CustodyAction::Keep
            }
        },
    };
    ledger.pending.remove(i);
    ledger.closed.push(request_id);
    proof {
        let shards = written(l0.shards, req, output);
        assert(ledger@.shards == shards);
        assert forall|a: int| 0 <= a < l0.shards.len() implies l0.shards[a].keys.len() <= #[trigger] shards[a].keys.len()
            && shards[a].index == l0.shards[a].index && shards[a].token_mint == l0.shards[a].token_mint by {
            if let EngineOutput::Transfer { sender_balance, .. } = output {
                let w = write_model(l0.shards, req.primary, sender_balance);
                assert(w[a].keys == l0.shards[a].keys);
            }
        }
        lemma_wf_after_settle(l0, request_id, shards);
        assert(ledger@ == settle(l0, request_id, shards));
    }
    Ok(action)
}

/// Settles a deposit with the new balance ciphertext of the depositor's entry.
pub fn deposit_callback(ledger: &mut Ledger, request_id: u64, authenticated: bool, encrypted_balance: [u8; 32]) -> (r: Result<CustodyAction, ErrorCode>)
    requires
        old(ledger)@.wf(),
    ensures
        (r, final(ledger)@) == callback_model(
            old(ledger)@,
            request_id,
            authenticated,
            EngineOutput::Deposit { balance: encrypted_balance },
        ),
        final(ledger)@.wf(),
{
    apply_callback(ledger, request_id, authenticated, EngineOutput::Deposit { balance: encrypted_balance })
}

/// Settles a transfer with the new balance ciphertexts of the sender and the recipient.
pub fn transfer_callback(
    ledger: &mut Ledger,
    request_id: u64,
    authenticated: bool,
    sender_balance: [u8; 32],
    recipient_balance: [u8; 32],
) -> (r: Result<CustodyAction, ErrorCode>)
    requires
        old(ledger)@.wf(),
    ensures
        (r, final(ledger)@) == callback_model(
            old(ledger)@,
            request_id,
            authenticated,
            EngineOutput::Transfer { sender_balance, recipient_balance },
        ),
        final(ledger)@.wf(),
{
    apply_callback(ledger, request_id, authenticated, EngineOutput::Transfer { sender_balance, recipient_balance })
}

/// Settles a withdrawal with the owner's new balance ciphertext and the engine's verdict;
/// an accepted withdrawal asks the vault to pay its amount out.
pub fn withdraw_callback(
    ledger: &mut Ledger,
    request_id: u64,
    authenticated: bool,
    encrypted_balance: [u8; 32],
    success: bool,
) -> (r: Result<CustodyAction, ErrorCode>)
    requires
        old(ledger)@.wf(),
    ensures
        (r, final(ledger)@) == callback_model(
            old(ledger)@,
            request_id,
            authenticated,
            EngineOutput::Withdraw { balance: encrypted_balance, success },
        ),
        final(ledger)@.wf(),
{
    apply_callback(ledger, request_id, authenticated, EngineOutput::Withdraw { balance: encrypted_balance, success })
}

/// Abandons request `request_id`, for which no callback will come: it is settled as if
/// answered, so that a late callback is refused, and a deposit's amount goes back to its
/// owner. The reserved entry stays. Refused with `UnknownRequest` when no such request is in
/// flight.
pub fn expire_request(ledger: &mut Ledger, request_id: u64) -> (r: Result<CustodyAction, ErrorCode>)
    requires
        old(ledger)@.wf(),
    ensures
        (r, final(ledger)@) == expire_model(old(ledger)@, request_id),
        final(ledger)@.wf(),
{
    let i = match find_pending(&ledger.pending, request_id) {
        Some(i) => i,
        None => return Err(ErrorCode::UnknownRequest),
    };
    let ghost l0 = ledger@;
    proof {
        lemma_pending_index(l0.pending, i as int);
    }
    let req = ledger.pending[i];
    let action = if req.kind == OperationKind::Deposit {
        CustodyAction::PayOut(req.amount)
    } else {
        CustodyAction::Keep
    };
    ledger.pending.remove(i);
    ledger.closed.push(request_id);
    proof {
        lemma_wf_after_settle(l0, request_id, l0.shards);
        assert(ledger@ == settle(l0, request_id, l0.shards));
    }
    Ok(action)
}

/// Once a callback for a request has been applied, any later callback for the same
/// correlation id is refused, whatever it carries, and leaves the ledger, stored
/// ciphertexts included, exactly as the first one left it.
pub proof fn lemma_callback_applied_once(
    l: LedgerModel,
    request_id: u64,
    first: EngineOutput,
    authenticated: bool,
    second: EngineOutput,
)
    ensures
        callback_model(l, request_id, true, first).0 is Ok ==> callback_model(
            callback_model(l, request_id, true, first).1,
            request_id,
            authenticated,
            second,
        ) == (
            Err::<CustodyAction, ErrorCode>(
                if authenticated {
                    ErrorCode::DuplicateCallback
                } else {
                    ErrorCode::UnauthenticatedCallback
                },
            ),
            callback_model(l, request_id, true, first).1,
        ),
{
    let l1 = callback_model(l, request_id, true, first).1;
    if callback_model(l, request_id, true, first).0 is Ok {
        assert(l1.closed[l1.closed.len() - 1] == request_id);
    }
}

} // verus!
