//! Stored records of a ledger and the error codes of its operations.

use vstd::prelude::*;

use crate::engine::ids_equal;

verus! {

/// Why a ledger operation was refused.
#[derive(Clone, Copy, Debug, PartialEq, Eq, Structural)]
pub enum ErrorCode {
    /// The identity has no entry in any shard.
    UserNotFound,
    /// Every shard is full.
    NoSpaceAvailable,
    /// The vault presented does not belong to the ledger.
    InvalidVault,
    /// A credited balance would not fit in a `u64`.
    BalanceOverflow,
    /// The ledger already holds the largest number of shards its counter can name.
    ShardLimitReached,
    /// Stored ledger records that contradict one another.
    InconsistentLedger,
    /// No request with this correlation id is in flight.
    UnknownRequest,
    /// A request with this correlation id was already submitted.
    DuplicateRequest,
    /// A callback arrived for a request that is already completed.
    DuplicateCallback,
    /// A callback that cannot be attributed to the engine for the claimed request.
    UnauthenticatedCallback,
}

/// Maximum size of one shard's storage, in bytes.
pub const MAX_MAPPING_ACCOUNT_SIZE: usize = 10 * 1024 * 1024;

/// Size of one entry: an encrypted identity and an encrypted balance.
pub const ENTRY_SIZE: usize = 32 * 2;

/// Number of entries a shard can hold.
pub const MAX_ENTRIES_PER_ACCOUNT: usize = MAX_MAPPING_ACCOUNT_SIZE / ENTRY_SIZE;

/// The ledger record of one asset: its mint, its custody vault and how many shards it has.
#[derive(Clone, Copy, Debug)]
pub struct BlackboxAccount {
    pub bump: u8,
    pub token_mint: [u8; 32],
    pub vault: [u8; 32],
    pub mapping_account_count: u8,
}

/// One shard of the ledger: entries `encrypted_pubkeys[i]` / `encrypted_balances[i]`, each
/// a ciphertext, in the order they were created.
#[derive(Debug)]
pub struct MappingAccount {
    pub index: u8,
    pub token_mint: [u8; 32],
    pub encrypted_pubkeys: Vec<[u8; 32]>,
    pub encrypted_balances: Vec<[u8; 32]>,
}

/// The content of a shard.
pub ghost struct ShardModel {
    pub index: u8,
    pub token_mint: [u8; 32],
    pub keys: Seq<[u8; 32]>,
    pub balances: Seq<[u8; 32]>,
}

impl View for MappingAccount {
    type V = ShardModel;

    open spec fn view(&self) -> ShardModel {
        ShardModel {
            index: self.index,
            token_mint: self.token_mint,
            keys: self.encrypted_pubkeys@,
            balances: self.encrypted_balances@,
        }
    }
}

impl ShardModel {
    /// As many balances as identities, and no more entries than a shard holds.
    pub open spec fn wf(self) -> bool {
        &&& self.keys.len() == self.balances.len()
        &&& self.keys.len() <= MAX_ENTRIES_PER_ACCOUNT
    }

    pub open spec fn has_room(self) -> bool {
        self.keys.len() < MAX_ENTRIES_PER_ACCOUNT
    }

    /// The shard with one more entry at its end.
    pub open spec fn push_entry(self, id: [u8; 32], balance: [u8; 32]) -> ShardModel {
        ShardModel { keys: self.keys.push(id), balances: self.balances.push(balance), ..self }
    }

    /// The shard with the balance of entry `e` replaced.
    pub open spec fn set_balance(self, e: int, balance: [u8; 32]) -> ShardModel {
        ShardModel { balances: self.balances.update(e, balance), ..self }
    }
}

/// The contents of a sequence of shards.
pub open spec fn store_view(accounts: Seq<MappingAccount>) -> Seq<ShardModel> {
    accounts.map_values(|a: MappingAccount| a@)
}

/// Every shard is well formed.
pub open spec fn store_wf(shards: Seq<ShardModel>) -> bool {
    forall|a: int| 0 <= a < shards.len() ==> #[trigger] shards[a].wf()
}

/// Whether every shard in `mapping_accounts` holds entries of the ledger's asset.
pub fn shards_belong_to(blackbox: &BlackboxAccount, mapping_accounts: &Vec<MappingAccount>) -> (r: bool)
    ensures
        r == forall|a: int|
            0 <= a < mapping_accounts@.len() ==> #[trigger] mapping_accounts@[a].token_mint
                == blackbox.token_mint,
{
    let mut a: usize = 0;
    while a < mapping_accounts.len()
        invariant
            0 <= a <= mapping_accounts@.len(),
            forall|b: int| 0 <= b < a ==> #[trigger] mapping_accounts@[b].token_mint == blackbox.token_mint,
        decreases mapping_accounts@.len() - a,
    {
        if !ids_equal(&mapping_accounts[a].token_mint, &blackbox.token_mint) {
            return false;
        }
        a = a + 1;
    }
    true
}

/// A fresh ledger record: no shard yet.
pub fn init_blackbox(token_mint: [u8; 32], vault: [u8; 32], bump: u8) -> (r: BlackboxAccount)
    ensures
        r.token_mint == token_mint,
        r.vault == vault,
        r.bump == bump,
        r.mapping_account_count == 0,
{
    BlackboxAccount { bump, token_mint, vault, mapping_account_count: 0 }
}

/// Accepts `vault` only when it is the ledger's own custody vault.
pub fn check_vault(blackbox: &BlackboxAccount, vault: &[u8; 32]) -> (r: Result<(), ErrorCode>)
    ensures
        r is Ok <==> blackbox.vault == *vault,
        r matches Err(e) ==> e == ErrorCode::InvalidVault,
{
    if ids_equal(&blackbox.vault, vault) {
        Ok(())
    } else {
        Err(ErrorCode::InvalidVault)
    }
}

} // verus!
