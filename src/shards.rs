//! Lookup and placement of entries across the shards of a ledger.
//!
//! Shards are scanned in index order and entries in the order they were made. A new entry
//! goes to the first shard with room; when none has any, the caller must add a shard first.

use vstd::prelude::*;

use crate::engine::position_of;
use crate::state::{store_view, store_wf, ErrorCode, MappingAccount, ShardModel, MAX_ENTRIES_PER_ACCOUNT};

verus! {

/// Entry `e` of shard `a` exists and belongs to `id`.
pub open spec fn entry_at(shards: Seq<ShardModel>, a: int, e: int, id: [u8; 32]) -> bool {
    &&& 0 <= a < shards.len()
    &&& 0 <= e < shards[a].keys.len()
    &&& shards[a].keys[e] == id
}

/// Position `(a2, e2)` is scanned before `(a, e)`: shards in index order, then entries.
pub open spec fn comes_before(a2: int, e2: int, a: int, e: int) -> bool {
    a2 < a || (a2 == a && e2 < e)
}

/// `(a, e)` is the first entry of `id` in scanning order.
pub open spec fn is_first_entry(shards: Seq<ShardModel>, id: [u8; 32], a: int, e: int) -> bool {
    &&& entry_at(shards, a, e, id)
    &&& forall|a2: int, e2: int|
        #![trigger entry_at(shards, a2, e2, id)]
        comes_before(a2, e2, a, e) ==> !entry_at(shards, a2, e2, id)
}

/// Some shard holds an entry of `id`.
pub open spec fn holds_entry(shards: Seq<ShardModel>, id: [u8; 32]) -> bool {
    exists|a: int, e: int| entry_at(shards, a, e, id)
}

/// The first entry of `id`, when there is one.
pub open spec fn first_entry(shards: Seq<ShardModel>, id: [u8; 32]) -> (int, int) {
    choose|p: (int, int)| is_first_entry(shards, id, p.0, p.1)
}

/// Shard `a` is the first, in index order, with room for another entry.
pub open spec fn is_first_with_room(shards: Seq<ShardModel>, a: int) -> bool {
    &&& 0 <= a < shards.len()
    &&& shards[a].has_room()
    &&& forall|b: int| 0 <= b < a ==> !(#[trigger] shards[b].has_room())
}

pub open spec fn some_room(shards: Seq<ShardModel>) -> bool {
    exists|a: int| 0 <= a < shards.len() && #[trigger] shards[a].has_room()
}

pub open spec fn first_with_room(shards: Seq<ShardModel>) -> int {
    choose|a: int| is_first_with_room(shards, a)
}

/// Where `id`'s entry is, or `UserNotFound`.
pub open spec fn find_model(shards: Seq<ShardModel>, id: [u8; 32]) -> Result<(int, int), ErrorCode> {
    if holds_entry(shards, id) {
        Ok(first_entry(shards, id))
    } else {
        Err(ErrorCode::UserNotFound)
    }
}

/// Where `id`'s entry is, after appending one holding `initial_balance` to the first shard
/// with room if there was none; `NoSpaceAvailable` when every shard is full.
pub open spec fn find_or_create_model(shards: Seq<ShardModel>, id: [u8; 32], initial_balance: [u8; 32]) -> (
    Result<(int, int), ErrorCode>,
    Seq<ShardModel>,
) {
    if holds_entry(shards, id) {
        (Ok(first_entry(shards, id)), shards)
    } else if some_room(shards) {
        let a = first_with_room(shards);
        (Ok((a, shards[a].keys.len() as int)), shards.update(a, shards[a].push_entry(id, initial_balance)))
    } else {
        (Err(ErrorCode::NoSpaceAvailable), shards)
    }
}

/// Every shard of `s1` is still in `s2`, at the same place, with the same index and mint
/// and at least as many entries.
pub open spec fn grows(s1: Seq<ShardModel>, s2: Seq<ShardModel>) -> bool {
    &&& s1.len() <= s2.len()
    &&& forall|a: int|
        0 <= a < s1.len() ==> s1[a].keys.len() <= #[trigger] s2[a].keys.len() && s2[a].index
            == s1[a].index && s2[a].token_mint == s1[a].token_mint
}

/// A pair of indices, seen as integers.
pub open spec fn slot_int(r: Result<(usize, usize), ErrorCode>) -> Result<(int, int), ErrorCode> {
    match r {
        Ok(p) => Ok((p.0 as int, p.1 as int)),
        Err(e) => Err(e),
    }
}

/// An entry with none of the same identity before it is the one `first_entry` names.
pub proof fn lemma_first_entry_is(shards: Seq<ShardModel>, id: [u8; 32], a: int, e: int)
    requires
        is_first_entry(shards, id, a, e),
    ensures
        holds_entry(shards, id),
        first_entry(shards, id) == (a, e),
{
    let w = (a, e);
    assert(is_first_entry(shards, id, w.0, w.1));
    let p = first_entry(shards, id);
    assert(is_first_entry(shards, id, p.0, p.1));
    assert(!comes_before(p.0, p.1, a, e));
    assert(!comes_before(a, e, p.0, p.1));
}

/// A shard with room and none before it is the one `first_with_room` names.
proof fn lemma_first_with_room_is(shards: Seq<ShardModel>, a: int)
    requires
        is_first_with_room(shards, a),
    ensures
        some_room(shards),
        first_with_room(shards) == a,
{
    let b = first_with_room(shards);
    assert(is_first_with_room(shards, b));
}

/// Looks `user_pubkey` up: shards in index order, then entries in the order they were
/// made. Returns the first match, or `UserNotFound`.
pub fn find_user_entry(mapping_accounts: &Vec<MappingAccount>, user_pubkey: [u8; 32]) -> (r: Result<(usize, usize), ErrorCode>)
    ensures
        slot_int(r) == find_model(store_view(mapping_accounts@), user_pubkey),
        r matches Ok(p) ==> is_first_entry(store_view(mapping_accounts@), user_pubkey, p.0 as int, p.1 as int),
{
    let ghost shards = store_view(mapping_accounts@);
    let mut a: usize = 0;
    while a < mapping_accounts.len()
        invariant
            shards == store_view(mapping_accounts@),
            0 <= a <= mapping_accounts@.len(),
            forall|a2: int, e2: int| 0 <= a2 < a ==> !entry_at(shards, a2, e2, user_pubkey),
        decreases mapping_accounts@.len() - a,
    {
        if let Some(e) = position_of(&mapping_accounts[a].encrypted_pubkeys, &user_pubkey) {
            assert(entry_at(shards, a as int, e as int, user_pubkey));
            proof {
                lemma_first_entry_is(shards, user_pubkey, a as int, e as int);
            }
            return Ok((a, e));
        }
        assert(forall|e2: int| !entry_at(shards, a as int, e2, user_pubkey)) by {
            assert forall|e2: int| !entry_at(shards, a as int, e2, user_pubkey) by {
                if entry_at(shards, a as int, e2, user_pubkey) {
                    assert(mapping_accounts@[a as int].encrypted_pubkeys@[e2] == user_pubkey);
                }
            }
        }
        a = a + 1;
    }
    Err(ErrorCode::UserNotFound)
}

/// Looks `user_pubkey` up as `find_user_entry` does; when it has no entry, appends one
/// holding `initial_balance` to the first shard, in index order, that has room. Refused
/// with `NoSpaceAvailable`, changing nothing, when every shard is full.
pub fn find_or_create_user_entry(
    mapping_accounts: &mut Vec<MappingAccount>,
    user_pubkey: [u8; 32],
    initial_balance: [u8; 32],
) -> (r: Result<(usize, usize), ErrorCode>)
    requires
        store_wf(store_view(old(mapping_accounts)@)),
    ensures
        (slot_int(r), store_view(final(mapping_accounts)@)) == find_or_create_model(
            store_view(old(mapping_accounts)@),
            user_pubkey,
            initial_balance,
        ),
        store_wf(store_view(final(mapping_accounts)@)),
        final(mapping_accounts)@.len() == old(mapping_accounts)@.len(),
        grows(store_view(old(mapping_accounts)@), store_view(final(mapping_accounts)@)),
        r matches Ok(p) ==> entry_at(store_view(final(mapping_accounts)@), p.0 as int, p.1 as int, user_pubkey),
        r matches Ok(p) ==> (!holds_entry(store_view(old(mapping_accounts)@), user_pubkey) ==> old(
            mapping_accounts,
        )@[p.0 as int].encrypted_pubkeys@.len() < MAX_ENTRIES_PER_ACCOUNT),
{
    let ghost s0 = store_view(mapping_accounts@);
    if let Ok(p) = find_user_entry(mapping_accounts, user_pubkey) {
        return Ok(p);
    }
    let mut a: usize = 0;
    let n = mapping_accounts.len();
    while a < n
        invariant
            s0 == store_view(mapping_accounts@),
            n == s0.len(),
            0 <= a <= n,
            forall|b: int| 0 <= b < a ==> !(#[trigger] s0[b].has_room()),
        ensures
            a < n ==> s0[a as int].has_room(),
        decreases n - a,
    {
        if mapping_accounts[a].encrypted_pubkeys.len() < MAX_ENTRIES_PER_ACCOUNT {
            break;
        }
        a = a + 1;
    }
    if a == n {
        assert(!some_room(s0));
        return Err(ErrorCode::NoSpaceAvailable);
    }
    let mut shard = mapping_accounts.remove(a);
    shard.encrypted_pubkeys.push(user_pubkey);
    shard.encrypted_balances.push(initial_balance);
    let e = shard.encrypted_pubkeys.len() - 1;
    mapping_accounts.insert(a, shard);
    proof {
        lemma_first_with_room_is(s0, a as int);
        let s1 = s0.update(a as int, s0[a as int].push_entry(user_pubkey, initial_balance));
        assert(store_view(mapping_accounts@) =~= s1);
        assert(s0[a as int].wf());
        assert forall|b: int| 0 <= b < s1.len() implies #[trigger] s1[b].wf() by {
            if b != a {
                assert(s0[b].wf());
            }
        }
    }
    Ok((a, e))
}

/// Asking twice in a row for the same identity's entry gives the same place both times, and
/// the second request changes nothing.
pub proof fn lemma_find_or_create_stable(
    shards: Seq<ShardModel>,
    id: [u8; 32],
    initial_balance: [u8; 32],
    second_balance: [u8; 32],
)
    requires
        store_wf(shards),
    ensures
        find_or_create_model(shards, id, initial_balance).0 is Ok ==> find_or_create_model(
            find_or_create_model(shards, id, initial_balance).1,
            id,
            second_balance,
        ) == find_or_create_model(shards, id, initial_balance),
{
    if !holds_entry(shards, id) && some_room(shards) {
        let a = first_with_room(shards);
        let w = choose|b: int| 0 <= b < shards.len() && #[trigger] shards[b].has_room();
        assert(is_first_with_room(shards, a)) by {
            let lo = choose|b: int| is_first_with_room(shards, b);
            if !is_first_with_room(shards, lo) {
                lemma_least_with_room(shards, w);
            }
        }
        let e = shards[a].keys.len() as int;
        let s1 = shards.update(a, shards[a].push_entry(id, initial_balance));
        assert(entry_at(s1, a, e, id));
        assert forall|a2: int, e2: int| comes_before(a2, e2, a, e) implies !#[trigger] entry_at(s1, a2, e2, id) by {
            if entry_at(s1, a2, e2, id) {
                assert(entry_at(shards, a2, e2, id));
            }
        }
        lemma_first_entry_is(s1, id, a, e);
    }
}

/// When some shard has room, a first one with room exists.
proof fn lemma_least_with_room(shards: Seq<ShardModel>, w: int)
    requires
        0 <= w < shards.len(),
        shards[w].has_room(),
    ensures
        exists|b: int| is_first_with_room(shards, b),
    decreases w,
{
    if exists|b: int| 0 <= b < w && #[trigger] shards[b].has_room() {
        let b = choose|b: int| 0 <= b < w && #[trigger] shards[b].has_room();
        lemma_least_with_room(shards, b);
    } else {
        assert(is_first_with_room(shards, w));
    }
}

/// A shard that holds as many entries as a shard can is never where a new identity's entry
/// is made.
pub proof fn lemma_full_shard_never_selected(
    shards: Seq<ShardModel>,
    id: [u8; 32],
    initial_balance: [u8; 32],
    full: int,
)
    requires
        0 <= full < shards.len(),
        shards[full].keys.len() >= MAX_ENTRIES_PER_ACCOUNT,
        !holds_entry(shards, id),
    ensures
        find_or_create_model(shards, id, initial_balance).0 matches Ok(p) ==> p.0 != full,
{
    if some_room(shards) {
        let w = choose|b: int| 0 <= b < shards.len() && #[trigger] shards[b].has_room();
        lemma_least_with_room(shards, w);
        let a = first_with_room(shards);
        assert(is_first_with_room(shards, a));
    }
}

} // verus!
