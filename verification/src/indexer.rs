//! The rules of reconciliation: what a batch of events changes, which
//! tokens a pass must index, and how indexed tokens enter the ancestry
//! graph and the store.

use std::collections::HashMap;

use vstd::prelude::*;

use crate::db::model::{
    advanced, fees_updated, insert_all, owners_updated, pending_inserted, pin_failed_all,
    pinned_all, recorded, StoreView, TokenView,
};
use crate::db::{batch_views, Connection, Db, DriverError, Error, Transaction};
use crate::eth::{Address, U256};
use crate::ipfs::Cid;
use crate::nftrout::algo::{
    accepts, coefficient, inbreeding, node_of, with_edge, with_node, Ancestors, Node, PathRule,
};
use crate::nftrout::{
    cid_views, ChainId, Coi, Event, PendingToken, TokenEventKind, TokenId, TroutId,
    TroutMetadata, TroutToken, TroutTokenView,
};

verus! {

/// How many tokens are indexed at a time.
pub const INDEX_BATCH_SIZE: usize = 50;

/// How many identifiers are pinned at a time.
pub const PIN_BATCH_SIZE: usize = 50;

/// The seconds allowed for fetching or pinning one identifier.
pub const IPFS_TIMEOUT_SECS: u64 = 15;

/// The seconds allowed for one sweep over the unpinned identifiers.
pub const PINNING_TIMEOUT_SECS: u64 = 600;

/// The seconds between two sweeps over the unpinned identifiers.
pub const PIN_INTERVAL_SECS: u64 = 60;

/// The seconds between two passes of reindexing.
pub const REINDEX_INTERVAL_SECS: u64 = 30;

/// How many blocks are fetched ahead, and how many stream items are
/// recorded at once, while catching up.
pub const BACKFILL_BUFFER: usize = 100;

pub const BACKFILL_CHUNK: usize = 1000;

/// How many blocks are fetched ahead, and how many stream items are
/// recorded at once, while following the head.
pub const REALTIME_BUFFER: usize = 25;

pub const REALTIME_CHUNK: usize = 1;

/// Where `key` stands in a list of entries, if it is there.
pub open spec fn position<V>(entries: Seq<(TokenId, V)>, key: TokenId) -> Option<int>
    decreases entries.len(),
{
    if entries.len() == 0 {
        None
    } else {
        match position(entries.drop_last(), key) {
            Some(at) => Some(at),
            None => if entries.last().0 == key {
                Some(entries.len() - 1)
            } else {
                None
            },
        }
    }
}

/// The entries after `key` was set to `value`: an entry for `key` is
/// replaced where it stands, a new one comes last.
pub open spec fn put<V>(entries: Seq<(TokenId, V)>, key: TokenId, value: V) -> Seq<(TokenId, V)> {
    match position(entries, key) {
        Some(at) => entries.update(at, (key, value)),
        None => entries.push((key, value)),
    }
}

/// The value that `entries` holds for `key`.
pub open spec fn lookup<V>(entries: Seq<(TokenId, V)>, key: TokenId) -> Option<V> {
    match position(entries, key) {
        Some(at) => Some(entries[at].1),
        None => None,
    }
}

/// No key occurs twice.
pub open spec fn distinct_keys<V>(entries: Seq<(TokenId, V)>) -> bool {
    forall|i: int, j: int|
        0 <= i < j < entries.len() ==> (#[trigger] entries[i]).0 != (#[trigger] entries[j]).0
}

pub proof fn lemma_position<V>(entries: Seq<(TokenId, V)>, key: TokenId)
    ensures
        match position(entries, key) {
            Some(at) => 0 <= at < entries.len() && entries[at].0 == key && forall|j: int|
                0 <= j < at ==> (#[trigger] entries[j]).0 != key,
            None => forall|j: int| 0 <= j < entries.len() ==> (#[trigger] entries[j]).0 != key,
        },
    decreases entries.len(),
{
    if entries.len() > 0 {
        let rest = entries.drop_last();
        lemma_position(rest, key);
        match position(rest, key) {
            Some(at) => {
                assert(entries[at] == rest[at]);
                assert forall|j: int| 0 <= j < at implies (#[trigger] entries[j]).0 != key by {
                    assert(entries[j] == rest[j]);
                }
            },
            None => {
                assert forall|j: int| 0 <= j < entries.len() - 1 implies (
                #[trigger] entries[j]).0 != key by {
                    assert(entries[j] == rest[j]);
                }
            },
        }
    }
}

/// Setting a key keeps the keys distinct.
pub proof fn lemma_put_distinct<V>(entries: Seq<(TokenId, V)>, key: TokenId, value: V)
    requires
        distinct_keys(entries),
    ensures
        distinct_keys(put(entries, key, value)),
        lookup(put(entries, key, value), key) == Some(value),
{
    lemma_position(entries, key);
    let after = put(entries, key, value);
    lemma_position(after, key);
    match position(entries, key) {
        Some(at) => {
            assert(after[at].0 == key);
        },
        None => {
            assert(after[entries.len() as int].0 == key);
        },
    }
}

/// Sets `key` to `value` in a list of entries.
fn upsert<V: Copy>(entries: &mut Vec<(TokenId, V)>, key: TokenId, value: V)
    ensures
        final(entries)@ == put(old(entries)@, key, value),
{
    let mut i: usize = 0;
    assert(entries@.take(0) =~= Seq::<(TokenId, V)>::empty());
    while i < entries.len()
        invariant
            i <= entries@.len(),
            entries@ == old(entries)@,
            position(entries@.take(i as int), key) is None,
        decreases entries@.len() - i,
    {
        assert(entries@.take(i as int + 1).drop_last() =~= entries@.take(i as int));
        if entries[i].0 == key {
            proof {
                lemma_position_prefix(entries@, key, i as int + 1);
            }
            entries[i] = (key, value);
            assert(entries@ =~= old(entries)@.update(i as int, (key, value)));
            return ;
        }
        i += 1;
    }
    assert(entries@.take(i as int) =~= entries@);
    entries.push((key, value));
}

/// A key that is found among the first entries is found there among all.
pub proof fn lemma_position_prefix<V>(entries: Seq<(TokenId, V)>, key: TokenId, upto: int)
    requires
        0 <= upto <= entries.len(),
        position(entries.take(upto), key) is Some,
    ensures
        position(entries, key) == position(entries.take(upto), key),
    decreases entries.len() - upto,
{
    if upto == entries.len() {
        assert(entries.take(upto) =~= entries);
    } else {
        assert(entries.take(upto + 1).drop_last() =~= entries.take(upto));
        lemma_position_prefix(entries, key, upto + 1);
    }
}

/// The value that `entries` holds for `key`.
fn find_entry<V: Copy>(entries: &Vec<(TokenId, V)>, key: TokenId) -> (res: Option<V>)
    ensures
        res == lookup(entries@, key),
{
    let mut i: usize = 0;
    assert(entries@.take(0) =~= Seq::<(TokenId, V)>::empty());
    while i < entries.len()
        invariant
            i <= entries@.len(),
            position(entries@.take(i as int), key) is None,
        decreases entries@.len() - i,
    {
        assert(entries@.take(i as int + 1).drop_last() =~= entries@.take(i as int));
        if entries[i].0 == key {
            proof {
                lemma_position_prefix(entries@, key, i as int + 1);
            }
            return Some(entries[i].1);
        }
        i += 1;
    }
    assert(entries@.take(i as int) =~= entries@);
    None
}

/// The listing fee that a batch leaves for each token it lists or
/// delists: the last such event of a token wins.
pub open spec fn fee_changes(batch: Seq<Event>) -> Seq<(TokenId, Option<U256>)>
    decreases batch.len(),
{
    if batch.len() == 0 {
        Seq::empty()
    } else {
        let before = fee_changes(batch.drop_last());
        match batch.last() {
            Event::Token(e) => match e.kind {
                TokenEventKind::Relisted { fee } => put(before, e.token, fee),
                _ => before,
            },
            Event::ProcessedBlock(_) => before,
        }
    }
}

/// The owner that a batch leaves for each token it transfers: the
/// recipient of the last transfer of a token wins.
pub open spec fn ownership_changes(batch: Seq<Event>) -> Seq<(TokenId, Address)>
    decreases batch.len(),
{
    if batch.len() == 0 {
        Seq::empty()
    } else {
        let before = ownership_changes(batch.drop_last());
        match batch.last() {
            Event::Token(e) => match e.kind {
                TokenEventKind::Transfer { from, to } => put(before, e.token, to),
                _ => before,
            },
            Event::ProcessedBlock(_) => before,
        }
    }
}

/// The tokens that a batch spawns, each with who received it.
pub open spec fn spawned_tokens(batch: Seq<Event>) -> Seq<(TokenId, PendingToken)>
    decreases batch.len(),
{
    if batch.len() == 0 {
        Seq::empty()
    } else {
        let before = spawned_tokens(batch.drop_last());
        match batch.last() {
            Event::Token(e) => match e.kind {
                TokenEventKind::Spawned { to } => put(
                    before,
                    e.token,
                    PendingToken { id: e.token, owner: to },
                ),
                _ => before,
            },
            Event::ProcessedBlock(_) => before,
        }
    }
}

/// The transfers of each token in a batch hang together: every transfer
/// but the first of a token is sent by who received the one before.
pub open spec fn transfers_chained(batch: Seq<Event>) -> bool
    decreases batch.len(),
{
    if batch.len() == 0 {
        true
    } else {
        transfers_chained(batch.drop_last()) && match batch.last() {
            Event::Token(e) => match e.kind {
                TokenEventKind::Transfer { from, to } => match lookup(
                    ownership_changes(batch.drop_last()),
                    e.token,
                ) {
                    Some(holder) => holder == from,
                    None => true,
                },
                _ => true,
            },
            Event::ProcessedBlock(_) => true,
        }
    }
}

/// What a batch changes holds at most one entry for each token.
pub proof fn lemma_changes_distinct(batch: Seq<Event>)
    ensures
        distinct_keys(fee_changes(batch)),
        distinct_keys(ownership_changes(batch)),
        distinct_keys(spawned_tokens(batch)),
    decreases batch.len(),
{
    if batch.len() > 0 {
        lemma_changes_distinct(batch.drop_last());
        match batch.last() {
            Event::Token(e) => match e.kind {
                TokenEventKind::Relisted { fee } => {
                    lemma_put_distinct(fee_changes(batch.drop_last()), e.token, fee);
                },
                TokenEventKind::Transfer { from, to } => {
                    lemma_put_distinct(ownership_changes(batch.drop_last()), e.token, to);
                },
                TokenEventKind::Spawned { to } => {
                    lemma_put_distinct(
                        spawned_tokens(batch.drop_last()),
                        e.token,
                        PendingToken { id: e.token, owner: to },
                    );
                },
            },
            Event::ProcessedBlock(_) => {},
        }
    }
}

/// What a batch of events changes in the tokens.
pub struct Changes {
    pub fee_changes: Vec<(TokenId, Option<U256>)>,
    pub ownership_changes: Vec<(TokenId, Address)>,
    pub pending_tokens: Vec<(TokenId, PendingToken)>,
}

/// Whether the transfers of each token in `batch` hang together.
pub fn transfers_are_chained(batch: &Vec<Event>) -> (res: bool)
    ensures
        res == transfers_chained(batch@),
{
    let mut owners: Vec<(TokenId, Address)> = Vec::new();
    let mut i: usize = 0;
    assert(batch@.take(0) =~= Seq::<Event>::empty());
    while i < batch.len()
        invariant
            i <= batch@.len(),
            owners@ == ownership_changes(batch@.take(i as int)),
            transfers_chained(batch@.take(i as int)),
        decreases batch@.len() - i,
    {
        assert(batch@.take(i as int + 1).drop_last() =~= batch@.take(i as int));
        match batch[i] {
            Event::Token(e) => match e.kind {
                TokenEventKind::Transfer { from, to } => {
                    match find_entry(&owners, e.token) {
                        Some(holder) => {
                            if holder != from {
                                proof {
                                    lemma_unchained_stays(batch@, i as int + 1);
                                }
                                return false;
                            }
                        },
                        None => {},
                    }
                    upsert(&mut owners, e.token, to);
                },
                _ => {},
            },
            Event::ProcessedBlock(_) => {},
        }
        i += 1;
    }
    assert(batch@.take(i as int) =~= batch@);
    true
}

/// A batch whose beginning does not hang together does not hang together.
pub proof fn lemma_unchained_stays(batch: Seq<Event>, upto: int)
    requires
        0 <= upto <= batch.len(),
        !transfers_chained(batch.take(upto)),
    ensures
        !transfers_chained(batch),
    decreases batch.len() - upto,
{
    if upto == batch.len() {
        assert(batch.take(upto) =~= batch);
    } else {
        assert(batch.take(upto + 1).drop_last() =~= batch.take(upto));
        lemma_unchained_stays(batch, upto + 1);
    }
}

/// Gathers what `batch` changes: for each token the fee of its last
/// listing or delisting, the recipient of its last transfer, and who
/// received it when it was spawned.
pub fn aggregate(batch: &Vec<Event>) -> (res: Changes)
    ensures
        res.fee_changes@ == fee_changes(batch@),
        res.ownership_changes@ == ownership_changes(batch@),
        res.pending_tokens@ == spawned_tokens(batch@),
{
    let mut changes = Changes {
        fee_changes: Vec::new(),
        ownership_changes: Vec::new(),
        pending_tokens: Vec::new(),
    };
    let mut i: usize = 0;
    assert(batch@.take(0) =~= Seq::<Event>::empty());
    while i < batch.len()
        invariant
            i <= batch@.len(),
            changes.fee_changes@ == fee_changes(batch@.take(i as int)),
            changes.ownership_changes@ == ownership_changes(batch@.take(i as int)),
            changes.pending_tokens@ == spawned_tokens(batch@.take(i as int)),
        decreases batch@.len() - i,
    {
        assert(batch@.take(i as int + 1).drop_last() =~= batch@.take(i as int));
        match batch[i] {
            Event::Token(e) => match e.kind {
                TokenEventKind::Relisted { fee } => {
                    upsert(&mut changes.fee_changes, e.token, fee);
                },
                TokenEventKind::Spawned { to } => {
                    upsert(
                        &mut changes.pending_tokens,
                        e.token,
                        PendingToken { id: e.token, owner: to },
                    );
                },
                TokenEventKind::Transfer { from, to } => {
                    upsert(&mut changes.ownership_changes, e.token, to);
                },
            },
            Event::ProcessedBlock(_) => {},
        }
        i += 1;
    }
    assert(batch@.take(i as int) =~= batch@);
    changes
}

/// The tokens after a batch of events was applied to them: first the
/// fees, then the owners, then the spawned tokens.
pub open spec fn integrated(tokens: Seq<TokenView>, chain: ChainId, batch: Seq<Event>) -> Seq<
    TokenView,
> {
    pending_inserted(
        owners_updated(
            fees_updated(tokens, chain, fee_changes(batch)),
            chain,
            ownership_changes(batch),
        ),
        chain,
        spawned_tokens(batch),
    )
}

/// Applies to the tokens of `chain` what `batch` changes: listing fees,
/// then owners, then the tokens it spawned, which become known as
/// pending. A batch that changes nothing writes nothing.
pub fn integrate_token_events(tx: &mut Transaction, chain: ChainId, batch: &Vec<Event>) -> (res:
    Result<(), Error>)
    requires
        old(tx).wf(),
        transfers_chained(batch@),
    ensures
        res is Ok,
        final(tx).wf(),
        final(tx)@ == (StoreView { tokens: integrated(old(tx)@.tokens, chain, batch@), ..old(tx)@ }),
{
    let changes = aggregate(batch);
    if changes.fee_changes.len() == 0 && changes.ownership_changes.len() == 0
        && changes.pending_tokens.len() == 0 {
        return Ok(());
    }
    if changes.fee_changes.len() > 0 {
        let _ = tx.0.update_fees(chain, &changes.fee_changes);
    }
    if changes.ownership_changes.len() > 0 {
        let _ = tx.0.update_owners(chain, &changes.ownership_changes);
    }
    if changes.pending_tokens.len() > 0 {
        let _ = tx.0.insert_pending_tokens(chain, &changes.pending_tokens);
    }
    Ok(())
}

/// The numbers ascend strictly.
pub open spec fn ascending(numbers: Seq<TokenId>) -> bool {
    forall|i: int, j: int| 0 <= i < j < numbers.len() ==> numbers[i] < numbers[j]
}

/// The numbers are token numbers: none is zero.
pub open spec fn all_positive(numbers: Seq<TokenId>) -> bool {
    forall|i: int| 0 <= i < numbers.len() ==> numbers[i] >= 1
}

/// The numbers from 1 to `max` that are not in `present`, ascending.
/// `present` is meant to be an ascending list of token numbers; for such
/// a list the answer holds exactly the missing numbers.
pub fn gaps(present: &Vec<TokenId>, max: TokenId) -> (res: Vec<TokenId>)
    ensures
        ascending(res@),
        forall|i: int| 0 <= i < res@.len() ==> 1 <= #[trigger] res@[i] <= max,
        ascending(present@) && all_positive(present@) ==> forall|n: TokenId|
            #[trigger] res@.contains(n) <==> 1 <= n <= max && !present@.contains(n),
{
    let mut res: Vec<TokenId> = Vec::new();
    let mut current: u64 = 1;
    let mut j: usize = 0;
    while current <= max as u64
        invariant
            1 <= current <= max + 1,
            j <= present@.len(),
            ascending(res@),
            forall|i: int| 0 <= i < res@.len() ==> 1 <= #[trigger] res@[i] < current,
            ascending(present@) && all_positive(present@) ==> {
                &&& forall|k: int| 0 <= k < j ==> #[trigger] present@[k] < current
                &&& forall|k: int| j <= k < present@.len() ==> #[trigger] present@[k] >= current
                &&& forall|n: TokenId|
                    1 <= n < current ==> (#[trigger] res@.contains(n) <==> !present@.contains(n))
            },
        decreases max + 1 - current,
    {
        let ghost before = res@;
        if j < present.len() && present[j] as u64 == current {
            proof {
                if ascending(present@) && all_positive(present@) {
                    assert forall|k: int| j + 1 <= k < present@.len() implies #[trigger] present@[k]
                        >= current + 1 by {
                        assert(present@[j as int] < present@[k]);
                    }
                    assert(present@.contains(current as TokenId));
                    assert(!res@.contains(current as TokenId));
                }
            }
            j += 1;
        } else {
            res.push(current as TokenId);
            proof {
                assert(res@[before.len() as int] == current);
                assert forall|a: int, b: int| 0 <= a < b < res@.len() implies res@[a] < res@[b] by {
                    if b == before.len() {
                        assert(res@[a] == before[a]);
                    } else {
                        assert(res@[a] == before[a] && res@[b] == before[b]);
                    }
                }
                if ascending(present@) && all_positive(present@) {
                    assert(!present@.contains(current as TokenId)) by {
                        if present@.contains(current as TokenId) {
                            let k = choose|k: int|
                                0 <= k < present@.len() && present@[k] == current as TokenId;
                            if k > j {
                                assert(present@[j as int] < present@[k]);
                            }
                        }
                    }
                    assert forall|n: TokenId| 1 <= n < current + 1 implies (
                    #[trigger] res@.contains(n) <==> !present@.contains(n)) by {
                        if n < current {
                            if before.contains(n) {
                                let a = choose|a: int| 0 <= a < before.len() && before[a] == n;
                                assert(res@[a] == n);
                            }
                            if res@.contains(n) {
                                let a = choose|a: int| 0 <= a < res@.len() && res@[a] == n;
                                assert(before[a] == n);
                            }
                        }
                    }
                }
            }
        }
        current += 1;
    }
    proof {
        if ascending(present@) && all_positive(present@) {
            assert forall|n: TokenId| #[trigger]
                res@.contains(n) <==> 1 <= n <= max && !present@.contains(n) by {
                if res@.contains(n) {
                    let a = choose|a: int| 0 <= a < res@.len() && res@[a] == n;
                    assert(1 <= res@[a] < current);
                }
            }
        }
    }
    res
}

/// The numbers from `first` to `last`, both included, ascending.
pub open spec fn span(first: int, last: int) -> Seq<TokenId> {
    if last < first {
        Seq::empty()
    } else {
        Seq::new((last - first + 1) as nat, |i: int| (first + i) as TokenId)
    }
}

/// The numbers from `first` to `last`, both included, ascending.
pub fn batch_ids(first: TokenId, last: TokenId) -> (res: Vec<TokenId>)
    ensures
        res@ == span(first as int, last as int),
{
    let mut res: Vec<TokenId> = Vec::new();
    let mut current: u64 = first as u64;
    while current <= last as u64
        invariant
            first <= current,
            current <= last + 1 || (last < first && current == first),
            res@.len() == current - first,
            forall|i: int| 0 <= i < res@.len() ==> #[trigger] res@[i] == first + i,
        decreases last + 1 - current,
    {
        res.push(current as TokenId);
        current += 1;
    }
    proof {
        if last >= first {
            assert(res@.len() == last - first + 1);
            assert forall|i: int| 0 <= i < res@.len() implies res@[i] == span(
                first as int,
                last as int,
            )[i] by {
                assert(res@[i] == first + i);
            }
            assert(res@ =~= span(first as int, last as int));
        } else {
            assert(current == first);
            assert(res@.len() == 0);
            assert(res@ =~= span(first as int, last as int));
        }
    }
    res
}

/// The tokens that a pass over new tokens must index: those above the
/// greatest known number, up to the total supply.
pub fn new_token_ids(latest_known: Option<TokenId>, total_supply: TokenId) -> (res: Vec<TokenId>)
    ensures
        res@ == span(
            match latest_known {
                Some(n) => n + 1,
                None => 1,
            },
            total_supply as int,
        ),
{
    let known: TokenId = match latest_known {
        Some(n) => n,
        None => 0,
    };
    if known >= total_supply {
        return Vec::new();
    }
    batch_ids(known + 1, total_supply)
}

/// The tokens that a pass over skipped tokens must index: the numbers
/// below the greatest known one that are not known.
pub fn skipped_token_ids(known: &Vec<TokenId>) -> (res: Vec<TokenId>)
    ensures
        known@.len() == 0 ==> res@.len() == 0,
        ascending(res@),
        known@.len() > 0 && ascending(known@) && all_positive(known@) ==> forall|n: TokenId|
            #[trigger] res@.contains(n) <==> 1 <= n && n <= known@.last() && !known@.contains(n),
{
    if known.len() == 0 {
        return Vec::new();
    }
    let latest = known[known.len() - 1];
    gaps(known, latest)
}

/// How many tokens a pass handles at a time: the number asked for, or the
/// default where none is, and at most `u32::MAX`.
pub fn batch_size(concurrency: Option<usize>) -> (res: usize)
    ensures
        res == (match concurrency {
            Some(n) => if n <= u32::MAX {
                n
            } else {
                u32::MAX as usize
            },
            None => INDEX_BATCH_SIZE,
        }),
{
    let wanted = match concurrency {
        Some(n) => n,
        None => INDEX_BATCH_SIZE,
    };
    if wanted <= 0xffff_ffff {
        wanted
    } else {
        0xffff_ffff
    }
}

/// The next batch of a sweep over the tokens `1` to `total_supply`, of
/// which those up to `done` have been handled: its first and its last
/// number, or nothing when the sweep is over.
pub fn batch_after(done: TokenId, total_supply: TokenId, size: usize) -> (res: Option<
    (TokenId, TokenId),
>)
    requires
        size > 0,
    ensures
        done >= total_supply ==> res is None,
        done < total_supply ==> res == Some(
            (
                (done + 1) as TokenId,
                if done + size <= total_supply {
                    (done + size) as TokenId
                } else {
                    total_supply
                },
            ),
        ),
{
    if done >= total_supply {
        return None;
    }
    let room: u32 = total_supply - done;
    let last: TokenId = if size as u128 <= room as u128 {
        done + size as u32
    } else {
        total_supply
    };
    Some((done + 1, last))
}

/// The listing fee of each of `ids` according to the active listings: a
/// token that is not listed has none.
pub open spec fn fee_updates(ids: Seq<TokenId>, studs: Map<TokenId, U256>) -> Seq<
    (TokenId, Option<U256>),
> {
    Seq::new(
        ids.len(),
        |i: int|
            (
                ids[i],
                if studs.contains_key(ids[i]) {
                    Some(studs[ids[i]])
                } else {
                    None
                },
            ),
    )
}

/// Each of `ids` with the owner at its place in `owners`, as far as both
/// lists go.
pub open spec fn owner_updates(ids: Seq<TokenId>, owners: Seq<Address>) -> Seq<
    (TokenId, Address),
> {
    Seq::new(
        if ids.len() <= owners.len() {
            ids.len()
        } else {
            owners.len()
        },
        |i: int| (ids[i], owners[i]),
    )
}

/// The listing fee of each of `ids` according to the active listings.
pub fn batch_fees(ids: &Vec<TokenId>, studs: &HashMap<TokenId, U256>) -> (res: Vec<
    (TokenId, Option<U256>),
>)
    ensures
        res@ == fee_updates(ids@, studs@),
{
    broadcast use vstd::std_specs::hash::group_hash_axioms;

    let mut res: Vec<(TokenId, Option<U256>)> = Vec::new();
    let mut i: usize = 0;
    while i < ids.len()
        invariant
            i <= ids@.len(),
            res@.len() == i,
            forall|k: int| 0 <= k < i ==> #[trigger] res@[k] == fee_updates(ids@, studs@)[k],
        decreases ids@.len() - i,
    {
        let fee = match studs.get(&ids[i]) {
            Some(fee) => Some(*fee),
            None => None,
        };
        res.push((ids[i], fee));
        i += 1;
    }
    assert(res@ =~= fee_updates(ids@, studs@));
    res
}

/// Each of `ids` with the owner at its place in `owners`.
pub fn batch_owners(ids: &Vec<TokenId>, owners: &Vec<Address>) -> (res: Vec<(TokenId, Address)>)
    ensures
        res@ == owner_updates(ids@, owners@),
{
    let mut res: Vec<(TokenId, Address)> = Vec::new();
    let mut i: usize = 0;
    while i < ids.len() && i < owners.len()
        invariant
            i <= ids@.len(),
            i <= owners@.len(),
            res@.len() == i,
            forall|k: int| 0 <= k < i ==> #[trigger] res@[k] == (ids@[k], owners@[k]),
        decreases ids@.len() - i,
    {
        res.push((ids[i], owners[i]));
        i += 1;
    }
    assert(res@ =~= owner_updates(ids@, owners@));
    res
}

/// Brings the fees and owners of the tokens `ids` of `chain` in line with
/// what the chain says: first the fees, by the active listings, then the
/// owners.
pub fn index_ownership_and_fees(
    tx: &mut Transaction,
    chain: ChainId,
    ids: &Vec<TokenId>,
    owners: &Vec<Address>,
    studs: &HashMap<TokenId, U256>,
) -> (res: Result<(), Error>)
    requires
        old(tx).wf(),
    ensures
        res is Ok,
        final(tx).wf(),
        final(tx)@ == (StoreView {
            tokens: owners_updated(
                fees_updated(old(tx)@.tokens, chain, fee_updates(ids@, studs@)),
                chain,
                owner_updates(ids@, owners@),
            ),
            ..old(tx)@
        }),
{
    let fees = batch_fees(ids, studs);
    let holders = batch_owners(ids, owners);
    let _ = tx.0.update_fees(chain, &fees);
    let _ = tx.0.update_owners(chain, &holders);
    Ok(())
}

/// The identifiers that were pinned, in order.
pub open spec fn pinned_cids(results: Seq<Result<Cid, Cid>>) -> Seq<Seq<char>>
    decreases results.len(),
{
    if results.len() == 0 {
        Seq::empty()
    } else {
        match results.last() {
            Ok(cid) => pinned_cids(results.drop_last()).push(cid@),
            Err(_) => pinned_cids(results.drop_last()),
        }
    }
}

/// The identifiers that could not be pinned, in order.
pub open spec fn failed_cids(results: Seq<Result<Cid, Cid>>) -> Seq<Seq<char>>
    decreases results.len(),
{
    if results.len() == 0 {
        Seq::empty()
    } else {
        match results.last() {
            Ok(_) => failed_cids(results.drop_last()),
            Err(cid) => failed_cids(results.drop_last()).push(cid@),
        }
    }
}

/// Records how a round of pinning went: the identifiers that were pinned
/// are marked so, and for each of the others one more failure is counted.
pub fn record_pin_results(conn: &mut Connection, results: &Vec<Result<Cid, Cid>>) -> (res: Result<
    (),
    Error,
>)
    requires
        old(conn).wf(),
    ensures
        res is Ok,
        final(conn).wf(),
        final(conn)@ == (StoreView {
            tokens: pin_failed_all(
                pinned_all(old(conn)@.tokens, pinned_cids(results@)),
                failed_cids(results@),
            ),
            ..old(conn)@
        }),
{
    let mut pinned: Vec<Cid> = Vec::new();
    let mut failed: Vec<Cid> = Vec::new();
    let mut i: usize = 0;
    proof {
        assert(results@.take(0) =~= Seq::<Result<Cid, Cid>>::empty());
        assert(cid_views(pinned@) =~= pinned_cids(results@.take(0)));
        assert(cid_views(failed@) =~= failed_cids(results@.take(0)));
    }
    while i < results.len()
        invariant
            i <= results@.len(),
            cid_views(pinned@) == pinned_cids(results@.take(i as int)),
            cid_views(failed@) == failed_cids(results@.take(i as int)),
        decreases results@.len() - i,
    {
        assert(results@.take(i as int + 1).drop_last() =~= results@.take(i as int));
        let ghost pinned_before = pinned@;
        let ghost failed_before = failed@;
        match &results[i] {
            Ok(cid) => {
                pinned.push(cid.clone());
                assert(cid_views(pinned@) =~= cid_views(pinned_before).push(cid@));
            },
            Err(cid) => {
                failed.push(cid.clone());
                assert(cid_views(failed@) =~= cid_views(failed_before).push(cid@));
            },
        }
        i += 1;
    }
    assert(results@.take(i as int) =~= results@);
    let _ = conn.mark_pinned(&pinned);
    let _ = conn.mark_pin_failed(&failed);
    Ok(())
}

/// Which blocks each of the two event loops reads.
#[derive(Clone, Copy, Debug, PartialEq, Eq, Structural)]
pub struct EventPlan {
    /// The first block that catching up reads.
    pub backfill_start: u64,
    /// The last block that catching up reads; it ends there.
    pub backfill_stop: u64,
    /// The first block that following the head reads; it never ends.
    pub realtime_start: u64,
}

/// Splits the event stream at `tip`, the newest block at start-up:
/// catching up reads from the stored watermark up to `tip`, following
/// the head reads from the block after `tip`.
pub fn event_plan(watermark: u64, tip: u64) -> (res: EventPlan)
    requires
        tip < u64::MAX,
    ensures
        res.backfill_start == watermark,
        res.backfill_stop == tip,
        res.realtime_start == tip + 1,
{
    EventPlan { backfill_start: watermark, backfill_stop: tip, realtime_start: tip + 1 }
}

/// What start-up does, one step after the other.
#[derive(Clone, Copy, Debug, PartialEq, Eq, Structural)]
pub enum StartupStep {
    /// Bring owners and listing fees in line with the chain.
    IndexOwnershipAndFees,
    /// Index the tokens above the greatest known number.
    IndexNewTokens,
    /// Index again the tokens that are pending or outdated.
    IndexNewVersions,
    /// Compute the coefficients that are still unknown.
    AnalyseBacklog,
    /// Start the loops that run from then on.
    StartLoops,
}

/// The steps of start-up for a backlog of the given size: the three
/// passes at the newest block in their order, then the analysis where
/// there is a backlog, then the loops.
pub open spec fn startup_steps(backlog: nat) -> Seq<StartupStep> {
    if backlog == 0 {
        seq![
            StartupStep::IndexOwnershipAndFees,
            StartupStep::IndexNewTokens,
            StartupStep::IndexNewVersions,
            StartupStep::StartLoops,
        ]
    } else {
        seq![
            StartupStep::IndexOwnershipAndFees,
            StartupStep::IndexNewTokens,
            StartupStep::IndexNewVersions,
            StartupStep::AnalyseBacklog,
            StartupStep::StartLoops,
        ]
    }
}

/// The steps of start-up, given the tokens that still need analysis.
pub fn startup_plan(needs_coi_analysis: &Vec<TroutId>) -> (res: Vec<StartupStep>)
    ensures
        res@ == startup_steps(needs_coi_analysis@.len()),
{
    let mut steps: Vec<StartupStep> = Vec::new();
    steps.push(StartupStep::IndexOwnershipAndFees);
    steps.push(StartupStep::IndexNewTokens);
    steps.push(StartupStep::IndexNewVersions);
    if needs_coi_analysis.len() > 0 {
        steps.push(StartupStep::AnalyseBacklog);
    }
    steps.push(StartupStep::StartLoops);
    assert(steps@ =~= startup_steps(needs_coi_analysis@.len()));
    steps
}

/// Takes in one chunk of the stream while catching up: its events are
/// recorded and the watermark moves, in one unit of work.
pub fn record_backfill_chunk(db: &mut Db, chain: ChainId, batch: &Vec<Event>) -> (res: Result<
    (),
    Error,
>)
    requires
        old(db).wf(),
    ensures
        res is Ok,
        final(db).wf(),
        final(db).connstr() == old(db).connstr(),
        final(db)@ == (StoreView {
            events: recorded(old(db)@.events, batch@),
            progress: advanced(old(db)@.progress, chain, batch@),
            ..old(db)@
        }),
{
    let mut tx = db.with_tx();
    let _ = tx.record_events(chain, batch);
    db.commit(tx);
    Ok(())
}

/// Takes in one chunk of the stream while following the head: first what
/// the chunk changes in the tokens is applied, in one unit of work, then
/// its events are recorded and the watermark moves, in another.
pub fn record_realtime_chunk(db: &mut Db, chain: ChainId, batch: &Vec<Event>) -> (res: Result<
    (),
    Error,
>)
    requires
        old(db).wf(),
        transfers_chained(batch@),
    ensures
        res is Ok,
        final(db).wf(),
        final(db).connstr() == old(db).connstr(),
        final(db)@ == (StoreView {
            tokens: integrated(old(db)@.tokens, chain, batch@),
            events: recorded(old(db)@.events, batch@),
            progress: advanced(old(db)@.progress, chain, batch@),
            ..old(db)@
        }),
{
    let mut tx = db.with_tx();
    let _ = integrate_token_events(&mut tx, chain, batch);
    db.commit(tx);
    let mut tx = db.with_tx();
    let _ = tx.record_events(chain, batch);
    db.commit(tx);
    Ok(())
}

/// What was fetched of a token: its current identifier and the metadata
/// found under it.
pub struct Fetched {
    pub cid: Cid,
    pub meta: TroutMetadata,
}

/// The listing fee of `id` according to the active listings.
pub open spec fn listed_fee(studs: Map<TokenId, U256>, id: TokenId) -> Option<U256> {
    if studs.contains_key(id) {
        Some(studs[id])
    } else {
        None
    }
}

/// How many tokens of a batch can be put together: as many as every list
/// has entries.
pub open spec fn common_len(ids: Seq<TokenId>, owners: Seq<Address>, fetched: Seq<Option<Fetched>>)
    -> nat {
    if ids.len() <= owners.len() && ids.len() <= fetched.len() {
        ids.len()
    } else if owners.len() <= fetched.len() {
        owners.len()
    } else {
        fetched.len()
    }
}

/// The first `upto` tokens of a batch, put together from what the chain
/// and the object store said of them; a token whose metadata could not be
/// fetched is left out. Their coefficients are not known yet.
pub open spec fn assembled(
    ids: Seq<TokenId>,
    owners: Seq<Address>,
    studs: Map<TokenId, U256>,
    fetched: Seq<Option<Fetched>>,
    upto: nat,
) -> Seq<TroutTokenView>
    decreases upto,
{
    if upto == 0 {
        Seq::empty()
    } else {
        let before = assembled(ids, owners, studs, fetched, (upto - 1) as nat);
        match fetched[upto - 1] {
            Some(f) => before.push(
                TroutTokenView {
                    cid: f.cid@,
                    meta: f.meta@,
                    owner: owners[upto - 1],
                    fee: listed_fee(studs, ids[upto - 1]),
                    coi: None,
                },
            ),
            None => before,
        }
    }
}

/// Puts the tokens of a batch together from their numbers, their owners,
/// the active listings, and what was fetched of each.
pub fn assemble(
    ids: &Vec<TokenId>,
    owners: &Vec<Address>,
    studs: &HashMap<TokenId, U256>,
    fetched: &Vec<Option<Fetched>>,
) -> (res: Vec<TroutToken>)
    ensures
        batch_views(res@) == assembled(
            ids@,
            owners@,
            studs@,
            fetched@,
            common_len(ids@, owners@, fetched@),
        ),
{
    broadcast use vstd::std_specs::hash::group_hash_axioms;

    let mut res: Vec<TroutToken> = Vec::new();
    let mut i: usize = 0;
    assert(batch_views(res@) =~= assembled(ids@, owners@, studs@, fetched@, 0));
    while i < ids.len() && i < owners.len() && i < fetched.len()
        invariant
            i <= ids@.len(),
            i <= owners@.len(),
            i <= fetched@.len(),
            batch_views(res@) == assembled(ids@, owners@, studs@, fetched@, i as nat),
        decreases ids@.len() - i,
    {
        match &fetched[i] {
            Some(f) => {
                let fee = match studs.get(&ids[i]) {
                    Some(fee) => Some(*fee),
                    None => None,
                };
                let ghost before = res@;
                res.push(
                    TroutToken {
                        cid: f.cid.clone(),
                        meta: f.meta.clone(),
                        owner: owners[i],
                        fee: fee,
                        coi: Coi::Unknown,
                    },
                );
                assert(batch_views(res@) =~= batch_views(before).push(
                    TroutTokenView {
                        cid: f.cid@,
                        meta: f.meta@,
                        owner: owners@[i as int],
                        fee: listed_fee(studs@, ids@[i as int]),
                        coi: None,
                    },
                ));
            },
            None => {},
        }
        i += 1;
    }
    res
}

/// The graph after `child` tried for the parent `parent`, and whether
/// nothing is missing: a parent that is no node, or that would be a
/// third, gets no edge.
pub open spec fn with_parent(parents: Map<Node, Seq<Node>>, child: Node, parent: Option<Node>) -> (
    Map<Node, Seq<Node>>,
    bool,
) {
    match parent {
        Some(p) => if parents.contains_key(p) && accepts(parents, child, p) {
            (with_edge(parents, child, p), true)
        } else {
            (parents, false)
        },
        None => (parents, true),
    }
}

/// The graph after a token entered it, and whether it is linked to all
/// its parents: the token becomes a node and tries for its left parent;
/// only if that is not missing it tries for its right.
pub open spec fn grafted_one(
    parents: Map<Node, Seq<Node>>,
    id: Node,
    left: Option<Node>,
    right: Option<Node>,
) -> (Map<Node, Seq<Node>>, bool) {
    let (first, linked) = with_parent(with_node(parents, id), id, left);
    if linked {
        with_parent(first, id, right)
    } else {
        (first, false)
    }
}

/// The node of a token that may be absent.
pub open spec fn node_option(id: Option<TroutId>) -> Option<Node> {
    match id {
        Some(id) => Some(node_of(id)),
        None => None,
    }
}

/// The graph after the first `upto` tokens of a batch entered it in order.
pub open spec fn grafted(parents: Map<Node, Seq<Node>>, batch: Seq<TroutTokenView>, upto: nat)
    -> Map<Node, Seq<Node>>
    decreases upto,
{
    if upto == 0 {
        parents
    } else {
        let props = batch[upto - 1].meta.properties;
        grafted_one(
            grafted(parents, batch, (upto - 1) as nat),
            node_of(props.self_id),
            node_option(props.left),
            node_option(props.right),
        ).0
    }
}

/// Whether token `at` of a batch was linked to all its parents when it
/// entered the graph.
pub open spec fn linked(parents: Map<Node, Seq<Node>>, batch: Seq<TroutTokenView>, at: int)
    -> bool {
    let props = batch[at].meta.properties;
    grafted_one(
        grafted(parents, batch, at as nat),
        node_of(props.self_id),
        node_option(props.left),
        node_option(props.right),
    ).1
}

/// Token `at` of a batch after analysis: its coefficient is computed in
/// the graph that holds the whole batch, and stays unknown where a parent
/// was missing.
pub open spec fn analysed(parents: Map<Node, Seq<Node>>, batch: Seq<TroutTokenView>, at: int)
    -> TroutTokenView {
    TroutTokenView {
        coi: if linked(parents, batch, at) {
            Some(
                coefficient(
                    grafted(parents, batch, batch.len()),
                    PathRule::Shortest,
                    node_of(batch[at].meta.properties.self_id),
                ),
            )
        } else {
            None
        },
        ..batch[at]
    }
}

/// Tries for one parent of `child`.
fn try_parent(g: &mut Ancestors, child: TroutId, parent: Option<TroutId>) -> (res: bool)
    requires
        old(g).wf(),
    ensures
        final(g).wf(),
        (final(g)@, res) == with_parent(old(g)@, node_of(child), node_option(parent)),
{
    match parent {
        Some(p) => {
            if g.contains(p) {
                g.adopt(child, p)
            } else {
                false
            }
        },
        None => true,
    }
}

/// Lets the tokens of a batch enter the ancestry graph in order and then
/// computes the coefficient of each. A token whose parent is not in the
/// graph when its turn comes gets no edge to it, and its coefficient
/// stays unknown.
pub fn graft(g: &mut Ancestors, tokens: &mut Vec<TroutToken>)
    requires
        old(g).wf(),
    ensures
        final(g).wf(),
        final(g)@ == grafted(old(g)@, batch_views(old(tokens)@), old(tokens)@.len() as nat),
        final(tokens)@.len() == old(tokens)@.len(),
        forall|k: int|
            0 <= k < old(tokens)@.len() ==> (#[trigger] final(tokens)@[k])@ == analysed(
                old(g)@,
                batch_views(old(tokens)@),
                k,
            ),
{
    let ghost batch = batch_views(tokens@);
    let ghost start = g@;
    let mut flags: Vec<bool> = Vec::new();
    let mut i: usize = 0;
    while i < tokens.len()
        invariant
            i <= tokens@.len(),
            tokens@ == old(tokens)@,
            batch == batch_views(tokens@),
            start == old(g)@,
            g.wf(),
            g@ == grafted(start, batch, i as nat),
            flags@.len() == i,
            forall|k: int| 0 <= k < i ==> #[trigger] flags@[k] == linked(start, batch, k),
        decreases tokens@.len() - i,
    {
        let id = tokens[i].meta.properties.self_id;
        let left = tokens[i].meta.properties.left;
        let right = tokens[i].meta.properties.right;
        assert(batch[i as int].meta.properties.self_id == id);
        g.add_node(id);
        let mut whole = try_parent(g, id, left);
        if whole {
            whole = try_parent(g, id, right);
        }
        flags.push(whole);
        i += 1;
    }
    let mut j: usize = 0;
    while j < tokens.len()
        invariant
            j <= tokens@.len(),
            tokens@.len() == old(tokens)@.len(),
            batch == batch_views(old(tokens)@),
            start == old(g)@,
            g.wf(),
            g@ == grafted(start, batch, batch.len()),
            flags@.len() == tokens@.len(),
            forall|k: int| 0 <= k < flags@.len() ==> #[trigger] flags@[k] == linked(start, batch, k),
            forall|k: int| 0 <= k < j ==> (#[trigger] tokens@[k])@ == analysed(start, batch, k),
            forall|k: int| j <= k < tokens@.len() ==> (#[trigger] tokens@[k])@ == batch[k],
        decreases tokens@.len() - j,
    {
        let id = tokens[j].meta.properties.self_id;
        assert(batch[j as int].meta.properties.self_id == id);
        if flags[j] {
            tokens[j].coi = inbreeding(g, id);
        } else {
            tokens[j].coi = Coi::Unknown;
        }
        j += 1;
    }
}

/// Indexes one batch of tokens: puts them together from what was
/// fetched, lets them enter the ancestry graph, computes their
/// coefficients, and stores them. The graph keeps the batch also where
/// storing fails because one of the tokens has metadata already.
pub fn index_tokens(
    conn: &mut Connection,
    g: &mut Ancestors,
    ids: &Vec<TokenId>,
    owners: &Vec<Address>,
    studs: &HashMap<TokenId, U256>,
    fetched: &Vec<Option<Fetched>>,
) -> (res: Result<Vec<TroutToken>, Error>)
    requires
        old(conn).wf(),
        old(g).wf(),
    ensures
        final(conn).wf(),
        final(g).wf(),
        ({
            let batch = assembled(
                ids@,
                owners@,
                studs@,
                fetched@,
                common_len(ids@, owners@, fetched@),
            );
            let stored = Seq::new(batch.len(), |k: int| analysed(old(g)@, batch, k));
            &&& final(g)@ == grafted(old(g)@, batch, batch.len())
            &&& match insert_all(old(conn)@.tokens, stored) {
                Some(after) => res is Ok && batch_views(res->Ok_0@) == stored && final(conn)@ == (
                StoreView { tokens: after, ..old(conn)@ }),
                None => res == Err::<Vec<TroutToken>, Error>(
                    Error::Driver(DriverError::ConstraintViolation),
                ) && final(conn)@ == old(conn)@,
            }
        }),
{
    let mut tokens = assemble(ids, owners, studs, fetched);
    let ghost batch = batch_views(tokens@);
    graft(g, &mut tokens);
    proof {
        let stored = Seq::new(batch.len(), |k: int| analysed(old(g)@, batch, k));
        assert(batch_views(tokens@) =~= stored);
    }
    match conn.insert_tokens(&tokens) {
        Ok(_) => Ok(tokens),
        Err(e) => Err(e),
    }
}

/// The coefficient of each token of a backlog, computed in `g`.
pub fn analyse(g: &Ancestors, backlog: &Vec<TroutId>) -> (res: Vec<(TroutId, Coi)>)
    requires
        g.wf(),
    ensures
        res@.len() == backlog@.len(),
        forall|k: int|
            0 <= k < backlog@.len() ==> (#[trigger] res@[k]).0 == backlog@[k] && res@[k].1@
                == Some(coefficient(g@, PathRule::Shortest, node_of(backlog@[k]))),
{
    let mut res: Vec<(TroutId, Coi)> = Vec::new();
    let mut i: usize = 0;
    while i < backlog.len()
        invariant
            i <= backlog@.len(),
            g.wf(),
            res@.len() == i,
            forall|k: int|
                0 <= k < i ==> (#[trigger] res@[k]).0 == backlog@[k] && res@[k].1@ == Some(
                    coefficient(g@, PathRule::Shortest, node_of(backlog@[k])),
                ),
        decreases backlog@.len() - i,
    {
        res.push((backlog[i], inbreeding(g, backlog[i])));
        i += 1;
    }
    res
}

} // verus!
