//! The mathematical model of the store: what its tables hold, when they are
//! consistent, and what each operation makes of them.

use vstd::prelude::*;

use crate::eth::{Address, U256};
use crate::nftrout::{
    ChainId, Event, EventForUi, EventKindForUi, PendingToken, TokenEvent, TokenEventKind, TokenForUiView, TokenId, TroutId, TroutTokenView,
    CURRENT_VERSION,
};

verus! {

/// A content identifier is shelved once pinning it has failed this often.
pub const PIN_FAIL_CEILING: u32 = 20;

/// One entry of a token's metadata history.
pub struct GenerationView {
    pub ord: usize,
    pub cid: Seq<char>,
    pub pinned: bool,
    pub pin_fails: u32,
}

/// What indexing stored of a token's metadata.
pub struct MetadataView {
    pub version: u32,
    pub name: Seq<char>,
    pub fee: Option<U256>,
    pub is_genesis: bool,
    pub is_santa: bool,
    pub left_parent: Option<TroutId>,
    pub right_parent: Option<TroutId>,
}

/// A token with everything that hangs on it. A token without metadata is
/// pending.
pub struct TokenView {
    pub id: TroutId,
    pub owner: Address,
    pub metadata: Option<MetadataView>,
    pub coi: Option<Seq<u128>>,
    pub generations: Seq<GenerationView>,
}

/// The whole store.
pub struct StoreView {
    pub tokens: Seq<TokenView>,
    pub events: Seq<TokenEvent>,
    pub progress: Map<ChainId, u64>,
    pub user_version: nat,
    pub schema: Seq<Seq<char>>,
}

/// The order in which tokens are kept: by number, then by chain.
pub open spec fn precedes(a: TroutId, b: TroutId) -> bool {
    a.token_id < b.token_id || (a.token_id == b.token_id && a.chain_id < b.chain_id)
}

/// Tokens stand in strictly ascending order, so no identity occurs twice.
pub open spec fn sorted(tokens: Seq<TokenView>) -> bool {
    forall|i: int, j: int|
        0 <= i < j < tokens.len() ==> precedes(#[trigger] tokens[i].id, #[trigger] tokens[j].id)
}

/// The generations of one token are numbered `0, 1, 2, ...` without a gap.
pub open spec fn dense(generations: Seq<GenerationView>) -> bool {
    forall|i: int| 0 <= i < generations.len() ==> (#[trigger] generations[i]).ord == i
}

/// No failure count is above the ceiling.
pub open spec fn capped(generations: Seq<GenerationView>) -> bool {
    forall|i: int|
        0 <= i < generations.len() ==> (#[trigger] generations[i]).pin_fails <= PIN_FAIL_CEILING
}

/// A token is consistent: its generations are dense and capped, and it
/// carries an analysis or generations only together with metadata.
pub open spec fn token_valid(token: TokenView) -> bool {
    &&& dense(token.generations)
    &&& capped(token.generations)
    &&& (token.metadata is None ==> token.coi is None && token.generations.len() == 0)
}

/// Two events with the same token, block and log index are the same event.
pub open spec fn same_event(a: TokenEvent, b: TokenEvent) -> bool {
    a.token == b.token && a.block == b.block && a.log_index == b.log_index
}

/// No event is recorded twice.
pub open spec fn events_unique(events: Seq<TokenEvent>) -> bool {
    forall|i: int, j: int|
        0 <= i < j < events.len() ==> !same_event(#[trigger] events[i], #[trigger] events[j])
}

/// The store is consistent.
pub open spec fn valid(store: StoreView) -> bool {
    &&& sorted(store.tokens)
    &&& forall|i: int| 0 <= i < store.tokens.len() ==> token_valid(#[trigger] store.tokens[i])
    &&& events_unique(store.events)
}

/// The number of leading tokens that stand before `id`: where `id` is, or
/// would be inserted.
pub open spec fn slot(tokens: Seq<TokenView>, id: TroutId) -> int
    decreases tokens.len(),
{
    if tokens.len() == 0 || !precedes(tokens[0].id, id) {
        0
    } else {
        1 + slot(tokens.drop_first(), id)
    }
}

/// Where the token `id` stands, if it is there.
pub open spec fn find(tokens: Seq<TokenView>, id: TroutId) -> Option<int> {
    let at = slot(tokens, id);
    if at < tokens.len() && tokens[at].id == id {
        Some(at)
    } else {
        None
    }
}

/// Whether some token has the identity `id`.
pub open spec fn has_token(tokens: Seq<TokenView>, id: TroutId) -> bool {
    exists|i: int| 0 <= i < tokens.len() && (#[trigger] tokens[i]).id == id
}

pub proof fn lemma_slot_bounds(tokens: Seq<TokenView>, id: TroutId)
    ensures
        0 <= slot(tokens, id) <= tokens.len(),
        forall|i: int| 0 <= i < slot(tokens, id) ==> precedes(#[trigger] tokens[i].id, id),
        slot(tokens, id) < tokens.len() ==> !precedes(tokens[slot(tokens, id)].id, id),
    decreases tokens.len(),
{
    if tokens.len() == 0 || !precedes(tokens[0].id, id) {
    } else {
        let rest = tokens.drop_first();
        lemma_slot_bounds(rest, id);
        assert forall|i: int| 0 <= i < slot(tokens, id) implies precedes(
            #[trigger] tokens[i].id,
            id,
        ) by {
            if i > 0 {
                assert(tokens[i] == rest[i - 1]);
            }
        }
        if slot(tokens, id) < tokens.len() {
            assert(tokens[slot(tokens, id)] == rest[slot(rest, id)]);
        }
    }
}

/// In a sorted table, `find` finds a token exactly when it is there, and
/// then at its only place.
pub proof fn lemma_find_sorted(tokens: Seq<TokenView>, id: TroutId)
    requires
        sorted(tokens),
    ensures
        find(tokens, id) is Some <==> has_token(tokens, id),
        forall|i: int|
            0 <= i < tokens.len() && (#[trigger] tokens[i]).id == id ==> find(tokens, id) == Some(
                i,
            ),
        forall|i: int| slot(tokens, id) < i < tokens.len() ==> precedes(id, #[trigger] tokens[i].id),
        slot(tokens, id) < tokens.len() && find(tokens, id) is None ==> precedes(
            id,
            tokens[slot(tokens, id)].id,
        ),
{
    lemma_slot_bounds(tokens, id);
    let at = slot(tokens, id);
    assert forall|i: int| 0 <= i < tokens.len() && (#[trigger] tokens[i]).id == id implies find(
        tokens,
        id,
    ) == Some(i) by {
        if i < at {
            assert(precedes(tokens[i].id, id));
        } else if i > at {
            assert(precedes(tokens[at].id, tokens[i].id));
        }
    }
    if find(tokens, id) is Some {
        assert(tokens[at].id == id);
    }
    assert forall|i: int| at < i < tokens.len() implies precedes(id, #[trigger] tokens[i].id) by {
        assert(precedes(tokens[at].id, tokens[i].id));
    }
}


/// The watermark of `chain`: every block up to it has been applied. A chain
/// that was never written stands at block 0.
pub open spec fn watermark(progress: Map<ChainId, u64>, chain: ChainId) -> u64 {
    if progress.contains_key(chain) {
        progress[chain]
    } else {
        0
    }
}

/// The tokens of `chain`.
pub open spec fn in_chain(chain: ChainId) -> spec_fn(TokenView) -> bool {
    |t: TokenView| t.id.chain_id == chain
}

/// A token's number.
pub open spec fn number_of() -> spec_fn(TokenView) -> TokenId {
    |t: TokenView| t.id.token_id
}

/// A token's identity.
pub open spec fn identity_of() -> spec_fn(TokenView) -> TroutId {
    |t: TokenView| t.id
}

/// The numbers of the tokens of `chain`, ascending.
pub open spec fn chain_token_ids(tokens: Seq<TokenView>, chain: ChainId) -> Seq<TokenId> {
    tokens.filter(in_chain(chain)).map_values(number_of())
}

/// The token has been indexed but its coefficient is still unknown.
pub open spec fn lacks_coi() -> spec_fn(TokenView) -> bool {
    |t: TokenView| t.metadata is Some && t.coi is None
}

/// The tokens that still need analysis.
pub open spec fn coi_backlog(tokens: Seq<TokenView>) -> Seq<TroutId> {
    tokens.filter(lacks_coi()).map_values(identity_of())
}

/// The token is of `chain` and pending, or indexed at an older version.
pub open spec fn outdated_in(chain: ChainId) -> spec_fn(TokenView) -> bool {
    |t: TokenView|
        t.id.chain_id == chain && match t.metadata {
            Some(m) => m.version < CURRENT_VERSION,
            None => true,
        }
}

/// The numbers of the tokens of `chain` that must be indexed again.
pub open spec fn outdated_ids(tokens: Seq<TokenView>, chain: ChainId) -> Seq<TokenId> {
    tokens.filter(outdated_in(chain)).map_values(number_of())
}

/// The generation still waits to be pinned.
pub open spec fn awaits_pin() -> spec_fn(GenerationView) -> bool {
    |g: GenerationView| !g.pinned && g.pin_fails < PIN_FAIL_CEILING
}

/// A generation's content identifier.
pub open spec fn cid_of() -> spec_fn(GenerationView) -> Seq<char> {
    |g: GenerationView| g.cid
}

/// The identifiers among `generations` that still wait to be pinned.
pub open spec fn unpinned_in(generations: Seq<GenerationView>) -> Seq<Seq<char>> {
    generations.filter(awaits_pin()).map_values(cid_of())
}

/// The identifiers in the whole store that still wait to be pinned, token
/// by token.
pub open spec fn unpinned(tokens: Seq<TokenView>) -> Seq<Seq<char>>
    decreases tokens.len(),
{
    if tokens.len() == 0 {
        Seq::empty()
    } else {
        unpinned(tokens.drop_last()) + unpinned_in(tokens.last().generations)
    }
}

/// The identifier of generation `ord` of a token, or of its newest
/// generation when `ord` is left open.
pub open spec fn generation_cid(generations: Seq<GenerationView>, ord: Option<u32>) -> Option<
    Seq<char>,
> {
    match ord {
        Some(k) => if k < generations.len() {
            Some(generations[k as int].cid)
        } else {
            None
        },
        None => if generations.len() > 0 {
            Some(generations.last().cid)
        } else {
            None
        },
    }
}

/// The identifier that `token_cid` answers with.
pub open spec fn stored_cid(tokens: Seq<TokenView>, id: TroutId, ord: Option<u32>) -> Option<
    Seq<char>,
> {
    match find(tokens, id) {
        Some(at) => generation_cid(tokens[at].generations, ord),
        None => None,
    }
}

/// `m` is the greatest number among the tokens of `chain`.
pub open spec fn is_latest(tokens: Seq<TokenView>, chain: ChainId, m: TokenId) -> bool {
    &&& exists|i: int|
        0 <= i < tokens.len() && (#[trigger] tokens[i]).id == (TroutId {
            chain_id: chain,
            token_id: m,
        })
    &&& forall|i: int|
        0 <= i < tokens.len() && (#[trigger] tokens[i]).id.chain_id == chain
            ==> tokens[i].id.token_id <= m
}

/// No token is of `chain`.
pub open spec fn chain_is_empty(tokens: Seq<TokenView>, chain: ChainId) -> bool {
    forall|i: int| 0 <= i < tokens.len() ==> (#[trigger] tokens[i]).id.chain_id != chain
}


/// Selecting from nothing gives nothing.
pub proof fn lemma_select_none<A, B>(s: Seq<A>, p: spec_fn(A) -> bool, f: spec_fn(A) -> B)
    ensures
        s.take(0).filter(p).map_values(f) == Seq::<B>::empty(),
{
    reveal(Seq::filter);
    assert(s.take(0) =~= Seq::<A>::empty());
    assert(s.take(0).filter(p) =~= Seq::<A>::empty());
    assert(s.take(0).filter(p).map_values(f) =~= Seq::<B>::empty());
}

/// Selecting from one more element adds its image when it is chosen.
pub proof fn lemma_select_next<A, B>(s: Seq<A>, i: int, p: spec_fn(A) -> bool, f: spec_fn(A) -> B)
    requires
        0 <= i < s.len(),
    ensures
        s.take(i + 1).filter(p).map_values(f) == if p(s[i]) {
            s.take(i).filter(p).map_values(f).push(f(s[i]))
        } else {
            s.take(i).filter(p).map_values(f)
        },
{
    assert(s.take(i + 1) =~= s.take(i).push(s[i]));
    s.take(i).lemma_filter_push(s[i], p);
    if p(s[i]) {
        s.take(i).filter(p).lemma_push_map_commute(f, s[i]);
    }
}

/// Selecting from all elements.
pub proof fn lemma_select_all<A>(s: Seq<A>)
    ensures
        s.take(s.len() as int) == s,
{
    assert(s.take(s.len() as int) =~= s);
}


/// Whether an event with the key of `e` has been recorded.
pub open spec fn has_event(events: Seq<TokenEvent>, e: TokenEvent) -> bool {
    exists|i: int| 0 <= i < events.len() && same_event(#[trigger] events[i], e)
}

/// The log after `e` arrived: a second arrival of an event changes nothing.
pub open spec fn record_one(events: Seq<TokenEvent>, e: TokenEvent) -> Seq<TokenEvent> {
    if has_event(events, e) {
        events
    } else {
        events.push(e)
    }
}

/// The log after the items of `batch` arrived in order.
pub open spec fn recorded(events: Seq<TokenEvent>, batch: Seq<Event>) -> Seq<TokenEvent>
    decreases batch.len(),
{
    if batch.len() == 0 {
        events
    } else {
        let before = recorded(events, batch.drop_last());
        match batch.last() {
            Event::Token(e) => record_one(before, e),
            Event::ProcessedBlock(_) => before,
        }
    }
}

/// The highest block that `batch` marks as processed, if it marks any.
pub open spec fn highest_block(batch: Seq<Event>) -> Option<u64>
    decreases batch.len(),
{
    if batch.len() == 0 {
        None
    } else {
        let before = highest_block(batch.drop_last());
        match batch.last() {
            Event::ProcessedBlock(b) => match before {
                Some(h) => if h >= b {
                    Some(h)
                } else {
                    Some(b)
                },
                None => Some(b),
            },
            Event::Token(_) => before,
        }
    }
}

/// The watermarks after `batch`: that of `chain` moves up to the highest
/// block the batch marks as processed, and never back.
pub open spec fn advanced(progress: Map<ChainId, u64>, chain: ChainId, batch: Seq<Event>) -> Map<
    ChainId,
    u64,
> {
    match highest_block(batch) {
        Some(b) => if b > watermark(progress, chain) {
            progress.insert(chain, b)
        } else {
            progress
        },
        None => progress,
    }
}


/// The identity of token `number` on `chain`.
pub open spec fn trout(chain: ChainId, number: TokenId) -> TroutId {
    TroutId { chain_id: chain, token_id: number }
}

/// The tokens after `id`, if it is there, got the owner `owner`.
pub open spec fn with_owner(tokens: Seq<TokenView>, id: TroutId, owner: Address) -> Seq<TokenView> {
    match find(tokens, id) {
        Some(at) => tokens.update(at, TokenView { owner: owner, ..tokens[at] }),
        None => tokens,
    }
}

/// The tokens after the owner updates were applied in order: the last
/// update of a token wins.
pub open spec fn owners_updated(
    tokens: Seq<TokenView>,
    chain: ChainId,
    updates: Seq<(TokenId, Address)>,
) -> Seq<TokenView>
    decreases updates.len(),
{
    if updates.len() == 0 {
        tokens
    } else {
        with_owner(
            owners_updated(tokens, chain, updates.drop_last()),
            trout(chain, updates.last().0),
            updates.last().1,
        )
    }
}

/// The tokens after the metadata of `id`, if it has any, got the listing
/// fee `fee`.
pub open spec fn with_fee(tokens: Seq<TokenView>, id: TroutId, fee: Option<U256>) -> Seq<
    TokenView,
> {
    match find(tokens, id) {
        Some(at) => match tokens[at].metadata {
            Some(m) => tokens.update(
                at,
                TokenView { metadata: Some(MetadataView { fee: fee, ..m }), ..tokens[at] },
            ),
            None => tokens,
        },
        None => tokens,
    }
}

/// The tokens after the fee updates were applied in order.
pub open spec fn fees_updated(
    tokens: Seq<TokenView>,
    chain: ChainId,
    updates: Seq<(TokenId, Option<U256>)>,
) -> Seq<TokenView>
    decreases updates.len(),
{
    if updates.len() == 0 {
        tokens
    } else {
        with_fee(
            fees_updated(tokens, chain, updates.drop_last()),
            trout(chain, updates.last().0),
            updates.last().1,
        )
    }
}

/// The tokens after the metadata of `id`, if it has any, got the name `name`.
pub open spec fn with_name(tokens: Seq<TokenView>, id: TroutId, name: Seq<char>) -> Seq<
    TokenView,
> {
    match find(tokens, id) {
        Some(at) => match tokens[at].metadata {
            Some(m) => tokens.update(
                at,
                TokenView { metadata: Some(MetadataView { name: name, ..m }), ..tokens[at] },
            ),
            None => tokens,
        },
        None => tokens,
    }
}

/// The tokens after the analysis of `id`, if it has been indexed, was set
/// to `coi`.
pub open spec fn with_coi(tokens: Seq<TokenView>, id: TroutId, coi: Option<Seq<u128>>) -> Seq<
    TokenView,
> {
    match find(tokens, id) {
        Some(at) => if tokens[at].metadata is Some {
            tokens.update(at, TokenView { coi: coi, ..tokens[at] })
        } else {
            tokens
        },
        None => tokens,
    }
}

/// The tokens after the coefficients were stored in order.
pub open spec fn cois_set(tokens: Seq<TokenView>, cois: Seq<(TroutId, Option<Seq<u128>>)>) -> Seq<
    TokenView,
>
    decreases cois.len(),
{
    if cois.len() == 0 {
        tokens
    } else {
        with_coi(cois_set(tokens, cois.drop_last()), cois.last().0, cois.last().1)
    }
}

/// A token of which only identity and owner are known.
pub open spec fn pending_token(id: TroutId, owner: Address) -> TokenView {
    TokenView { id: id, owner: owner, metadata: None, coi: None, generations: Seq::empty() }
}

/// The tokens after `id` was made known: a token that is there stays as it is.
pub open spec fn with_pending(tokens: Seq<TokenView>, id: TroutId, owner: Address) -> Seq<
    TokenView,
> {
    match find(tokens, id) {
        Some(_) => tokens,
        None => tokens.insert(slot(tokens, id), pending_token(id, owner)),
    }
}

/// The tokens after the spawned tokens were made known in order.
pub open spec fn pending_inserted(
    tokens: Seq<TokenView>,
    chain: ChainId,
    spawned: Seq<(TokenId, PendingToken)>,
) -> Seq<TokenView>
    decreases spawned.len(),
{
    if spawned.len() == 0 {
        tokens
    } else {
        with_pending(
            pending_inserted(tokens, chain, spawned.drop_last()),
            trout(chain, spawned.last().0),
            spawned.last().1.owner,
        )
    }
}

/// Inserting a token at its slot keeps the table sorted.
pub proof fn lemma_insert_sorted(tokens: Seq<TokenView>, row: TokenView)
    requires
        sorted(tokens),
        find(tokens, row.id) is None,
    ensures
        sorted(tokens.insert(slot(tokens, row.id), row)),
{
    lemma_find_sorted(tokens, row.id);
    lemma_slot_bounds(tokens, row.id);
    let at = slot(tokens, row.id);
    let after = tokens.insert(at, row);
    assert forall|i: int, j: int| 0 <= i < j < after.len() implies precedes(
        #[trigger] after[i].id,
        #[trigger] after[j].id,
    ) by {
        if j < at {
            assert(after[i] == tokens[i] && after[j] == tokens[j]);
        } else if j == at {
            assert(after[i] == tokens[i]);
        } else if i < at {
            assert(after[i] == tokens[i] && after[j] == tokens[j - 1]);
            if j - 1 == at {
            } else {
                assert(precedes(tokens[i].id, tokens[j - 1].id));
            }
            assert(precedes(tokens[i].id, row.id));
        } else if i == at {
            assert(after[j] == tokens[j - 1]);
            if j - 1 > at {
                assert(precedes(row.id, tokens[j - 1].id));
            }
        } else {
            assert(after[i] == tokens[i - 1] && after[j] == tokens[j - 1]);
        }
    }
}


/// The generations after every one with the identifier `cid` was marked pinned.
pub open spec fn pinned_in(generations: Seq<GenerationView>, cid: Seq<char>) -> Seq<
    GenerationView,
> {
    Seq::new(
        generations.len(),
        |i: int|
            if generations[i].cid == cid {
                GenerationView { pinned: true, ..generations[i] }
            } else {
                generations[i]
            },
    )
}

/// The tokens after every generation with the identifier `cid` was marked pinned.
pub open spec fn with_pinned(tokens: Seq<TokenView>, cid: Seq<char>) -> Seq<TokenView> {
    Seq::new(
        tokens.len(),
        |i: int| TokenView { generations: pinned_in(tokens[i].generations, cid), ..tokens[i] },
    )
}

/// The tokens after the identifiers were marked pinned in order.
pub open spec fn pinned_all(tokens: Seq<TokenView>, cids: Seq<Seq<char>>) -> Seq<TokenView>
    decreases cids.len(),
{
    if cids.len() == 0 {
        tokens
    } else {
        with_pinned(pinned_all(tokens, cids.drop_last()), cids.last())
    }
}

/// One more failure, counted up to the ceiling.
pub open spec fn one_more_failure(pin_fails: u32) -> u32 {
    if pin_fails < PIN_FAIL_CEILING {
        (pin_fails + 1) as u32
    } else {
        pin_fails
    }
}

/// The generations after one more failure was counted for every one with
/// the identifier `cid`.
pub open spec fn failed_in(generations: Seq<GenerationView>, cid: Seq<char>) -> Seq<
    GenerationView,
> {
    Seq::new(
        generations.len(),
        |i: int|
            if generations[i].cid == cid {
                GenerationView {
                    pin_fails: one_more_failure(generations[i].pin_fails),
                    ..generations[i]
                }
            } else {
                generations[i]
            },
    )
}

/// The tokens after one more failure was counted for `cid`.
pub open spec fn with_pin_failed(tokens: Seq<TokenView>, cid: Seq<char>) -> Seq<TokenView> {
    Seq::new(
        tokens.len(),
        |i: int| TokenView { generations: failed_in(tokens[i].generations, cid), ..tokens[i] },
    )
}

/// The tokens after a failure was counted for each of the identifiers in order.
pub open spec fn pin_failed_all(tokens: Seq<TokenView>, cids: Seq<Seq<char>>) -> Seq<TokenView>
    decreases cids.len(),
{
    if cids.len() == 0 {
        tokens
    } else {
        with_pin_failed(pin_failed_all(tokens, cids.drop_last()), cids.last())
    }
}


/// Marking an identifier pinned keeps the store consistent.
pub proof fn lemma_pinned_valid(store: StoreView, cid: Seq<char>)
    requires
        valid(store),
    ensures
        valid(StoreView { tokens: with_pinned(store.tokens, cid), ..store }),
{
    let after = with_pinned(store.tokens, cid);
    assert forall|i: int| 0 <= i < after.len() implies token_valid(#[trigger] after[i]) by {
        assert(token_valid(store.tokens[i]));
    }
    assert forall|i: int, j: int| 0 <= i < j < after.len() implies precedes(
        #[trigger] after[i].id,
        #[trigger] after[j].id,
    ) by {
        assert(precedes(store.tokens[i].id, store.tokens[j].id));
    }
}

/// Counting a failure keeps the store consistent.
pub proof fn lemma_pin_failed_valid(store: StoreView, cid: Seq<char>)
    requires
        valid(store),
    ensures
        valid(StoreView { tokens: with_pin_failed(store.tokens, cid), ..store }),
{
    let after = with_pin_failed(store.tokens, cid);
    assert forall|i: int| 0 <= i < after.len() implies token_valid(#[trigger] after[i]) by {
        assert(token_valid(store.tokens[i]));
    }
    assert forall|i: int, j: int| 0 <= i < j < after.len() implies precedes(
        #[trigger] after[i].id,
        #[trigger] after[j].id,
    ) by {
        assert(precedes(store.tokens[i].id, store.tokens[j].id));
    }
}


/// The metadata that indexing stores of `token`.
pub open spec fn metadata_of(token: TroutTokenView) -> MetadataView {
    MetadataView {
        version: token.meta.properties.version,
        name: token.meta.name,
        fee: token.fee,
        is_genesis: token.meta.properties.attributes.genesis,
        is_santa: token.meta.properties.attributes.santa,
        left_parent: token.meta.properties.left,
        right_parent: token.meta.properties.right,
    }
}

/// The generations that indexing stores of `token`: with `n` entries in
/// its history, these at `0` to `n - 1` in order, and its current
/// identifier at `n`.
pub open spec fn generations_of(token: TroutTokenView) -> Seq<GenerationView> {
    let history = token.meta.properties.generations;
    Seq::new(
        history.len() + 1,
        |i: int|
            GenerationView {
                ord: i as usize,
                cid: if i < history.len() {
                    history[i]
                } else {
                    token.cid
                },
                pinned: false,
                pin_fails: 0,
            },
    )
}

/// The row of a token that was pending as `row` and has now been indexed
/// as `token`: identity and owner stay.
pub open spec fn indexed_row(row: TokenView, token: TroutTokenView) -> TokenView {
    TokenView {
        metadata: Some(metadata_of(token)),
        coi: token.coi,
        generations: generations_of(token),
        ..row
    }
}

/// The tokens after `token` was indexed, or `None` where it has metadata
/// already.
pub open spec fn insert_one(tokens: Seq<TokenView>, token: TroutTokenView) -> Option<
    Seq<TokenView>,
> {
    let id = token.meta.properties.self_id;
    match find(tokens, id) {
        Some(at) => if tokens[at].metadata is Some {
            None
        } else {
            Some(tokens.update(at, indexed_row(tokens[at], token)))
        },
        None => Some(
            tokens.insert(slot(tokens, id), indexed_row(pending_token(id, token.owner), token)),
        ),
    }
}

/// The tokens after all of `batch` were indexed in order, or `None` where
/// one of them had metadata already when its turn came.
pub open spec fn insert_all(tokens: Seq<TokenView>, batch: Seq<TroutTokenView>) -> Option<
    Seq<TokenView>,
>
    decreases batch.len(),
{
    if batch.len() == 0 {
        Some(tokens)
    } else {
        match insert_all(tokens, batch.drop_last()) {
            Some(before) => insert_one(before, batch.last()),
            None => None,
        }
    }
}

/// Once a part of a batch fails, the whole batch fails.
pub proof fn lemma_insert_all_fails(tokens: Seq<TokenView>, batch: Seq<TroutTokenView>, k: int)
    requires
        0 <= k <= batch.len(),
        insert_all(tokens, batch.take(k)) is None,
    ensures
        insert_all(tokens, batch) is None,
    decreases batch.len() - k,
{
    if k == batch.len() {
        assert(batch.take(k) =~= batch);
    } else {
        assert(batch.take(k + 1).drop_last() =~= batch.take(k));
        lemma_insert_all_fails(tokens, batch, k + 1);
    }
}

/// Indexing a token keeps the table consistent.
pub proof fn lemma_insert_one_valid(tokens: Seq<TokenView>, token: TroutTokenView)
    requires
        sorted(tokens),
        forall|i: int| 0 <= i < tokens.len() ==> token_valid(#[trigger] tokens[i]),
        insert_one(tokens, token) is Some,
        token.meta.properties.generations.len() <= usize::MAX,
    ensures
        sorted(insert_one(tokens, token)->Some_0),
        forall|i: int|
            0 <= i < insert_one(tokens, token)->Some_0.len() ==> token_valid(
                #[trigger] insert_one(tokens, token)->Some_0[i],
            ),
{
    let id = token.meta.properties.self_id;
    let after = insert_one(tokens, token)->Some_0;
    lemma_slot_bounds(tokens, id);
    assert(dense(generations_of(token)));
    assert(capped(generations_of(token)));
    match find(tokens, id) {
        Some(at) => {
            assert forall|i: int, j: int| 0 <= i < j < after.len() implies precedes(
                #[trigger] after[i].id,
                #[trigger] after[j].id,
            ) by {
                assert(precedes(tokens[i].id, tokens[j].id));
            }
            assert forall|i: int| 0 <= i < after.len() implies token_valid(#[trigger] after[i]) by {
                assert(token_valid(tokens[i]));
            }
        },
        None => {
            let row = indexed_row(pending_token(id, token.owner), token);
            lemma_insert_sorted(tokens, row);
            let at = slot(tokens, id);
            assert forall|i: int| 0 <= i < after.len() implies token_valid(#[trigger] after[i]) by {
                if i < at {
                    assert(after[i] == tokens[i]);
                } else if i > at {
                    assert(after[i] == tokens[i - 1]);
                }
            }
        },
    }
}


/// Whether a listing for `chain` shows a token; an open `chain` shows all.
pub open spec fn shown_to(chain: Option<ChainId>) -> spec_fn(TokenView) -> bool {
    |t: TokenView|
        match chain {
            Some(c) => t.id.chain_id == c,
            None => true,
        }
}

/// What a listing shows of a token. A pending token has no name, no fee
/// and no parents, and is marked pending.
pub open spec fn ui_row(token: TokenView) -> TokenForUiView {
    match token.metadata {
        Some(m) => TokenForUiView {
            id: token.id.token_id,
            owner: token.owner,
            name: m.name,
            coi: token.coi,
            fee: m.fee,
            parents: match (m.left_parent, m.right_parent) {
                (Some(left), Some(right)) => Some((left, right)),
                _ => None,
            },
            pending: false,
        },
        None => TokenForUiView {
            id: token.id.token_id,
            owner: token.owner,
            name: Seq::empty(),
            coi: token.coi,
            fee: None,
            parents: None,
            pending: true,
        },
    }
}

/// `ui_row` as a function value.
pub open spec fn ui_row_of() -> spec_fn(TokenView) -> TokenForUiView {
    |t: TokenView| ui_row(t)
}

/// The listing for `chain`: one row for each of its tokens, ascending by
/// token number.
pub open spec fn listing(tokens: Seq<TokenView>, chain: Option<ChainId>) -> Seq<TokenForUiView> {
    tokens.filter(shown_to(chain)).map_values(ui_row_of())
}


/// The transfers of `token` in blocks before `bound`.
pub open spec fn transfers_before(token: TokenId, bound: u64) -> spec_fn(TokenEvent) -> bool {
    |e: TokenEvent| e.token == token && e.block < bound && e.kind is Transfer
}

/// The listings and delistings of `token` in blocks before `bound`.
pub open spec fn listings_before(token: TokenId, bound: u64) -> spec_fn(TokenEvent) -> bool {
    |e: TokenEvent| e.token == token && e.block < bound && e.kind is Relisted
}

/// The spawn events of `token`.
pub open spec fn spawns_of(token: TokenId) -> spec_fn(TokenEvent) -> bool {
    |e: TokenEvent| e.token == token && e.kind is Spawned
}

/// The most recent of the chosen events: the one in the highest block,
/// and of several in that block the one recorded last.
pub open spec fn latest_matching(events: Seq<TokenEvent>, pick: spec_fn(TokenEvent) -> bool)
    -> Option<TokenEvent>
    decreases events.len(),
{
    if events.len() == 0 {
        None
    } else {
        let before = latest_matching(events.drop_last(), pick);
        let e = events.last();
        if pick(e) && (match before {
            Some(b) => b.block <= e.block,
            None => true,
        }) {
            Some(e)
        } else {
            before
        }
    }
}

/// The chosen event that was recorded first.
pub open spec fn first_matching(events: Seq<TokenEvent>, pick: spec_fn(TokenEvent) -> bool)
    -> Option<TokenEvent>
    decreases events.len(),
{
    if events.len() == 0 {
        None
    } else {
        match first_matching(events.drop_last(), pick) {
            Some(b) => Some(b),
            None => if pick(events.last()) {
                Some(events.last())
            } else {
                None
            },
        }
    }
}

/// Who received the token in an event; a listing moves no token.
pub open spec fn recipient(kind: TokenEventKind) -> Option<Address> {
    match kind {
        TokenEventKind::Spawned { to } => Some(to),
        TokenEventKind::Transfer { from, to } => Some(to),
        TokenEventKind::Relisted { fee } => None,
    }
}

/// The owner of `token` just before block `bound`: the recipient of its
/// most recent transfer before that block, or else of its spawn.
pub open spec fn owner_before(events: Seq<TokenEvent>, token: TokenId, bound: u64) -> Option<
    Address,
> {
    match latest_matching(events, transfers_before(token, bound)) {
        Some(e) => recipient(e.kind),
        None => match first_matching(events, spawns_of(token)) {
            Some(e) => recipient(e.kind),
            None => None,
        },
    }
}

/// The amount zero.
pub open spec fn no_amount() -> U256 {
    U256 { high: 0, low: 0 }
}

/// The listing fee of `token` just before block `bound`: that of its most
/// recent listing before that block, and zero where it was delisted or
/// never listed.
pub open spec fn fee_before(events: Seq<TokenEvent>, token: TokenId, bound: u64) -> U256 {
    match latest_matching(events, listings_before(token, bound)) {
        Some(e) => match e.kind {
            TokenEventKind::Relisted { fee: Some(fee) } => fee,
            _ => no_amount(),
        },
        None => no_amount(),
    }
}

/// The breeding that the spawn event `spawn` of `child` records for its
/// parent `parent`. The breeder is who received the child. Breeding with
/// one's own token costs nothing; otherwise the price is the listing fee
/// at that time. There is no row where the other parent or the owner at
/// that time is not known.
pub open spec fn breed_row(
    events: Seq<TokenEvent>,
    parent: TroutId,
    child: TroutId,
    coparent: Option<TroutId>,
    spawn: TokenEvent,
) -> Option<EventForUi> {
    match (coparent, owner_before(events, parent.token_id, spawn.block), recipient(spawn.kind)) {
        (Some(other), Some(owner), Some(breeder)) => Some(
            EventForUi {
                id: parent,
                block: spawn.block,
                kind: EventKindForUi::Breed {
                    breeder: breeder,
                    child: child,
                    coparent: other,
                    price: if breeder == owner {
                        no_amount()
                    } else {
                        fee_before(events, parent.token_id, spawn.block)
                    },
                    owner: owner,
                },
            },
        ),
        _ => None,
    }
}

/// The breedings of `parent` that produced `child`: one for each spawn
/// event of the child among `log`, in the order of the log.
pub open spec fn child_rows(
    events: Seq<TokenEvent>,
    log: Seq<TokenEvent>,
    parent: TroutId,
    child: TroutId,
    coparent: Option<TroutId>,
) -> Seq<Option<EventForUi>>
    decreases log.len(),
{
    if log.len() == 0 {
        Seq::empty()
    } else {
        let before = child_rows(events, log.drop_last(), parent, child, coparent);
        if spawns_of(child.token_id)(log.last()) {
            before.push(breed_row(events, parent, child, coparent, log.last()))
        } else {
            before
        }
    }
}

/// The parent of `m` on one side, and the parent on the other.
pub open spec fn parents_from(m: MetadataView, right: bool) -> (Option<TroutId>, Option<TroutId>) {
    if right {
        (m.right_parent, m.left_parent)
    } else {
        (m.left_parent, m.right_parent)
    }
}

/// The breedings in which `parent` was the parent on one side, child by
/// child in the order of the tokens.
pub open spec fn side_rows(
    events: Seq<TokenEvent>,
    tokens: Seq<TokenView>,
    parent: TroutId,
    right: bool,
) -> Seq<Option<EventForUi>>
    decreases tokens.len(),
{
    if tokens.len() == 0 {
        Seq::empty()
    } else {
        let before = side_rows(events, tokens.drop_last(), parent, right);
        let child = tokens.last();
        match child.metadata {
            Some(m) => if parents_from(m, right).0 == Some(parent) {
                before + child_rows(events, events, parent, child.id, parents_from(m, right).1)
            } else {
                before
            },
            None => before,
        }
    }
}

/// Every breeding of `parent`: first those where it was the right parent,
/// then those where it was the left.
pub open spec fn breeding_rows(store: StoreView, parent: TroutId) -> Seq<Option<EventForUi>> {
    side_rows(store.events, store.tokens, parent, true) + side_rows(
        store.events,
        store.tokens,
        parent,
        false,
    )
}

/// Every row is there.
pub open spec fn complete(rows: Seq<Option<EventForUi>>) -> bool {
    forall|i: int| 0 <= i < rows.len() ==> (#[trigger] rows[i]) is Some
}

/// The rows themselves.
pub open spec fn unwrapped(rows: Seq<Option<EventForUi>>) -> Seq<EventForUi> {
    Seq::new(rows.len(), |i: int| rows[i]->Some_0)
}


/// A store that holds nothing and has seen no schema script.
pub open spec fn blank() -> StoreView {
    StoreView {
        tokens: Seq::empty(),
        events: Seq::empty(),
        progress: Map::empty(),
        user_version: 0,
        schema: Seq::empty(),
    }
}

/// The store after the schema scripts `scripts` were brought to bear: a
/// store that has seen all of them stays as it is; otherwise those it has
/// not seen are applied in order and its version becomes their number.
pub open spec fn migrated(store: StoreView, scripts: Seq<Seq<char>>) -> StoreView {
    if store.user_version >= scripts.len() {
        store
    } else {
        StoreView {
            user_version: scripts.len(),
            schema: store.schema + scripts.skip(store.user_version as int),
            ..store
        }
    }
}


/// The watermarks after the first `upto` of `rows` were set, each to its block.
pub open spec fn watermarks(rows: Seq<(ChainId, u64)>, upto: nat) -> Map<ChainId, u64>
    decreases upto,
{
    if upto == 0 {
        Map::empty()
    } else {
        watermarks(rows, (upto - 1) as nat).insert(rows[upto - 1].0, rows[upto - 1].1)
    }
}

/// Each token stands before the next.
pub open spec fn stepwise_sorted(tokens: Seq<TokenView>) -> bool {
    forall|i: int|
        0 <= i < tokens.len() - 1 ==> precedes(#[trigger] tokens[i].id, tokens[i + 1].id)
}

/// Tokens of which each stands before the next are sorted.
pub proof fn lemma_stepwise_sorted(tokens: Seq<TokenView>)
    requires
        stepwise_sorted(tokens),
    ensures
        sorted(tokens),
{
    assert forall|i: int, j: int| 0 <= i < j < tokens.len() implies precedes(
        #[trigger] tokens[i].id,
        #[trigger] tokens[j].id,
    ) by {
        lemma_stepwise_reaches(tokens, i, j);
    }
}

pub proof fn lemma_stepwise_reaches(tokens: Seq<TokenView>, i: int, j: int)
    requires
        stepwise_sorted(tokens),
        0 <= i < j < tokens.len(),
    ensures
        precedes(tokens[i].id, tokens[j].id),
    decreases j - i,
{
    if j > i + 1 {
        lemma_stepwise_reaches(tokens, i, j - 1);
        assert(precedes(tokens[j - 1].id, tokens[j - 1 + 1].id));
    } else {
        assert(precedes(tokens[i].id, tokens[i + 1].id));
    }
}

} // verus!
