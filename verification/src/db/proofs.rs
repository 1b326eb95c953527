//! What holds of the store whatever is done to it.

use vstd::prelude::*;

use crate::db::model::{
    advanced, awaits_pin, capped, chain_token_ids, dense, find, generation_cid, generations_of,
    has_event, has_token, highest_block, in_chain, indexed_row, insert_all, insert_one, is_latest,
    latest_matching,
    lemma_find_sorted, lemma_insert_sorted, lemma_slot_bounds, listing, pending_token, precedes,
    record_one, recorded, same_event, shown_to, slot, sorted, stored_cid, token_valid, trout,
    ui_row, unpinned, unpinned_in, valid, watermark, StoreView, TokenView, PIN_FAIL_CEILING,
};
use crate::nftrout::{
    ChainId, Event, TokenEvent, TokenForUiView, TokenId, TroutId, TroutTokenView,
};

verus! {

/// In a consistent store the generations of every token are numbered
/// `0, 1, ..., n - 1` where the token has `n` of them: each number once
/// and none left out.
pub proof fn lemma_generations_dense(store: StoreView, at: int)
    requires
        valid(store),
        0 <= at < store.tokens.len(),
    ensures
        forall|j: int|
            0 <= j < store.tokens[at].generations.len() ==> (
            #[trigger] store.tokens[at].generations[j]).ord == j,
{
    assert(token_valid(store.tokens[at]));
}

/// Indexing a token with a history of `n` identifiers writes `n + 1`
/// generations: the history at `0` to `n - 1`, and the current identifier
/// at `n`, all of them neither pinned nor failed.
pub proof fn lemma_indexed_generations(token: TroutTokenView)
    requires
        token.meta.properties.generations.len() <= usize::MAX,
    ensures
        generations_of(token).len() == token.meta.properties.generations.len() + 1,
        dense(generations_of(token)),
        capped(generations_of(token)),
        generations_of(token).last().cid == token.cid,
        forall|i: int|
            0 <= i < token.meta.properties.generations.len() ==> (#[trigger] generations_of(
                token,
            )[i]).cid == token.meta.properties.generations[i],
        generation_cid(generations_of(token), None) == Some(token.cid),
{
}

/// The identifier that is answered when no generation is named is that of
/// the generation with the greatest number.
pub proof fn lemma_current_cid_is_newest(store: StoreView, id: TroutId)
    requires
        valid(store),
        stored_cid(store.tokens, id, None) is Some,
    ensures
        find(store.tokens, id) is Some,
        ({
            let generations = store.tokens[find(store.tokens, id)->Some_0].generations;
            exists|j: int|
                0 <= j < generations.len() && Some((#[trigger] generations[j]).cid) == stored_cid(
                    store.tokens,
                    id,
                    None,
                ) && forall|k: int|
                    0 <= k < generations.len() ==> (#[trigger] generations[k]).ord
                        <= generations[j].ord
        }),
{
    lemma_slot_bounds(store.tokens, id);
    let at = find(store.tokens, id)->Some_0;
    let generations = store.tokens[at].generations;
    assert(token_valid(store.tokens[at]));
    let j = generations.len() - 1;
    assert(generations[j].cid == generations.last().cid);
    assert forall|k: int| 0 <= k < generations.len() implies (#[trigger] generations[k]).ord
        <= generations[j].ord by {
        assert(generations[k].ord == k);
        assert(generations[j].ord == j);
    }
}

/// The most recent of the chosen events is a chosen event of the log, and
/// none of the chosen events lies in a higher block; where there is none,
/// no event of the log is chosen.
pub proof fn lemma_latest_is_latest(events: Seq<TokenEvent>, pick: spec_fn(TokenEvent) -> bool)
    ensures
        match latest_matching(events, pick) {
            Some(e) => events.contains(e) && pick(e) && forall|i: int|
                0 <= i < events.len() && pick(#[trigger] events[i]) ==> events[i].block <= e.block,
            None => forall|i: int| 0 <= i < events.len() ==> !pick(#[trigger] events[i]),
        },
    decreases events.len(),
{
    if events.len() > 0 {
        let rest = events.drop_last();
        let last = events.last();
        lemma_latest_is_latest(rest, pick);
        assert(events[events.len() - 1] == last);
        match latest_matching(rest, pick) {
            Some(b) => {
                let at = choose|at: int| 0 <= at < rest.len() && rest[at] == b;
                assert(events[at] == b);
                assert forall|i: int| 0 <= i < events.len() && pick(#[trigger] events[i]) implies
                    events[i].block <= latest_matching(events, pick)->Some_0.block by {
                    if i < rest.len() {
                        assert(rest[i] == events[i]);
                    }
                }
            },
            None => {
                assert forall|i: int| 0 <= i < events.len() - 1 implies !pick(
                    #[trigger] events[i],
                ) by {
                    assert(rest[i] == events[i]);
                }
            },
        }
    }
}

/// An event that arrives a second time changes nothing.
pub proof fn lemma_event_twice(events: Seq<TokenEvent>, e: TokenEvent)
    ensures
        has_event(record_one(events, e), e),
        record_one(record_one(events, e), e) == record_one(events, e),
{
    if has_event(events, e) {
    } else {
        let after = events.push(e);
        assert(same_event(after[events.len() as int], e));
    }
}

/// What is in the log stays in the log.
pub proof fn lemma_recorded_keeps(events: Seq<TokenEvent>, batch: Seq<Event>, e: TokenEvent)
    requires
        has_event(events, e),
    ensures
        has_event(recorded(events, batch), e),
    decreases batch.len(),
{
    if batch.len() > 0 {
        lemma_recorded_keeps(events, batch.drop_last(), e);
        let before = recorded(events, batch.drop_last());
        let i = choose|i: int| 0 <= i < before.len() && same_event(#[trigger] before[i], e);
        match batch.last() {
            Event::Token(f) => {
                assert(same_event(record_one(before, f)[i], e));
            },
            Event::ProcessedBlock(_) => {},
        }
    }
}

/// A log that holds every event of `batch` is not changed by it.
pub proof fn lemma_recorded_known(events: Seq<TokenEvent>, batch: Seq<Event>)
    requires
        forall|k: int|
            0 <= k < batch.len() ==> match #[trigger] batch[k] {
                Event::Token(e) => has_event(events, e),
                Event::ProcessedBlock(_) => true,
            },
    ensures
        recorded(events, batch) == events,
    decreases batch.len(),
{
    if batch.len() > 0 {
        let rest = batch.drop_last();
        assert forall|k: int| 0 <= k < rest.len() implies match #[trigger] rest[k] {
            Event::Token(e) => has_event(events, e),
            Event::ProcessedBlock(_) => true,
        } by {
            assert(rest[k] == batch[k]);
        }
        lemma_recorded_known(events, rest);
        assert(batch.last() == batch[batch.len() - 1]);
    }
}

/// After a batch was recorded, the log holds every event of it.
pub proof fn lemma_recorded_holds(events: Seq<TokenEvent>, batch: Seq<Event>, k: int)
    requires
        0 <= k < batch.len(),
    ensures
        match batch[k] {
            Event::Token(e) => has_event(recorded(events, batch), e),
            Event::ProcessedBlock(_) => true,
        },
    decreases batch.len(),
{
    let rest = batch.drop_last();
    let before = recorded(events, rest);
    if k < batch.len() - 1 {
        lemma_recorded_holds(events, rest, k);
        assert(rest[k] == batch[k]);
        match batch[k] {
            Event::Token(e) => {
                let i = choose|i: int| 0 <= i < before.len() && same_event(#[trigger] before[i], e);
                match batch.last() {
                    Event::Token(f) => {
                        assert(same_event(record_one(before, f)[i], e));
                    },
                    Event::ProcessedBlock(_) => {},
                }
            },
            Event::ProcessedBlock(_) => {},
        }
    } else {
        match batch[k] {
            Event::Token(e) => {
                lemma_event_twice(before, e);
            },
            Event::ProcessedBlock(_) => {},
        }
    }
}

/// Recording a batch a second time leaves the same log and the same
/// watermarks as recording it once.
pub proof fn lemma_record_twice(
    events: Seq<TokenEvent>,
    progress: Map<ChainId, u64>,
    chain: ChainId,
    batch: Seq<Event>,
)
    ensures
        recorded(recorded(events, batch), batch) == recorded(events, batch),
        advanced(advanced(progress, chain, batch), chain, batch) == advanced(
            progress,
            chain,
            batch,
        ),
{
    let once = recorded(events, batch);
    assert forall|k: int| 0 <= k < batch.len() implies match #[trigger] batch[k] {
        Event::Token(e) => has_event(once, e),
        Event::ProcessedBlock(_) => true,
    } by {
        lemma_recorded_holds(events, batch, k);
    }
    lemma_recorded_known(once, batch);
}

/// No batch moves a watermark back, and a batch moves only the watermark
/// of its own chain.
pub proof fn lemma_watermark_never_falls(
    progress: Map<ChainId, u64>,
    chain: ChainId,
    batch: Seq<Event>,
    other: ChainId,
)
    ensures
        watermark(advanced(progress, chain, batch), other) >= watermark(progress, other),
        other != chain ==> watermark(advanced(progress, chain, batch), other) == watermark(
            progress,
            other,
        ),
        highest_block(batch) is Some ==> watermark(advanced(progress, chain, batch), chain)
            >= highest_block(batch)->Some_0,
{
}

/// Indexing a token a second time is refused: its metadata is never
/// stored twice.
pub proof fn lemma_index_twice(tokens: Seq<TokenView>, token: TroutTokenView)
    requires
        sorted(tokens),
        insert_one(tokens, token) is Some,
    ensures
        insert_one(insert_one(tokens, token)->Some_0, token) is None,
        insert_all(insert_one(tokens, token)->Some_0, seq![token]) is None,
{
    let id = token.meta.properties.self_id;
    let after = insert_one(tokens, token)->Some_0;
    lemma_slot_bounds(tokens, id);
    lemma_find_sorted(tokens, id);
    match find(tokens, id) {
        Some(at) => {
            assert forall|i: int, j: int| 0 <= i < j < after.len() implies precedes(
                #[trigger] after[i].id,
                #[trigger] after[j].id,
            ) by {
                assert(precedes(tokens[i].id, tokens[j].id));
            }
            assert(after[at].id == id);
        },
        None => {
            let row = indexed_row(
                pending_token(id, token.owner),
                token,
            );
            lemma_insert_sorted(tokens, row);
            assert(after[slot(tokens, id)].id == id);
        },
    }
    lemma_find_sorted(after, id);
    let batch = seq![token];
    assert(batch.drop_last() =~= Seq::<TroutTokenView>::empty());
    assert(batch.last() == token);
    assert(insert_all(after, batch.drop_last()) == Some(after));
}

/// Every identifier that waits to be pinned belongs to a generation that
/// is neither pinned nor shelved.
pub proof fn lemma_unpinned_are_waiting(tokens: Seq<TokenView>, k: int)
    requires
        0 <= k < unpinned(tokens).len(),
    ensures
        exists|i: int, j: int|
            0 <= i < tokens.len() && 0 <= j < tokens[i].generations.len() && (
            #[trigger] tokens[i].generations[j]).cid == unpinned(tokens)[k]
                && !tokens[i].generations[j].pinned && tokens[i].generations[j].pin_fails
                < PIN_FAIL_CEILING,
    decreases tokens.len(),
{
    let rest = tokens.drop_last();
    let head = unpinned(rest);
    if k < head.len() {
        lemma_unpinned_are_waiting(rest, k);
        let (i, j) = choose|i: int, j: int|
            0 <= i < rest.len() && 0 <= j < rest[i].generations.len() && (
            #[trigger] rest[i].generations[j]).cid == head[k] && !rest[i].generations[j].pinned
                && rest[i].generations[j].pin_fails < PIN_FAIL_CEILING;
        assert(tokens[i] == rest[i]);
        assert(tokens[i].generations[j].cid == unpinned(tokens)[k]);
    } else {
        let generations = tokens.last().generations;
        let waiting = generations.filter(awaits_pin());
        let at = k - head.len();
        assert(unpinned(tokens)[k] == unpinned_in(generations)[at]);
        assert(unpinned_in(generations)[at] == waiting[at].cid);
        generations.lemma_filter_pred(awaits_pin(), at);
        assert(waiting.contains(waiting[at]));
        generations.lemma_filter_contains_rev(awaits_pin(), waiting[at]);
        assert(generations.contains(waiting[at]));
        let j = choose|j: int| 0 <= j < generations.len() && generations[j] == waiting[at];
        assert(awaits_pin()(waiting[at]));
        let i = tokens.len() - 1;
        assert(tokens[i].generations[j].cid == unpinned(tokens)[k]);
    }
}

/// Whatever is chosen from a sorted table is of the table and stands in
/// its order.
pub proof fn lemma_chosen_sorted(tokens: Seq<TokenView>, pick: spec_fn(TokenView) -> bool)
    requires
        sorted(tokens),
    ensures
        sorted(tokens.filter(pick)),
        forall|k: int|
            0 <= k < tokens.filter(pick).len() ==> tokens.contains(
                #[trigger] tokens.filter(pick)[k],
            ) && pick(tokens.filter(pick)[k]),
        forall|i: int|
            0 <= i < tokens.len() && pick(tokens[i]) ==> tokens.filter(pick).contains(
                #[trigger] tokens[i],
            ),
    decreases tokens.len(),
{
    reveal(Seq::filter);
    let chosen = tokens.filter(pick);
    if tokens.len() > 0 {
        let rest = tokens.drop_last();
        let last = tokens.last();
        assert forall|i: int, j: int| 0 <= i < j < rest.len() implies precedes(
            #[trigger] rest[i].id,
            #[trigger] rest[j].id,
        ) by {
            assert(precedes(tokens[i].id, tokens[j].id));
        }
        lemma_chosen_sorted(rest, pick);
        let before = rest.filter(pick);
        assert forall|k: int| 0 <= k < chosen.len() implies tokens.contains(#[trigger] chosen[k])
            && pick(chosen[k]) by {
            if k < before.len() {
                assert(chosen[k] == before[k]);
                assert(rest.contains(before[k]));
                let i = choose|i: int| 0 <= i < rest.len() && rest[i] == before[k];
                assert(tokens[i] == before[k]);
            } else {
                assert(chosen[k] == last);
                assert(tokens[tokens.len() - 1] == last);
            }
        }
        assert forall|i: int| 0 <= i < tokens.len() && pick(tokens[i]) implies chosen.contains(
            #[trigger] tokens[i],
        ) by {
            if i < rest.len() {
                assert(rest[i] == tokens[i]);
                assert(before.contains(rest[i]));
                let k = choose|k: int| 0 <= k < before.len() && before[k] == rest[i];
                assert(chosen[k] == tokens[i]);
            } else {
                assert(chosen[chosen.len() - 1] == tokens[i]);
            }
        }
        assert forall|a: int, b: int| 0 <= a < b < chosen.len() implies precedes(
            #[trigger] chosen[a].id,
            #[trigger] chosen[b].id,
        ) by {
            if b < before.len() {
                assert(chosen[a] == before[a] && chosen[b] == before[b]);
                assert(precedes(before[a].id, before[b].id));
            } else {
                assert(chosen[b] == last);
                assert(chosen[a] == before[a]);
                assert(rest.contains(before[a]));
                let i = choose|i: int| 0 <= i < rest.len() && rest[i] == before[a];
                assert(precedes(tokens[i].id, tokens[tokens.len() - 1].id));
            }
        }
    }
}

/// `row` is what a listing shows of some token of `chain`.
pub open spec fn is_row_of_chain(
    tokens: Seq<TokenView>,
    chain: ChainId,
    row: TokenForUiView,
) -> bool {
    exists|i: int|
        0 <= i < tokens.len() && (#[trigger] tokens[i]).id.chain_id == chain && row == ui_row(
            tokens[i],
        )
}

/// A listing for a chain shows exactly one row for each token of the
/// chain, ascending by token number, and a row is marked pending exactly
/// when its token has no metadata.
pub proof fn lemma_listing_one_row_each(tokens: Seq<TokenView>, chain: ChainId)
    requires
        sorted(tokens),
    ensures
        forall|i: int|
            0 <= i < tokens.len() && (#[trigger] tokens[i]).id.chain_id == chain ==> listing(
                tokens,
                Some(chain),
            ).contains(ui_row(tokens[i])),
        forall|k: int|
            0 <= k < listing(tokens, Some(chain)).len() ==> is_row_of_chain(
                tokens,
                chain,
                #[trigger] listing(tokens, Some(chain))[k],
            ),
        forall|a: int, b: int|
            0 <= a < b < listing(tokens, Some(chain)).len() ==> (#[trigger] listing(
                tokens,
                Some(chain),
            )[a]).id < (#[trigger] listing(tokens, Some(chain))[b]).id,
        forall|i: int|
            0 <= i < tokens.len() ==> ui_row(#[trigger] tokens[i]).pending == (
            tokens[i].metadata is None),
{
    let pick = shown_to(Some(chain));
    let chosen = tokens.filter(pick);
    let rows = listing(tokens, Some(chain));
    lemma_chosen_sorted(tokens, pick);
    assert forall|i: int|
        0 <= i < tokens.len() && (#[trigger] tokens[i]).id.chain_id == chain implies rows.contains(
        ui_row(tokens[i]),
    ) by {
        assert(pick(tokens[i]));
        assert(chosen.contains(tokens[i]));
        let k = choose|k: int| 0 <= k < chosen.len() && chosen[k] == tokens[i];
        assert(rows[k] == ui_row(tokens[i]));
    }
    assert forall|k: int| 0 <= k < rows.len() implies is_row_of_chain(
        tokens,
        chain,
        #[trigger] rows[k],
    ) by {
        assert(tokens.contains(chosen[k]) && pick(chosen[k]));
        let i = choose|i: int| 0 <= i < tokens.len() && tokens[i] == chosen[k];
        assert(tokens[i].id.chain_id == chain);
        assert(rows[k] == ui_row(tokens[i]));
    }
    assert forall|a: int, b: int| 0 <= a < b < rows.len() implies (#[trigger] rows[a]).id < (
    #[trigger] rows[b]).id by {
        assert(precedes(chosen[a].id, chosen[b].id));
        assert(pick(chosen[a]) && pick(chosen[b]));
        assert(rows[a] == ui_row(chosen[a]));
        assert(rows[b] == ui_row(chosen[b]));
    }
}

/// The numbers of the tokens of a chain come out strictly ascending.
pub proof fn lemma_token_ids_ascend(tokens: Seq<TokenView>, chain: ChainId)
    requires
        sorted(tokens),
    ensures
        forall|a: int, b: int|
            0 <= a < b < chain_token_ids(tokens, chain).len() ==> chain_token_ids(tokens, chain)[a]
                < chain_token_ids(tokens, chain)[b],
{
    let pick = in_chain(chain);
    let chosen = tokens.filter(pick);
    lemma_chosen_sorted(tokens, pick);
    assert forall|a: int, b: int| 0 <= a < b < chain_token_ids(tokens, chain).len() implies
        chain_token_ids(tokens, chain)[a] < chain_token_ids(tokens, chain)[b] by {
        assert(precedes(chosen[a].id, chosen[b].id));
        assert(pick(chosen[a]) && pick(chosen[b]));
    }
}

/// Indexing a token makes it known and no other.
pub proof fn lemma_insert_one_ids(tokens: Seq<TokenView>, token: TroutTokenView, id: TroutId)
    requires
        sorted(tokens),
        insert_one(tokens, token) is Some,
    ensures
        has_token(insert_one(tokens, token)->Some_0, id) <==> has_token(tokens, id) || id
            == token.meta.properties.self_id,
{
    let own = token.meta.properties.self_id;
    let after = insert_one(tokens, token)->Some_0;
    lemma_slot_bounds(tokens, own);
    lemma_find_sorted(tokens, own);
    match find(tokens, own) {
        Some(at) => {
            assert(after[at].id == own);
            if has_token(tokens, id) {
                let i = choose|i: int| 0 <= i < tokens.len() && (#[trigger] tokens[i]).id == id;
                assert(after[i].id == id);
            }
            if has_token(after, id) {
                let i = choose|i: int| 0 <= i < after.len() && (#[trigger] after[i]).id == id;
                assert(tokens[i].id == id);
            }
        },
        None => {
            let at = slot(tokens, own);
            assert(after[at].id == own);
            if has_token(tokens, id) {
                let i = choose|i: int| 0 <= i < tokens.len() && (#[trigger] tokens[i]).id == id;
                if i < at {
                    assert(after[i].id == id);
                } else {
                    assert(after[i + 1].id == id);
                }
            }
            if has_token(after, id) && id != own {
                let i = choose|i: int| 0 <= i < after.len() && (#[trigger] after[i]).id == id;
                if i < at {
                    assert(tokens[i].id == id);
                } else {
                    assert(tokens[i - 1].id == id);
                }
            }
        },
    }
}

/// Indexing a batch makes its tokens known and no others, and keeps the
/// table sorted.
pub proof fn lemma_insert_all_ids(tokens: Seq<TokenView>, batch: Seq<TroutTokenView>, id: TroutId)
    requires
        sorted(tokens),
        insert_all(tokens, batch) is Some,
    ensures
        sorted(insert_all(tokens, batch)->Some_0),
        has_token(insert_all(tokens, batch)->Some_0, id) <==> has_token(tokens, id) || exists|
            k: int,
        |
            0 <= k < batch.len() && (#[trigger] batch[k]).meta.properties.self_id == id,
    decreases batch.len(),
{
    if batch.len() > 0 {
        let rest = batch.drop_last();
        let before = insert_all(tokens, rest)->Some_0;
        lemma_insert_all_ids(tokens, rest, id);
        lemma_insert_one_ids(before, batch.last(), id);
        lemma_insert_one_sorted(before, batch.last());
        if exists|k: int|
            0 <= k < rest.len() && (#[trigger] rest[k]).meta.properties.self_id == id {
            let k = choose|k: int|
                0 <= k < rest.len() && (#[trigger] rest[k]).meta.properties.self_id == id;
            assert(batch[k].meta.properties.self_id == id);
        }
        if exists|k: int|
            0 <= k < batch.len() && (#[trigger] batch[k]).meta.properties.self_id == id {
            let k = choose|k: int|
                0 <= k < batch.len() && (#[trigger] batch[k]).meta.properties.self_id == id;
            if k < rest.len() {
                assert(rest[k].meta.properties.self_id == id);
            } else {
                assert(batch.last() == batch[k]);
            }
        }
        if batch.last().meta.properties.self_id == id {
            assert(batch[batch.len() - 1].meta.properties.self_id == id);
        }
    }
}

/// Indexing a token keeps the table sorted.
pub proof fn lemma_insert_one_sorted(tokens: Seq<TokenView>, token: TroutTokenView)
    requires
        sorted(tokens),
        insert_one(tokens, token) is Some,
    ensures
        sorted(insert_one(tokens, token)->Some_0),
{
    let id = token.meta.properties.self_id;
    let after = insert_one(tokens, token)->Some_0;
    lemma_slot_bounds(tokens, id);
    match find(tokens, id) {
        Some(at) => {
            assert forall|i: int, j: int| 0 <= i < j < after.len() implies precedes(
                #[trigger] after[i].id,
                #[trigger] after[j].id,
            ) by {
                assert(precedes(tokens[i].id, tokens[j].id));
            }
        },
        None => {
            lemma_insert_sorted(
                tokens,
                indexed_row(
                    pending_token(id, token.owner),
                    token,
                ),
            );
        },
    }
}

/// Once a pass has indexed the tokens up to the total supply, the
/// greatest known number is the total supply: this holds where no token
/// of the chain, known before or indexed now, lies above `supply`, and
/// the token numbered `supply` is known or among those indexed.
pub proof fn lemma_latest_is_supply(
    tokens: Seq<TokenView>,
    batch: Seq<TroutTokenView>,
    chain: ChainId,
    supply: TokenId,
)
    requires
        sorted(tokens),
        insert_all(tokens, batch) is Some,
        forall|i: int|
            0 <= i < tokens.len() && (#[trigger] tokens[i]).id.chain_id == chain
                ==> tokens[i].id.token_id <= supply,
        forall|k: int|
            0 <= k < batch.len() && (#[trigger] batch[k]).meta.properties.self_id.chain_id == chain
                ==> batch[k].meta.properties.self_id.token_id <= supply,
        has_token(tokens, trout(chain, supply)) || exists|k: int|
            0 <= k < batch.len() && (#[trigger] batch[k]).meta.properties.self_id == trout(
                chain,
                supply,
            ),
    ensures
        is_latest(insert_all(tokens, batch)->Some_0, chain, supply),
{
    let after = insert_all(tokens, batch)->Some_0;
    lemma_insert_all_ids(tokens, batch, trout(chain, supply));
    assert(has_token(after, trout(chain, supply)));
    assert forall|i: int|
        0 <= i < after.len() && (#[trigger] after[i]).id.chain_id == chain implies after[i].id.token_id
        <= supply by {
        let id = after[i].id;
        lemma_insert_all_ids(tokens, batch, id);
        assert(has_token(after, id));
        if has_token(tokens, id) {
            let j = choose|j: int| 0 <= j < tokens.len() && (#[trigger] tokens[j]).id == id;
            assert(tokens[j].id.token_id <= supply);
        } else {
            let k = choose|k: int|
                0 <= k < batch.len() && (#[trigger] batch[k]).meta.properties.self_id == id;
            assert(batch[k].meta.properties.self_id.token_id <= supply);
        }
    }
}

} // verus!
