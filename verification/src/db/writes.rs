//! What changes the store.

use vstd::prelude::*;

use crate::db::{
    batch_views, coi_update_views, copy_tokens, generation_views, str_views, token_views,
    Connection, DriverError, Error, Generation, Metadata, Token, Transaction,
};
use crate::db::model::{
    advanced, cois_set, failed_in, fees_updated, generations_of, has_event, highest_block,
    indexed_row, insert_all, lemma_insert_all_fails, lemma_insert_one_valid, lemma_insert_sorted,
    lemma_pin_failed_valid, lemma_pinned_valid, metadata_of, migrated, owners_updated,
    pending_inserted, pending_token, pin_failed_all, pinned_all, pinned_in, recorded, same_event,
    with_name, with_pin_failed, with_pinned, GenerationView, MetadataView, StoreView, TokenView,
    PIN_FAIL_CEILING,
};
use crate::eth::{Address, U256};
use crate::ipfs::Cid;
use crate::nftrout::{
    cid_views, ChainId, Coi, Event, PendingToken, TokenEvent, TokenId, TroutId, TroutToken,
    TroutTokenView,
};

verus! {

impl Transaction {
    /// Appends the token events of `events` to the log, skipping each that
    /// is there already, and moves the watermark of `chain` up to the
    /// highest block that `events` marks as processed.
    pub fn record_events(&mut self, chain: ChainId, events: &Vec<Event>) -> (res: Result<
        (),
        Error,
    >)
        requires
            old(self).wf(),
        ensures
            res is Ok,
            final(self).wf(),
            final(self)@ == (StoreView {
                events: recorded(old(self)@.events, events@),
                progress: advanced(old(self)@.progress, chain, events@),
                ..old(self)@
            }),
    {
        broadcast use vstd::std_specs::hash::group_hash_axioms;

        let mut highest: Option<u64> = None;
        let mut i: usize = 0;
        assert(events@.take(0) =~= Seq::<Event>::empty());
        while i < events.len()
            invariant
                i <= events@.len(),
                self.wf(),
                self@ == (StoreView {
                    events: recorded(old(self)@.events, events@.take(i as int)),
                    ..old(self)@
                }),
                highest == highest_block(events@.take(i as int)),
            decreases events@.len() - i,
        {
            assert(events@.take(i as int + 1).drop_last() =~= events@.take(i as int));
            match events[i] {
                Event::Token(e) => {
                    if !self.0.has_event(&e) {
                        self.0.events.push(e);
                    }
                },
                Event::ProcessedBlock(block) => {
                    highest = match highest {
                        Some(h) => if h >= block {
                            Some(h)
                        } else {
                            Some(block)
                        },
                        None => Some(block),
                    };
                },
            }
            i += 1;
        }
        assert(events@.take(i as int) =~= events@);
        if let Some(block) = highest {
            let current: u64 = match self.0.progress.get(&chain) {
                Some(b) => *b,
                None => 0,
            };
            if block > current {
                self.0.progress.insert(chain, block);
            }
        }
        Ok(())
    }

    /// Brings the schema up to date: applies, in order, the scripts of
    /// `migrations` that the store has not seen, and answers with the
    /// version it had before. The store may not be newer than `migrations`.
    pub fn migrate(&mut self, migrations: &Vec<&'static str>) -> (res: Result<usize, Error>)
        requires
            old(self).wf(),
            old(self)@.user_version <= migrations@.len(),
        ensures
            final(self).wf(),
            res == Ok::<usize, Error>(old(self)@.user_version as usize),
            final(self)@ == migrated(old(self)@, str_views(migrations@)),
    {
        let version: usize = self.0.user_version;
        if version >= migrations.len() {
            return Ok(version);
        }
        let ghost scripts = str_views(migrations@);
        let mut i: usize = version;
        assert(scripts.skip(version as int).take(0) =~= Seq::<Seq<char>>::empty());
        assert(self@.schema =~= old(self)@.schema + scripts.skip(version as int).take(0));
        while i < migrations.len()
            invariant
                version <= i <= migrations@.len(),
                scripts == str_views(migrations@),
                self.wf(),
                self@ == (StoreView {
                    schema: old(self)@.schema + scripts.skip(version as int).take(i - version),
                    ..old(self)@
                }),
            decreases migrations@.len() - i,
        {
            let ghost before = self@.schema;
            self.0.schema.push(String::from_str(migrations[i]));
            assert(self@.schema =~= before.push(scripts[i as int]));
            assert(scripts.skip(version as int).take(i + 1 - version) =~= scripts.skip(
                version as int,
            ).take(i - version).push(scripts[i as int]));
            i += 1;
        }
        assert(scripts.skip(version as int).take(i - version) =~= scripts.skip(version as int));
        self.0.user_version = migrations.len();
        Ok(version)
    }
}

impl Connection {
    /// Whether an event with the key of `e` is in the log.
    fn has_event(&self, e: &TokenEvent) -> (res: bool)
        ensures
            res == has_event(self@.events, *e),
    {
        let mut i: usize = 0;
        while i < self.events.len()
            invariant
                i <= self.events@.len(),
                forall|j: int| 0 <= j < i ==> !same_event(#[trigger] self.events@[j], *e),
            decreases self.events@.len() - i,
        {
            let f = &self.events[i];
            if f.token == e.token && f.block == e.block && f.log_index == e.log_index {
                return true;
            }
            i += 1;
        }
        false
    }

    /// Sets the owner of each listed token of `chain` that is known; the
    /// last entry for a token wins.
    pub fn update_owners(&mut self, chain: ChainId, token_owners: &Vec<(TokenId, Address)>) -> (res:
        Result<(), Error>)
        requires
            old(self).wf(),
        ensures
            res is Ok,
            final(self).wf(),
            final(self)@ == (StoreView {
                tokens: owners_updated(old(self)@.tokens, chain, token_owners@),
                ..old(self)@
            }),
    {
        let mut i: usize = 0;
        assert(token_owners@.take(0) =~= Seq::<(TokenId, Address)>::empty());
        while i < token_owners.len()
            invariant
                i <= token_owners@.len(),
                self.wf(),
                self@ == (StoreView {
                    tokens: owners_updated(old(self)@.tokens, chain, token_owners@.take(i as int)),
                    ..old(self)@
                }),
            decreases token_owners@.len() - i,
        {
            assert(token_owners@.take(i as int + 1).drop_last() =~= token_owners@.take(i as int));
            let (number, owner) = token_owners[i];
            let id = TroutId { chain_id: chain, token_id: number };
            let (at, found) = self.locate(id);
            if found {
                let ghost before = self@.tokens;
                self.tokens[at].owner = owner;
                assert(self@.tokens =~= before.update(
                    at as int,
                    TokenView { owner: owner, ..before[at as int] },
                ));
            }
            i += 1;
        }
        assert(token_owners@.take(i as int) =~= token_owners@);
        Ok(())
    }

    /// Sets the listing fee of each listed token of `chain` that has been
    /// indexed; the last entry for a token wins.
    pub fn update_fees(&mut self, chain_id: ChainId, tokens: &Vec<(TokenId, Option<U256>)>) -> (res:
        Result<(), Error>)
        requires
            old(self).wf(),
        ensures
            res is Ok,
            final(self).wf(),
            final(self)@ == (StoreView {
                tokens: fees_updated(old(self)@.tokens, chain_id, tokens@),
                ..old(self)@
            }),
    {
        let mut i: usize = 0;
        assert(tokens@.take(0) =~= Seq::<(TokenId, Option<U256>)>::empty());
        while i < tokens.len()
            invariant
                i <= tokens@.len(),
                self.wf(),
                self@ == (StoreView {
                    tokens: fees_updated(old(self)@.tokens, chain_id, tokens@.take(i as int)),
                    ..old(self)@
                }),
            decreases tokens@.len() - i,
        {
            assert(tokens@.take(i as int + 1).drop_last() =~= tokens@.take(i as int));
            let (number, fee) = tokens[i];
            let id = TroutId { chain_id: chain_id, token_id: number };
            let (at, found) = self.locate(id);
            if found {
                let ghost before = self@.tokens;
                match &mut self.tokens[at].metadata {
                    Some(m) => {
                        m.fee = fee;
                    },
                    None => {},
                }
                proof {
                    match before[at as int].metadata {
                        Some(m) => {
                            assert(self@.tokens =~= before.update(
                                at as int,
                                TokenView {
                                    metadata: Some(MetadataView { fee: fee, ..m }),
                                    ..before[at as int]
                                },
                            ));
                        },
                        None => {
                            assert(self@.tokens =~= before);
                        },
                    }
                }
            }
            i += 1;
        }
        assert(tokens@.take(i as int) =~= tokens@);
        Ok(())
    }

    /// Makes each spawned token of `chain_id` known with its owner, unless
    /// it is known already: then it stays as it is.
    pub fn insert_pending_tokens(
        &mut self,
        chain_id: ChainId,
        pending_tokens: &Vec<(TokenId, PendingToken)>,
    ) -> (res: Result<(), Error>)
        requires
            old(self).wf(),
        ensures
            res is Ok,
            final(self).wf(),
            final(self)@ == (StoreView {
                tokens: pending_inserted(old(self)@.tokens, chain_id, pending_tokens@),
                ..old(self)@
            }),
    {
        let mut i: usize = 0;
        assert(pending_tokens@.take(0) =~= Seq::<(TokenId, PendingToken)>::empty());
        while i < pending_tokens.len()
            invariant
                i <= pending_tokens@.len(),
                self.wf(),
                self@ == (StoreView {
                    tokens: pending_inserted(
                        old(self)@.tokens,
                        chain_id,
                        pending_tokens@.take(i as int),
                    ),
                    ..old(self)@
                }),
            decreases pending_tokens@.len() - i,
        {
            assert(pending_tokens@.take(i as int + 1).drop_last() =~= pending_tokens@.take(
                i as int,
            ));
            let (number, token) = pending_tokens[i];
            let id = TroutId { chain_id: chain_id, token_id: number };
            let (at, found) = self.locate(id);
            if !found {
                let ghost before = self@.tokens;
                let row = Token {
                    id: id,
                    owner: token.owner,
                    metadata: None,
                    coi: Coi::Unknown,
                    generations: Vec::new(),
                };
                assert(row@ =~= pending_token(id, token.owner)) by {
                    assert(row@.generations =~= Seq::<GenerationView>::empty());
                }
                self.tokens.insert(at, row);
                proof {
                    assert(self@.tokens =~= before.insert(
                        at as int,
                        pending_token(id, token.owner),
                    ));
                    lemma_insert_sorted(before, pending_token(id, token.owner));
                }
            }
            i += 1;
        }
        assert(pending_tokens@.take(i as int) =~= pending_tokens@);
        Ok(())
    }

    /// Renames the token `id` if it has been indexed.
    pub fn set_token_name(&mut self, id: TroutId, name: &str) -> (res: Result<(), Error>)
        requires
            old(self).wf(),
        ensures
            res is Ok,
            final(self).wf(),
            final(self)@ == (StoreView {
                tokens: with_name(old(self)@.tokens, id, name@),
                ..old(self)@
            }),
    {
        let (at, found) = self.locate(id);
        if found {
            let ghost before = self@.tokens;
            match &mut self.tokens[at].metadata {
                Some(m) => {
                    m.name = String::from_str(name);
                },
                None => {},
            }
            proof {
                match before[at as int].metadata {
                    Some(m) => {
                        assert(self@.tokens =~= before.update(
                            at as int,
                            TokenView {
                                metadata: Some(MetadataView { name: name@, ..m }),
                                ..before[at as int]
                            },
                        ));
                    },
                    None => {
                        assert(self@.tokens =~= before);
                    },
                }
            }
        }
        Ok(())
    }

    /// Stores the coefficient of each listed token that has been indexed;
    /// the last entry for a token wins.
    pub fn set_cois(&mut self, cois: &Vec<(TroutId, Coi)>) -> (res: Result<(), Error>)
        requires
            old(self).wf(),
        ensures
            res is Ok,
            final(self).wf(),
            final(self)@ == (StoreView {
                tokens: cois_set(old(self)@.tokens, coi_update_views(cois@)),
                ..old(self)@
            }),
    {
        let ghost updates = coi_update_views(cois@);
        let mut i: usize = 0;
        assert(updates.take(0) =~= Seq::<(TroutId, Option<Seq<u128>>)>::empty());
        while i < cois.len()
            invariant
                i <= cois@.len(),
                updates == coi_update_views(cois@),
                self.wf(),
                self@ == (StoreView {
                    tokens: cois_set(old(self)@.tokens, updates.take(i as int)),
                    ..old(self)@
                }),
            decreases cois@.len() - i,
        {
            assert(updates.take(i as int + 1).drop_last() =~= updates.take(i as int));
            let id = cois[i].0;
            let (at, found) = self.locate(id);
            if found && self.tokens[at].metadata.is_some() {
                let ghost before = self@.tokens;
                self.tokens[at].coi = cois[i].1.clone();
                assert(self@.tokens =~= before.update(
                    at as int,
                    TokenView { coi: cois@[i as int].1@, ..before[at as int] },
                ));
            }
            i += 1;
        }
        assert(updates.take(i as int) =~= updates);
        Ok(())
    }

    /// Marks every generation that holds one of `cids` as pinned.
    pub fn mark_pinned(&mut self, cids: &Vec<Cid>) -> (res: Result<(), Error>)
        requires
            old(self).wf(),
        ensures
            res is Ok,
            final(self).wf(),
            final(self)@ == (StoreView {
                tokens: pinned_all(old(self)@.tokens, cid_views(cids@)),
                ..old(self)@
            }),
    {
        let ghost wanted = cid_views(cids@);
        let mut k: usize = 0;
        assert(wanted.take(0) =~= Seq::<Seq<char>>::empty());
        while k < cids.len()
            invariant
                k <= cids@.len(),
                wanted == cid_views(cids@),
                self.wf(),
                self@ == (StoreView {
                    tokens: pinned_all(old(self)@.tokens, wanted.take(k as int)),
                    ..old(self)@
                }),
            decreases cids@.len() - k,
        {
            assert(wanted.take(k as int + 1).drop_last() =~= wanted.take(k as int));
            let cid = &cids[k];
            let ghost before = self@;
            let mut i: usize = 0;
            while i < self.tokens.len()
                invariant
                    i <= self.tokens@.len(),
                    self.tokens@.len() == before.tokens.len(),
                    self@ == (StoreView { tokens: self@.tokens, ..before }),
                    forall|a: int|
                        0 <= a < i ==> (#[trigger] self@.tokens[a]) == with_pinned(
                            before.tokens,
                            cid@,
                        )[a],
                    forall|a: int|
                        i <= a < self.tokens@.len() ==> (#[trigger] self@.tokens[a])
                            == before.tokens[a],
                decreases self.tokens@.len() - i,
            {
                let ghost rows = self@.tokens;
                let ghost raw = self.tokens@;
                pin_generations(&mut self.tokens[i].generations, cid);
                proof {
                    assert(rows[i as int] == before.tokens[i as int]);
                    assert(rows[i as int] == raw[i as int]@);
                    assert(self@.tokens[i as int] == self.tokens@[i as int]@);
                    assert(self@.tokens[i as int].generations == pinned_in(
                        rows[i as int].generations,
                        cid@,
                    ));
                    assert(self.tokens@.len() == raw.len());
                    assert(forall|a: int|
                        0 <= a < raw.len() && a != i ==> (#[trigger] self.tokens@[a]) == raw[a]);
                    assert(self.tokens@[i as int].id == raw[i as int].id);
                    assert(self.tokens@[i as int].owner == raw[i as int].owner);
                    assert(self.tokens@[i as int].metadata == raw[i as int].metadata);
                    assert(self.tokens@[i as int].coi == raw[i as int].coi);
                    assert(forall|a: int|
                        0 <= a < rows.len() && a != i ==> (#[trigger] self@.tokens[a]) == rows[a]);
                }
                i += 1;
            }
            proof {
                assert(self@.tokens =~= with_pinned(before.tokens, cid@));
                lemma_pinned_valid(before, cid@);
            }
            k += 1;
        }
        assert(wanted.take(k as int) =~= wanted);
        Ok(())
    }

    /// Counts one more failed attempt, up to the ceiling, for every
    /// generation that holds one of `cids`.
    pub fn mark_pin_failed(&mut self, cids: &Vec<Cid>) -> (res: Result<(), Error>)
        requires
            old(self).wf(),
        ensures
            res is Ok,
            final(self).wf(),
            final(self)@ == (StoreView {
                tokens: pin_failed_all(old(self)@.tokens, cid_views(cids@)),
                ..old(self)@
            }),
    {
        let ghost wanted = cid_views(cids@);
        let mut k: usize = 0;
        assert(wanted.take(0) =~= Seq::<Seq<char>>::empty());
        while k < cids.len()
            invariant
                k <= cids@.len(),
                wanted == cid_views(cids@),
                self.wf(),
                self@ == (StoreView {
                    tokens: pin_failed_all(old(self)@.tokens, wanted.take(k as int)),
                    ..old(self)@
                }),
            decreases cids@.len() - k,
        {
            assert(wanted.take(k as int + 1).drop_last() =~= wanted.take(k as int));
            let cid = &cids[k];
            let ghost before = self@;
            let mut i: usize = 0;
            while i < self.tokens.len()
                invariant
                    i <= self.tokens@.len(),
                    self.tokens@.len() == before.tokens.len(),
                    self@ == (StoreView { tokens: self@.tokens, ..before }),
                    forall|a: int|
                        0 <= a < i ==> (#[trigger] self@.tokens[a]) == with_pin_failed(
                            before.tokens,
                            cid@,
                        )[a],
                    forall|a: int|
                        i <= a < self.tokens@.len() ==> (#[trigger] self@.tokens[a])
                            == before.tokens[a],
                decreases self.tokens@.len() - i,
            {
                let ghost rows = self@.tokens;
                let ghost raw = self.tokens@;
                fail_generations(&mut self.tokens[i].generations, cid);
                proof {
                    assert(rows[i as int] == before.tokens[i as int]);
                    assert(rows[i as int] == raw[i as int]@);
                    assert(self@.tokens[i as int] == self.tokens@[i as int]@);
                    assert(self@.tokens[i as int].generations == failed_in(
                        rows[i as int].generations,
                        cid@,
                    ));
                    assert(self.tokens@.len() == raw.len());
                    assert(forall|a: int|
                        0 <= a < raw.len() && a != i ==> (#[trigger] self.tokens@[a]) == raw[a]);
                    assert(self.tokens@[i as int].id == raw[i as int].id);
                    assert(self.tokens@[i as int].owner == raw[i as int].owner);
                    assert(self.tokens@[i as int].metadata == raw[i as int].metadata);
                    assert(self.tokens@[i as int].coi == raw[i as int].coi);
                    assert(forall|a: int|
                        0 <= a < rows.len() && a != i ==> (#[trigger] self@.tokens[a]) == rows[a]);
                }
                i += 1;
            }
            proof {
                assert(self@.tokens =~= with_pin_failed(before.tokens, cid@));
                lemma_pin_failed_valid(before, cid@);
            }
            k += 1;
        }
        assert(wanted.take(k as int) =~= wanted);
        Ok(())
    }
}

fn pin_generations(generations: &mut Vec<Generation>, cid: &Cid)
    ensures
        generation_views(final(generations)@) == pinned_in(
            generation_views(old(generations)@),
            cid@,
        ),
{
    let ghost before = generation_views(generations@);
    let mut j: usize = 0;
    while j < generations.len()
        invariant
            j <= generations@.len(),
            generations@.len() == before.len(),
            forall|b: int| 0 <= b < j ==> (#[trigger] generations@[b])@ == pinned_in(before, cid@)[b],
            forall|b: int| j <= b < before.len() ==> (#[trigger] generations@[b])@ == before[b],
        decreases generations@.len() - j,
    {
        if generations[j].cid.same(cid) {
            generations[j].pinned = true;
        }
        j += 1;
    }
    assert(generation_views(generations@) =~= pinned_in(before, cid@));
}

fn fail_generations(generations: &mut Vec<Generation>, cid: &Cid)
    ensures
        generation_views(final(generations)@) == failed_in(
            generation_views(old(generations)@),
            cid@,
        ),
{
    let ghost before = generation_views(generations@);
    let mut j: usize = 0;
    while j < generations.len()
        invariant
            j <= generations@.len(),
            generations@.len() == before.len(),
            forall|b: int| 0 <= b < j ==> (#[trigger] generations@[b])@ == failed_in(before, cid@)[b],
            forall|b: int| j <= b < before.len() ==> (#[trigger] generations@[b])@ == before[b],
        decreases generations@.len() - j,
    {
        if generations[j].cid.same(cid) && generations[j].pin_fails < PIN_FAIL_CEILING {
            let fails: u32 = generations[j].pin_fails;
            generations[j].pin_fails = fails + 1;
        }
        j += 1;
    }
    assert(generation_views(generations@) =~= failed_in(before, cid@));
}

/// The generation rows of a freshly indexed token.
fn fresh_generations(token: &TroutToken) -> (res: Vec<Generation>)
    ensures
        generation_views(res@) == generations_of(token@),
        token@.meta.properties.generations.len() <= usize::MAX,
{
    let history = &token.meta.properties.generations;
    let mut res: Vec<Generation> = Vec::new();
    let mut j: usize = 0;
    while j < history.len()
        invariant
            j <= history@.len(),
            res@.len() == j,
            history@ == token.meta.properties.generations@,
            forall|b: int| 0 <= b < j ==> (#[trigger] res@[b])@ == generations_of(token@)[b],
        decreases history@.len() - j,
    {
        res.push(Generation { ord: j, cid: history[j].clone(), pinned: false, pin_fails: 0 });
        assert(token@.meta.properties.generations[j as int] == history@[j as int]@);
        j += 1;
    }
    res.push(Generation { ord: j, cid: token.cid.clone(), pinned: false, pin_fails: 0 });
    assert(token@.meta.properties.generations.len() == history@.len());
    assert(generation_views(res@) =~= generations_of(token@));
    res
}

/// The metadata row of a freshly indexed token.
fn fresh_metadata(token: &TroutToken) -> (res: Metadata)
    ensures
        res@ == metadata_of(token@),
{
    Metadata {
        version: token.meta.properties.version,
        name: token.meta.name.clone(),
        fee: token.fee,
        is_genesis: token.meta.properties.attributes.genesis,
        is_santa: token.meta.properties.attributes.santa,
        left_parent: token.meta.properties.left,
        right_parent: token.meta.properties.right,
    }
}

impl Connection {
    /// Stores each token of `tokens` as indexed: its row, unless it is
    /// known already, then its metadata, its coefficient and its
    /// generations. A token that has metadata already is a conflict: the
    /// call fails and nothing is changed.
    pub fn insert_tokens(&mut self, tokens: &Vec<TroutToken>) -> (res: Result<(), Error>)
        requires
            old(self).wf(),
        ensures
            final(self).wf(),
            match insert_all(old(self)@.tokens, batch_views(tokens@)) {
                Some(after) => res is Ok && final(self)@ == (StoreView {
                    tokens: after,
                    ..old(self)@
                }),
                None => res == Err::<(), Error>(Error::Driver(DriverError::ConstraintViolation))
                    && final(self)@ == old(self)@,
            },
    {
        let ghost batch = batch_views(tokens@);
        let saved = copy_tokens(&self.tokens);
        let mut i: usize = 0;
        assert(batch.take(0) =~= Seq::<TroutTokenView>::empty());
        while i < tokens.len()
            invariant
                i <= tokens@.len(),
                batch == batch_views(tokens@),
                token_views(saved@) == old(self)@.tokens,
                old(self).wf(),
                self.wf(),
                self@ == (StoreView { tokens: self@.tokens, ..old(self)@ }),
                insert_all(old(self)@.tokens, batch.take(i as int)) == Some(self@.tokens),
            decreases tokens@.len() - i,
        {
            assert(batch.take(i as int + 1).drop_last() =~= batch.take(i as int));
            let token = &tokens[i];
            let id = token.meta.properties.self_id;
            let ghost before = self@.tokens;
            let (at, found) = self.locate(id);
            if found {
                if self.tokens[at].metadata.is_some() {
                    proof {
                        lemma_insert_all_fails(old(self)@.tokens, batch, i as int + 1);
                    }
                    let ghost now = self@;
                    self.tokens = saved;
                    assert(self@.tokens == old(self)@.tokens);
                    assert(self@ == (StoreView { tokens: old(self)@.tokens, ..now }));
                    assert(self@ == old(self)@);
                    return Err(Error::Driver(DriverError::ConstraintViolation));
                }
                self.tokens[at].metadata = Some(fresh_metadata(token));
                self.tokens[at].coi = token.coi.clone();
                self.tokens[at].generations = fresh_generations(token);
                assert(self@.tokens =~= before.update(
                    at as int,
                    indexed_row(before[at as int], token@),
                ));
            } else {
                let row = Token {
                    id: id,
                    owner: token.owner,
                    metadata: Some(fresh_metadata(token)),
                    coi: token.coi.clone(),
                    generations: fresh_generations(token),
                };
                assert(row@ == indexed_row(pending_token(id, token.owner), token@));
                self.tokens.insert(at, row);
                assert(self@.tokens =~= before.insert(
                    at as int,
                    indexed_row(pending_token(id, token.owner), token@),
                ));
            }
            proof {
                lemma_insert_one_valid(before, token@);
            }
            i += 1;
        }
        assert(batch.take(i as int) =~= batch);
        Ok(())
    }
}

} // verus!
