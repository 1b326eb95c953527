//! What can be asked of the store.

use vstd::prelude::*;

use crate::db::{
    copy_events, copy_generations, copy_tokens, generation_views, token_views, ui_views,
    Connection, Error, Generation, Token,
};
use crate::db::model::{
    awaits_pin, chain_is_empty, chain_token_ids, cid_of, coi_backlog, find, identity_of, in_chain,
    is_latest, lacks_coi, lemma_select_all, lemma_select_next, lemma_select_none, listing,
    number_of, outdated_ids, outdated_in, shown_to, stored_cid, ui_row, ui_row_of, unpinned,
    unpinned_in, watermark, GenerationView, TokenView, PIN_FAIL_CEILING,
};
use crate::ipfs::Cid;
use crate::nftrout::{cid_views, ChainId, CURRENT_VERSION, TokenEvent, TokenForUi, TokenId, TroutId};

verus! {

impl Connection {
    /// The greatest token number known on `chain_id`, if any token is.
    pub fn latest_known_token_id(&self, chain_id: ChainId) -> (res: Result<Option<TokenId>, Error>)
        requires
            self.wf(),
        ensures
            res is Ok,
            match res->Ok_0 {
                Some(m) => is_latest(self@.tokens, chain_id, m),
                None => chain_is_empty(self@.tokens, chain_id),
            },
    {
        let mut latest: Option<TokenId> = None;
        let mut i: usize = 0;
        while i < self.tokens.len()
            invariant
                i <= self.tokens@.len(),
                match latest {
                    Some(m) => is_latest(self@.tokens.take(i as int), chain_id, m),
                    None => chain_is_empty(self@.tokens.take(i as int), chain_id),
                },
            decreases self.tokens@.len() - i,
        {
            let ghost before = self@.tokens.take(i as int);
            let ghost after = self@.tokens.take(i as int + 1);
            let id = self.tokens[i].id;
            proof {
                assert(after.drop_last() =~= before);
                assert(after.last() == self@.tokens[i as int]);
                assert(forall|j: int| 0 <= j < i ==> after[j] == before[j]);
            }
            if id.chain_id == chain_id {
                let larger = match latest {
                    Some(m) => id.token_id > m,
                    None => true,
                };
                if larger {
                    latest = Some(id.token_id);
                    assert(after[i as int].id == TroutId {
                        chain_id: chain_id,
                        token_id: id.token_id,
                    });
                } else {
                    let ghost m = latest->Some_0;
                    let ghost w = choose|w: int|
                        0 <= w < before.len() && (#[trigger] before[w]).id == (TroutId {
                            chain_id: chain_id,
                            token_id: m,
                        });
                    assert(after[w] == before[w]);
                }
            } else {
                proof {
                    if latest is Some {
                        let m = latest->Some_0;
                        let w = choose|w: int|
                            0 <= w < before.len() && (#[trigger] before[w]).id == (TroutId {
                                chain_id: chain_id,
                                token_id: m,
                            });
                        assert(after[w] == before[w]);
                    }
                }
            }
            i += 1;
        }
        assert(self@.tokens.take(i as int) =~= self@.tokens);
        Ok(latest)
    }

    /// The watermark of `chain_id`.
    pub fn latest_processed_block(&self, chain_id: ChainId) -> (res: Result<u64, Error>)
        ensures
            res == Ok::<u64, Error>(watermark(self@.progress, chain_id)),
    {
        broadcast use vstd::std_specs::hash::group_hash_axioms;

        match self.progress.get(&chain_id) {
            Some(block) => Ok(*block),
            None => Ok(0),
        }
    }

    /// The numbers of the tokens of `chain_id`, ascending.
    pub fn token_ids(&self, chain_id: ChainId) -> (res: Result<Vec<TokenId>, Error>)
        ensures
            res is Ok,
            res->Ok_0@ == chain_token_ids(self@.tokens, chain_id),
    {
        let ghost views = self@.tokens;
        let mut ids: Vec<TokenId> = Vec::new();
        let mut i: usize = 0;
        proof {
            lemma_select_none(views, in_chain(chain_id), number_of());
        }
        while i < self.tokens.len()
            invariant
                i <= self.tokens@.len(),
                views == self@.tokens,
                ids@ == chain_token_ids(views.take(i as int), chain_id),
            decreases self.tokens@.len() - i,
        {
            proof {
                lemma_select_next(views, i as int, in_chain(chain_id), number_of());
            }
            let id = self.tokens[i].id;
            if id.chain_id == chain_id {
                ids.push(id.token_id);
            }
            i += 1;
        }
        assert(views.take(i as int) =~= views);
        Ok(ids)
    }

    /// The numbers of the tokens of `chain_id` that are pending or were
    /// indexed at an older metadata version.
    pub fn outdated_token_ids(&self, chain_id: ChainId) -> (res: Result<Vec<TokenId>, Error>)
        ensures
            res is Ok,
            res->Ok_0@ == outdated_ids(self@.tokens, chain_id),
    {
        let ghost views = self@.tokens;
        let mut ids: Vec<TokenId> = Vec::new();
        let mut i: usize = 0;
        proof {
            lemma_select_none(views, outdated_in(chain_id), number_of());
        }
        while i < self.tokens.len()
            invariant
                i <= self.tokens@.len(),
                views == self@.tokens,
                ids@ == outdated_ids(views.take(i as int), chain_id),
            decreases self.tokens@.len() - i,
        {
            proof {
                lemma_select_next(views, i as int, outdated_in(chain_id), number_of());
            }
            let token = &self.tokens[i];
            let outdated = match &token.metadata {
                Some(m) => m.version < CURRENT_VERSION,
                None => true,
            };
            if token.id.chain_id == chain_id && outdated {
                ids.push(token.id.token_id);
            }
            i += 1;
        }
        assert(views.take(i as int) =~= views);
        Ok(ids)
    }

    /// The tokens that have been indexed but not yet analysed.
    pub fn needs_coi_analysis(&self) -> (res: Result<Vec<TroutId>, Error>)
        ensures
            res is Ok,
            res->Ok_0@ == coi_backlog(self@.tokens),
    {
        let ghost views = self@.tokens;
        let mut ids: Vec<TroutId> = Vec::new();
        let mut i: usize = 0;
        proof {
            lemma_select_none(views, lacks_coi(), identity_of());
        }
        while i < self.tokens.len()
            invariant
                i <= self.tokens@.len(),
                views == self@.tokens,
                ids@ == coi_backlog(views.take(i as int)),
            decreases self.tokens@.len() - i,
        {
            proof {
                lemma_select_next(views, i as int, lacks_coi(), identity_of());
            }
            let token = &self.tokens[i];
            if token.metadata.is_some() && token.coi.is_unknown() {
                ids.push(token.id);
            }
            i += 1;
        }
        assert(views.take(i as int) =~= views);
        Ok(ids)
    }

    /// The content identifiers that are neither pinned nor shelved.
    pub fn unpinned_cids(&self) -> (res: Result<Vec<Cid>, Error>)
        ensures
            res is Ok,
            cid_views(res->Ok_0@) == unpinned(self@.tokens),
    {
        let ghost views = self@.tokens;
        let mut cids: Vec<Cid> = Vec::new();
        let mut i: usize = 0;
        assert(views.take(0) =~= Seq::<TokenView>::empty());
        assert(cid_views(cids@) =~= unpinned(views.take(0)));
        while i < self.tokens.len()
            invariant
                i <= self.tokens@.len(),
                views == self@.tokens,
                cid_views(cids@) == unpinned(views.take(i as int)),
            decreases self.tokens@.len() - i,
        {
            let generations = &self.tokens[i].generations;
            let ghost gens = views[i as int].generations;
            let ghost done = unpinned(views.take(i as int));
            let mut j: usize = 0;
            proof {
                lemma_select_none(gens, awaits_pin(), cid_of());
                assert(cid_views(cids@) =~= done + unpinned_in(gens.take(0)));
            }
            while j < generations.len()
                invariant
                    j <= generations@.len(),
                    gens == generation_views(generations@),
                    cid_views(cids@) == done + unpinned_in(gens.take(j as int)),
                decreases generations@.len() - j,
            {
                proof {
                    lemma_select_next(gens, j as int, awaits_pin(), cid_of());
                }
                let g = &generations[j];
                if !g.pinned && g.pin_fails < PIN_FAIL_CEILING {
                    let ghost before = cids@;
                    cids.push(g.cid.clone());
                    assert(cid_views(cids@) =~= cid_views(before).push(g.cid@));
                    assert(cid_views(cids@) =~= done + unpinned_in(gens.take(j as int + 1)));
                }
                j += 1;
            }
            assert(gens.take(j as int) =~= gens);
            assert(views.take(i as int + 1).drop_last() =~= views.take(i as int));
            i += 1;
        }
        assert(views.take(i as int) =~= views);
        Ok(cids)
    }

    /// The content identifier of generation `ord` of the token `id`, or of
    /// its newest generation when `ord` is left open.
    pub fn token_cid(&self, id: &TroutId, ord: Option<u32>) -> (res: Result<Option<Cid>, Error>)
        requires
            self.wf(),
        ensures
            res is Ok,
            match res->Ok_0 {
                Some(cid) => stored_cid(self@.tokens, *id, ord) == Some(cid@),
                None => stored_cid(self@.tokens, *id, ord) is None,
            },
    {
        let (at, found) = self.locate(*id);
        if !found {
            return Ok(None);
        }
        let generations = &self.tokens[at].generations;
        let n: usize = generations.len();
        match ord {
            Some(k) => {
                if (k as usize) < n {
                    Ok(Some(generations[k as usize].cid.clone()))
                } else {
                    Ok(None)
                }
            },
            None => {
                if n > 0 {
                    Ok(Some(generations[n - 1].cid.clone()))
                } else {
                    Ok(None)
                }
            },
        }
    }

    /// The tokens of `chain_id`, or of every chain when it is left open,
    /// as the read interface shows them: one row for each token, ascending
    /// by token number, a token without metadata marked as pending.
    pub fn list_tokens_for_ui(&self, chain_id: Option<ChainId>) -> (res: Result<
        Vec<TokenForUi>,
        Error,
    >)
        ensures
            res is Ok,
            ui_views(res->Ok_0@) == listing(self@.tokens, chain_id),
    {
        let ghost views = self@.tokens;
        let mut rows: Vec<TokenForUi> = Vec::new();
        let mut i: usize = 0;
        proof {
            lemma_select_none(views, shown_to(chain_id), ui_row_of());
            assert(ui_views(rows@) =~= listing(views.take(0), chain_id));
        }
        while i < self.tokens.len()
            invariant
                i <= self.tokens@.len(),
                views == self@.tokens,
                ui_views(rows@) == listing(views.take(i as int), chain_id),
            decreases self.tokens@.len() - i,
        {
            proof {
                lemma_select_next(views, i as int, shown_to(chain_id), ui_row_of());
            }
            let token = &self.tokens[i];
            let shown = match chain_id {
                Some(c) => token.id.chain_id == c,
                None => true,
            };
            if shown {
                let row = match &token.metadata {
                    Some(m) => TokenForUi {
                        id: token.id.token_id,
                        owner: token.owner,
                        name: m.name.clone(),
                        coi: token.coi.clone(),
                        fee: m.fee,
                        parents: match (m.left_parent, m.right_parent) {
                            (Some(left), Some(right)) => Some((left, right)),
                            _ => None,
                        },
                        pending: false,
                    },
                    None => TokenForUi {
                        id: token.id.token_id,
                        owner: token.owner,
                        name: String::new(),
                        coi: token.coi.clone(),
                        fee: None,
                        parents: None,
                        pending: true,
                    },
                };
                assert(row@ == ui_row(views[i as int]));
                let ghost before = rows@;
                rows.push(row);
                assert(ui_views(rows@) =~= ui_views(before).push(ui_row(views[i as int])));
            }
            i += 1;
        }
        proof {
            lemma_select_all(views);
        }
        Ok(rows)
    }

    /// The tokens with everything that hangs on them, in their order.
    pub fn tokens(&self) -> (res: Vec<Token>)
        ensures
            token_views(res@) == self@.tokens,
    {
        copy_tokens(&self.tokens)
    }

    /// The generations of the token `id`, from the oldest to the current
    /// one; none where the token is not known.
    pub fn generations(&self, id: &TroutId) -> (res: Vec<Generation>)
        requires
            self.wf(),
        ensures
            generation_views(res@) == (match find(self@.tokens, *id) {
                Some(at) => self@.tokens[at].generations,
                None => Seq::empty(),
            }),
    {
        let (at, found) = self.locate(*id);
        if found {
            copy_generations(&self.tokens[at].generations)
        } else {
            let res: Vec<Generation> = Vec::new();
            assert(generation_views(res@) =~= Seq::<GenerationView>::empty());
            res
        }
    }

    /// The event log, in the order in which the events were recorded.
    pub fn events(&self) -> (res: Vec<TokenEvent>)
        ensures
            res@ == self@.events,
    {
        copy_events(&self.events)
    }

    /// The version of the schema.
    pub fn user_version(&self) -> (res: usize)
        ensures
            res == self@.user_version,
    {
        self.user_version
    }
}

} // verus!
