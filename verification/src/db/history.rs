//! The breeding history of a token, read from the event log.

use vstd::prelude::*;

use crate::db::{Connection, DriverError, Error};
use crate::db::model::{
    breed_row, breeding_rows, child_rows, complete, fee_before, first_matching, latest_matching,
    listings_before, owner_before, recipient, side_rows, spawns_of, transfers_before, unwrapped,
    TokenView,
};
use crate::eth::{Address, U256};
use crate::nftrout::{EventForUi, EventKindForUi, TokenEvent, TokenEventKind, TokenId, TroutId};

verus! {

/// Who received the token in an event.
fn recipient_of(kind: &TokenEventKind) -> (res: Option<Address>)
    ensures
        res == recipient(*kind),
{
    match kind {
        TokenEventKind::Spawned { to } => Some(*to),
        TokenEventKind::Transfer { from, to } => Some(*to),
        TokenEventKind::Relisted { fee } => None,
    }
}

impl Connection {
    /// The owner of `token` just before block `bound`.
    fn owner_before(&self, token: TokenId, bound: u64) -> (res: Option<Address>)
        ensures
            res == owner_before(self@.events, token, bound),
    {
        let ghost log = self@.events;
        let mut latest: Option<TokenEvent> = None;
        let mut first: Option<TokenEvent> = None;
        let mut i: usize = 0;
        assert(log.take(0) =~= Seq::<TokenEvent>::empty());
        while i < self.events.len()
            invariant
                i <= self.events@.len(),
                log == self.events@,
                latest == latest_matching(log.take(i as int), transfers_before(token, bound)),
                first == first_matching(log.take(i as int), spawns_of(token)),
            decreases self.events@.len() - i,
        {
            assert(log.take(i as int + 1).drop_last() =~= log.take(i as int));
            let e = self.events[i];
            if e.token == token {
                match e.kind {
                    TokenEventKind::Transfer { from, to } => {
                        let newer = match latest {
                            Some(b) => b.block <= e.block,
                            None => true,
                        };
                        if e.block < bound && newer {
                            latest = Some(e);
                        }
                    },
                    TokenEventKind::Spawned { to } => {
                        if first.is_none() {
                            first = Some(e);
                        }
                    },
                    TokenEventKind::Relisted { fee } => {},
                }
            }
            i += 1;
        }
        assert(log.take(i as int) =~= log);
        match latest {
            Some(e) => recipient_of(&e.kind),
            None => match first {
                Some(e) => recipient_of(&e.kind),
                None => None,
            },
        }
    }

    /// The listing fee of `token` just before block `bound`.
    fn fee_before(&self, token: TokenId, bound: u64) -> (res: U256)
        ensures
            res == fee_before(self@.events, token, bound),
    {
        let ghost log = self@.events;
        let mut latest: Option<TokenEvent> = None;
        let mut i: usize = 0;
        assert(log.take(0) =~= Seq::<TokenEvent>::empty());
        while i < self.events.len()
            invariant
                i <= self.events@.len(),
                log == self.events@,
                latest == latest_matching(log.take(i as int), listings_before(token, bound)),
            decreases self.events@.len() - i,
        {
            assert(log.take(i as int + 1).drop_last() =~= log.take(i as int));
            let e = self.events[i];
            if e.token == token && e.block < bound {
                match e.kind {
                    TokenEventKind::Relisted { fee } => {
                        let newer = match latest {
                            Some(b) => b.block <= e.block,
                            None => true,
                        };
                        if newer {
                            latest = Some(e);
                        }
                    },
                    _ => {},
                }
            }
            i += 1;
        }
        assert(log.take(i as int) =~= log);
        match latest {
            Some(e) => match e.kind {
                TokenEventKind::Relisted { fee: Some(fee) } => fee,
                _ => U256 { high: 0, low: 0 },
            },
            None => U256 { high: 0, low: 0 },
        }
    }

    /// The breeding that one spawn event of `child` records for `parent`.
    fn breed_row(
        &self,
        parent: TroutId,
        child: TroutId,
        coparent: Option<TroutId>,
        spawn: &TokenEvent,
    ) -> (res: Option<EventForUi>)
        ensures
            res == breed_row(self@.events, parent, child, coparent, *spawn),
    {
        let owner = self.owner_before(parent.token_id, spawn.block);
        let breeder = recipient_of(&spawn.kind);
        match (coparent, owner, breeder) {
            (Some(other), Some(owner), Some(breeder)) => {
                let price = if breeder == owner {
                    U256 { high: 0, low: 0 }
                } else {
                    self.fee_before(parent.token_id, spawn.block)
                };
                Some(
                    EventForUi {
                        id: parent,
                        block: spawn.block,
                        kind: EventKindForUi::Breed {
                            breeder: breeder,
                            child: child,
                            coparent: other,
                            price: price,
                            owner: owner,
                        },
                    },
                )
            },
            _ => None,
        }
    }

    /// Appends the breedings in which `parent` was the parent on one side.
    fn push_side_rows(&self, rows: &mut Vec<Option<EventForUi>>, parent: TroutId, right: bool)
        ensures
            final(rows)@ == old(rows)@ + side_rows(self@.events, self@.tokens, parent, right),
    {
        let ghost views = self@.tokens;
        let ghost log = self@.events;
        let mut i: usize = 0;
        proof {
            assert(views.take(0) =~= Seq::<TokenView>::empty());
            assert(rows@ =~= old(rows)@ + side_rows(log, views.take(0), parent, right));
        }
        while i < self.tokens.len()
            invariant
                i <= self.tokens@.len(),
                views == self@.tokens,
                log == self@.events,
                rows@ == old(rows)@ + side_rows(log, views.take(i as int), parent, right),
            decreases self.tokens@.len() - i,
        {
            assert(views.take(i as int + 1).drop_last() =~= views.take(i as int));
            let ghost done = rows@;
            let child = &self.tokens[i];
            let sides = match &child.metadata {
                Some(m) => Some(
                    if right {
                        (m.right_parent, m.left_parent)
                    } else {
                        (m.left_parent, m.right_parent)
                    },
                ),
                None => None,
            };
            let wanted = match sides {
                Some((Some(this), _)) => this == parent,
                _ => false,
            };
            if wanted {
                let coparent = match sides {
                    Some((_, other)) => other,
                    None => None,
                };
                let mut j: usize = 0;
                proof {
                    assert(log.take(0) =~= Seq::<TokenEvent>::empty());
                    assert(rows@ =~= done + child_rows(log, log.take(0), parent, child.id, coparent));
                }
                while j < self.events.len()
                    invariant
                        j <= self.events@.len(),
                        log == self@.events,
                        log == self.events@,
                        rows@ == done + child_rows(
                            log,
                            log.take(j as int),
                            parent,
                            child.id,
                            coparent,
                        ),
                    decreases self.events@.len() - j,
                {
                    assert(log.take(j as int + 1).drop_last() =~= log.take(j as int));
                    let e = &self.events[j];
                    let spawned = match e.kind {
                        TokenEventKind::Spawned { to } => true,
                        _ => false,
                    };
                    if e.token == child.id.token_id && spawned {
                        let row = self.breed_row(parent, child.id, coparent, e);
                        rows.push(row);
                        assert(rows@ =~= done + child_rows(
                            log,
                            log.take(j as int + 1),
                            parent,
                            child.id,
                            coparent,
                        ));
                    }
                    j += 1;
                }
                assert(log.take(j as int) =~= log);
                assert(rows@ =~= old(rows)@ + side_rows(
                    log,
                    views.take(i as int + 1),
                    parent,
                    right,
                ));
            }
            i += 1;
        }
        assert(views.take(i as int) =~= views);
    }

    /// The breedings of `token`, as the read interface shows them: one for
    /// each recorded spawn of each child of which `token` is a parent,
    /// first those where it is the right parent, then those where it is the
    /// left. The call fails where, for one of them, the other parent or the
    /// owner of `token` at that time is not known.
    pub fn token_events(&self, token: TroutId) -> (res: Result<Vec<EventForUi>, Error>)
        ensures
            complete(breeding_rows(self@, token)) ==> res is Ok && res->Ok_0@ == unwrapped(
                breeding_rows(self@, token),
            ),
            !complete(breeding_rows(self@, token)) ==> res == Err::<Vec<EventForUi>, Error>(
                Error::Driver(DriverError::MissingValue),
            ),
    {
        let mut rows: Vec<Option<EventForUi>> = Vec::new();
        self.push_side_rows(&mut rows, token, true);
        self.push_side_rows(&mut rows, token, false);
        assert(rows@ =~= breeding_rows(self@, token));
        let mut events: Vec<EventForUi> = Vec::new();
        let mut i: usize = 0;
        while i < rows.len()
            invariant
                i <= rows@.len(),
                events@.len() == i,
                rows@ == breeding_rows(self@, token),
                forall|k: int| 0 <= k < i ==> (#[trigger] rows@[k]) == Some(events@[k]),
            decreases rows@.len() - i,
        {
            match rows[i] {
                Some(event) => {
                    events.push(event);
                },
                None => {
                    return Err(Error::Driver(DriverError::MissingValue));
                },
            }
            i += 1;
        }
        assert(events@ =~= unwrapped(rows@));
        Ok(events)
    }
}

} // verus!
