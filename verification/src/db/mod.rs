//! The relational view of tokens, their metadata generations, the event
//! log and the per-chain watermark.
//!
//! The tables are reached through a [`Connection`]; a [`Transaction`] is a
//! working copy of them that reaches the store when it is committed. What
//! the tables mean is said in [`model`], what can be asked of them in
//! `reads` and `history`, what changes them in `writes`, and what holds
//! of them whatever is done in [`proofs`].

mod history;
pub mod model;
pub mod proofs;
mod reads;
mod writes;

use std::collections::HashMap;

use vstd::prelude::*;

use crate::db::model::{
    blank, events_unique, find, lemma_stepwise_sorted, migrated, precedes, same_event, slot,
    sorted, token_valid, valid, watermarks, GenerationView, MetadataView, StoreView, TokenView,
    PIN_FAIL_CEILING,
};
use crate::eth::{Address, U256};
use crate::ipfs::Cid;
use crate::nftrout::{
    ChainId, Coi, TokenEvent, TokenForUi, TokenForUiView, TroutId, TroutToken, TroutTokenView,
};

verus! {

/// One entry of a token's metadata history.
#[derive(Debug, PartialEq, Eq)]
pub struct Generation {
    pub ord: usize,
    pub cid: Cid,
    pub pinned: bool,
    pub pin_fails: u32,
}

impl View for Generation {
    type V = GenerationView;

    open spec fn view(&self) -> GenerationView {
        GenerationView {
            ord: self.ord,
            cid: self.cid@,
            pinned: self.pinned,
            pin_fails: self.pin_fails,
        }
    }
}

impl Clone for Generation {
    fn clone(&self) -> (res: Self)
        ensures
            res@ == self@,
    {
        Generation {
            ord: self.ord,
            cid: self.cid.clone(),
            pinned: self.pinned,
            pin_fails: self.pin_fails,
        }
    }
}

/// The views of a token's generations, in order.
pub open spec fn generation_views(generations: Seq<Generation>) -> Seq<GenerationView> {
    Seq::new(generations.len(), |i: int| generations[i]@)
}

fn copy_generations(generations: &Vec<Generation>) -> (res: Vec<Generation>)
    ensures
        generation_views(res@) == generation_views(generations@),
{
    let mut res: Vec<Generation> = Vec::new();
    let mut i: usize = 0;
    while i < generations.len()
        invariant
            i <= generations.len(),
            res@.len() == i,
            forall|j: int| 0 <= j < i ==> res@[j]@ == generations@[j]@,
        decreases generations.len() - i,
    {
        res.push(generations[i].clone());
        i += 1;
    }
    assert(generation_views(res@) =~= generation_views(generations@));
    res
}

/// What indexing stored of a token's metadata.
#[derive(Debug, PartialEq, Eq)]
pub struct Metadata {
    pub version: u32,
    pub name: String,
    pub fee: Option<U256>,
    pub is_genesis: bool,
    pub is_santa: bool,
    pub left_parent: Option<TroutId>,
    pub right_parent: Option<TroutId>,
}

impl View for Metadata {
    type V = MetadataView;

    open spec fn view(&self) -> MetadataView {
        MetadataView {
            version: self.version,
            name: self.name@,
            fee: self.fee,
            is_genesis: self.is_genesis,
            is_santa: self.is_santa,
            left_parent: self.left_parent,
            right_parent: self.right_parent,
        }
    }
}

impl Clone for Metadata {
    fn clone(&self) -> (res: Self)
        ensures
            res@ == self@,
    {
        Metadata {
            version: self.version,
            name: self.name.clone(),
            fee: self.fee,
            is_genesis: self.is_genesis,
            is_santa: self.is_santa,
            left_parent: self.left_parent,
            right_parent: self.right_parent,
        }
    }
}

/// The view of metadata that may be absent.
pub open spec fn metadata_view(metadata: Option<Metadata>) -> Option<MetadataView> {
    match metadata {
        Some(m) => Some(m@),
        None => None,
    }
}

/// A token with everything that hangs on it.
#[derive(Debug, PartialEq, Eq)]
pub struct Token {
    pub id: TroutId,
    pub owner: Address,
    pub metadata: Option<Metadata>,
    pub coi: Coi,
    pub generations: Vec<Generation>,
}

impl View for Token {
    type V = TokenView;

    open spec fn view(&self) -> TokenView {
        TokenView {
            id: self.id,
            owner: self.owner,
            metadata: metadata_view(self.metadata),
            coi: self.coi@,
            generations: generation_views(self.generations@),
        }
    }
}

impl Clone for Token {
    fn clone(&self) -> (res: Self)
        ensures
            res@ == self@,
    {
        let metadata = match &self.metadata {
            Some(m) => Some(m.clone()),
            None => None,
        };
        Token {
            id: self.id,
            owner: self.owner,
            metadata,
            coi: self.coi.clone(),
            generations: copy_generations(&self.generations),
        }
    }
}

/// The views of the tokens, in order.
pub open spec fn token_views(tokens: Seq<Token>) -> Seq<TokenView> {
    Seq::new(tokens.len(), |i: int| tokens[i]@)
}

fn copy_tokens(tokens: &Vec<Token>) -> (res: Vec<Token>)
    ensures
        token_views(res@) == token_views(tokens@),
{
    let mut res: Vec<Token> = Vec::new();
    let mut i: usize = 0;
    while i < tokens.len()
        invariant
            i <= tokens.len(),
            res@.len() == i,
            forall|j: int| 0 <= j < i ==> res@[j]@ == tokens@[j]@,
        decreases tokens.len() - i,
    {
        res.push(tokens[i].clone());
        i += 1;
    }
    assert(token_views(res@) =~= token_views(tokens@));
    res
}

/// The views of a batch of indexed tokens, in order.
pub open spec fn batch_views(batch: Seq<TroutToken>) -> Seq<TroutTokenView> {
    Seq::new(batch.len(), |i: int| batch[i]@)
}

/// The views of listed tokens, in order.
pub open spec fn ui_views(rows: Seq<TokenForUi>) -> Seq<TokenForUiView> {
    Seq::new(rows.len(), |i: int| rows[i]@)
}

/// The views of coefficient updates, in order.
pub open spec fn coi_update_views(cois: Seq<(TroutId, Coi)>) -> Seq<(TroutId, Option<Seq<u128>>)> {
    Seq::new(cois.len(), |i: int| (cois[i].0, cois[i].1@))
}

/// The views of the schema scripts, in order.
pub open spec fn script_views(scripts: Seq<String>) -> Seq<Seq<char>> {
    Seq::new(scripts.len(), |i: int| scripts[i]@)
}

/// The views of schema scripts given as string slices, in order.
pub open spec fn str_views(scripts: Seq<&'static str>) -> Seq<Seq<char>> {
    Seq::new(scripts.len(), |i: int| scripts[i]@)
}

/// What went wrong inside the storage engine.
#[derive(Clone, Copy, Debug, PartialEq, Eq, Structural)]
pub enum DriverError {
    /// A row that must be unique was there already.
    ConstraintViolation,
    /// A column that must hold a value held none.
    MissingValue,
}

/// Every storage failure is of one kind.
#[derive(Clone, Copy, Debug, PartialEq, Eq, Structural)]
pub enum Error {
    Driver(DriverError),
}

/// The tables, as one connection sees them.
pub struct Connection {
    tokens: Vec<Token>,
    events: Vec<TokenEvent>,
    progress: HashMap<ChainId, u64>,
    user_version: usize,
    schema: Vec<String>,
}

impl View for Connection {
    type V = StoreView;

    closed spec fn view(&self) -> StoreView {
        StoreView {
            tokens: token_views(self.tokens@),
            events: self.events@,
            progress: self.progress@,
            user_version: self.user_version as nat,
            schema: script_views(self.schema@),
        }
    }
}

fn copy_events(events: &Vec<TokenEvent>) -> (res: Vec<TokenEvent>)
    ensures
        res@ == events@,
{
    let mut res: Vec<TokenEvent> = Vec::new();
    let mut i: usize = 0;
    while i < events.len()
        invariant
            i <= events@.len(),
            res@ == events@.take(i as int),
        decreases events@.len() - i,
    {
        res.push(events[i]);
        assert(events@.take(i as int + 1) =~= events@.take(i as int).push(events@[i as int]));
        i += 1;
    }
    assert(events@.take(i as int) =~= events@);
    res
}

fn copy_scripts(scripts: &Vec<String>) -> (res: Vec<String>)
    ensures
        script_views(res@) == script_views(scripts@),
{
    let mut res: Vec<String> = Vec::new();
    let mut i: usize = 0;
    while i < scripts.len()
        invariant
            i <= scripts@.len(),
            res@.len() == i,
            forall|j: int| 0 <= j < i ==> res@[j]@ == scripts@[j]@,
        decreases scripts@.len() - i,
    {
        res.push(scripts[i].clone());
        i += 1;
    }
    assert(script_views(res@) =~= script_views(scripts@));
    res
}

impl Clone for Connection {
    fn clone(&self) -> (res: Self)
        ensures
            res@ == self@,
    {
        Connection {
            tokens: copy_tokens(&self.tokens),
            events: copy_events(&self.events),
            progress: self.progress.clone(),
            user_version: self.user_version,
            schema: copy_scripts(&self.schema),
        }
    }
}

impl Connection {
    /// The tables are consistent.
    pub open spec fn wf(&self) -> bool {
        valid(self@)
    }

    /// Where the token `id` stands or would be inserted, and whether it is there.
    fn locate(&self, id: TroutId) -> (res: (usize, bool))
        requires
            self.wf(),
        ensures
            res.0 == slot(self@.tokens, id),
            res.0 <= self.tokens@.len(),
            res.1 == (find(self@.tokens, id) is Some),
            res.1 ==> res.0 < self.tokens@.len() && self.tokens@[res.0 as int].id == id,
    {
        let ghost views = self@.tokens;
        let mut i: usize = 0;
        assert(views.skip(0) =~= views);
        while i < self.tokens.len() && precedes_exec(self.tokens[i].id, id)
            invariant
                i <= self.tokens@.len(),
                views == token_views(self.tokens@),
                slot(views, id) == i + slot(views.skip(i as int), id),
            decreases self.tokens@.len() - i,
        {
            proof {
                let rest = views.skip(i as int);
                assert(rest[0] == views[i as int]);
                assert(rest.drop_first() =~= views.skip(i as int + 1));
            }
            i += 1;
        }
        proof {
            let rest = views.skip(i as int);
            if i < self.tokens@.len() {
                assert(rest[0] == views[i as int]);
            }
            assert(slot(rest, id) == 0);
        }
        let found = i < self.tokens.len() && self.tokens[i].id == id;
        (i, found)
    }

    /// Begins a unit of work: a working copy of the tables.
    pub fn with_tx(&self) -> (tx: Transaction)
        ensures
            tx@ == self@,
    {
        Transaction(self.clone())
    }

    /// Ends a unit of work: the tables become what the unit of work made
    /// of them.
    pub fn commit(&mut self, tx: Transaction)
        ensures
            final(self)@ == tx@,
    {
        *self = tx.0;
    }
}

fn precedes_exec(a: TroutId, b: TroutId) -> (res: bool)
    ensures
        res == precedes(a, b),
{
    a.token_id < b.token_id || (a.token_id == b.token_id && a.chain_id < b.chain_id)
}

/// A unit of work on the tables: a working copy of them that reaches the
/// store when it is committed.
pub struct Transaction(pub Connection);

impl View for Transaction {
    type V = StoreView;

    open spec fn view(&self) -> StoreView {
        self.0@
    }
}

impl Transaction {
    /// The tables are consistent.
    pub open spec fn wf(&self) -> bool {
        self.0.wf()
    }
}

/// The handle of a store.
pub struct Db {
    connstr: String,
    conn: Connection,
}

impl View for Db {
    type V = StoreView;

    closed spec fn view(&self) -> StoreView {
        self.conn@
    }
}

/// The first schema script: tokens with their metadata, analysis and generations.
pub const INIT_SCRIPT: &'static str =
    "CREATE TABLE tokens (id INTEGER PRIMARY KEY, self_chain INTEGER NOT NULL, self_id INTEGER NOT NULL, owner TEXT NOT NULL, UNIQUE (self_chain, self_id)); CREATE TABLE metadata (token INTEGER PRIMARY KEY REFERENCES tokens (id), version INTEGER NOT NULL, name TEXT NOT NULL, fee TEXT, is_genesis INTEGER NOT NULL, is_santa INTEGER NOT NULL, left_parent_chain INTEGER, left_parent_id INTEGER, right_parent_chain INTEGER, right_parent_id INTEGER); CREATE TABLE analysis (token INTEGER PRIMARY KEY REFERENCES tokens (id), coi REAL NOT NULL DEFAULT -1, loops TEXT); CREATE TABLE generations (token INTEGER NOT NULL REFERENCES tokens (id), ord INTEGER NOT NULL, cid TEXT NOT NULL, pinned INTEGER NOT NULL DEFAULT 0, pin_fails INTEGER NOT NULL DEFAULT 0, PRIMARY KEY (token, ord));";

/// The second schema script: the event log and the watermark.
pub const EVENTS_SCRIPT: &'static str =
    "CREATE TABLE events (id INTEGER PRIMARY KEY, kind INTEGER NOT NULL, token INTEGER NOT NULL, block INTEGER NOT NULL, log_index INTEGER NOT NULL, UNIQUE (token, block, log_index)); CREATE TABLE spawn_events (event INTEGER PRIMARY KEY REFERENCES events (id), recipient TEXT NOT NULL); CREATE TABLE list_events (event INTEGER PRIMARY KEY REFERENCES events (id), fee TEXT); CREATE TABLE transfer_events (event INTEGER PRIMARY KEY REFERENCES events (id), sender TEXT NOT NULL, recipient TEXT NOT NULL); CREATE TABLE progress (chain INTEGER PRIMARY KEY, block INTEGER NOT NULL);";

/// Whether the token is consistent.
fn token_is_valid(token: &Token) -> (res: bool)
    ensures
        res == token_valid(token@),
{
    let mut j: usize = 0;
    while j < token.generations.len()
        invariant
            j <= token.generations@.len(),
            forall|k: int|
                0 <= k < j ==> (#[trigger] token@.generations[k]).ord == k
                    && token@.generations[k].pin_fails <= PIN_FAIL_CEILING,
        decreases token.generations@.len() - j,
    {
        let g = &token.generations[j];
        assert(token@.generations[j as int] == g@);
        if g.ord != j || g.pin_fails > PIN_FAIL_CEILING {
            return false;
        }
        j += 1;
    }
    match &token.metadata {
        Some(_) => true,
        None => token.coi.is_unknown() && token.generations.len() == 0,
    }
}

/// Whether no event is in the log twice.
fn events_are_unique(events: &Vec<TokenEvent>) -> (res: bool)
    ensures
        res == events_unique(events@),
{
    let mut j: usize = 0;
    while j < events.len()
        invariant
            j <= events@.len(),
            forall|a: int, b: int|
                0 <= a < b < j ==> !same_event(#[trigger] events@[a], #[trigger] events@[b]),
        decreases events@.len() - j,
    {
        let mut i: usize = 0;
        while i < j
            invariant
                i <= j,
                j < events@.len(),
                forall|a: int| 0 <= a < i ==> !same_event(#[trigger] events@[a], events@[j as int]),
            decreases j - i,
        {
            let e = &events[i];
            let f = &events[j];
            if e.token == f.token && e.block == f.block && e.log_index == f.log_index {
                assert(same_event(events@[i as int], events@[j as int]));
                return false;
            }
            i += 1;
        }
        j += 1;
    }
    true
}

impl Db {
    /// The store is consistent.
    pub open spec fn wf(&self) -> bool {
        valid(self@)
    }

    /// The connection string the store was opened with.
    pub closed spec fn connstr(&self) -> Seq<char> {
        self.connstr@
    }

    /// The schema scripts, oldest first.
    pub fn migrations() -> (res: Vec<&'static str>)
        ensures
            res@ == seq![INIT_SCRIPT, EVENTS_SCRIPT],
    {
        let mut scripts: Vec<&'static str> = Vec::new();
        scripts.push(INIT_SCRIPT);
        scripts.push(EVENTS_SCRIPT);
        assert(scripts@ =~= seq![INIT_SCRIPT, EVENTS_SCRIPT]);
        scripts
    }

    /// Opens a store under `connstr` and brings its schema up to date. The
    /// store starts without tokens and events, every chain at block 0.
    pub fn open(connstr: String) -> (res: Result<Self, Error>)
        ensures
            res is Ok,
            res->Ok_0.wf(),
            res->Ok_0.connstr() == connstr@,
            res->Ok_0@ == migrated(blank(), seq![INIT_SCRIPT@, EVENTS_SCRIPT@]),
    {
        let mut tx = Transaction(
            Connection {
                tokens: Vec::new(),
                events: Vec::new(),
                progress: HashMap::new(),
                user_version: 0,
                schema: Vec::new(),
            },
        );
        proof {
            assert(tx@.tokens =~= Seq::<TokenView>::empty());
            assert(tx@.schema =~= Seq::<Seq<char>>::empty());
            assert(tx@.progress =~= Map::<ChainId, u64>::empty());
            assert(tx@ == blank());
        }
        let scripts = Self::migrations();
        assert(str_views(scripts@) =~= seq![INIT_SCRIPT@, EVENTS_SCRIPT@]);
        match tx.migrate(&scripts) {
            Ok(_) => Ok(Db { connstr: connstr, conn: tx.0 }),
            Err(e) => Err(e),
        }
    }

    /// Opens a store of its own that lives in memory only.
    pub fn open_in_memory() -> (res: Result<Self, Error>)
        ensures
            res is Ok,
            res->Ok_0.wf(),
            res->Ok_0@ == migrated(blank(), seq![INIT_SCRIPT@, EVENTS_SCRIPT@]),
    {
        Self::open(String::from_str("file::memory:?cache=shared"))
    }

    /// Opens a store under `connstr` on rows that were kept elsewhere:
    /// tokens in their order, the event log, and the watermark of each
    /// chain. Rows that are not consistent are refused.
    pub fn restore(
        connstr: String,
        tokens: Vec<Token>,
        events: Vec<TokenEvent>,
        progress: &Vec<(ChainId, u64)>,
    ) -> (res: Result<Self, Error>)
        ensures
            match res {
                Ok(db) => {
                    &&& db.wf()
                    &&& db.connstr() == connstr@
                    &&& db@ == migrated(
                        StoreView {
                            tokens: token_views(tokens@),
                            events: events@,
                            progress: watermarks(progress@, progress@.len()),
                            ..blank()
                        },
                        seq![INIT_SCRIPT@, EVENTS_SCRIPT@],
                    )
                },
                Err(e) => e == Error::Driver(DriverError::ConstraintViolation),
            },
            res is Ok <==> sorted(token_views(tokens@)) && events_unique(events@) && forall|i: int|
                0 <= i < tokens@.len() ==> token_valid(#[trigger] token_views(tokens@)[i]),
    {
        broadcast use vstd::std_specs::hash::group_hash_axioms;

        let ghost views = token_views(tokens@);
        let mut i: usize = 0;
        while i < tokens.len()
            invariant
                i <= tokens@.len(),
                views == token_views(tokens@),
                forall|k: int| 0 <= k < i ==> token_valid(#[trigger] views[k]),
                forall|k: int|
                    0 <= k < i - 1 ==> precedes(#[trigger] views[k].id, views[k + 1].id),
            decreases tokens@.len() - i,
        {
            assert(views[i as int] == tokens@[i as int]@);
            if !token_is_valid(&tokens[i]) {
                return Err(Error::Driver(DriverError::ConstraintViolation));
            }
            if i > 0 && !precedes_exec(tokens[i - 1].id, tokens[i].id) {
                assert(views[i as int - 1] == tokens@[i as int - 1]@);
                assert(!precedes(views[i as int - 1].id, views[i as int].id));
                return Err(Error::Driver(DriverError::ConstraintViolation));
            }
            proof {
                if i > 0 {
                    assert(views[i as int - 1] == tokens@[i as int - 1]@);
                }
            }
            i += 1;
        }
        proof {
            lemma_stepwise_sorted(views);
        }
        if !events_are_unique(&events) {
            return Err(Error::Driver(DriverError::ConstraintViolation));
        }
        let mut marks: HashMap<ChainId, u64> = HashMap::new();
        let mut k: usize = 0;
        assert(marks@ =~= watermarks(progress@, 0));
        while k < progress.len()
            invariant
                k <= progress@.len(),
                marks@ == watermarks(progress@, k as nat),
            decreases progress@.len() - k,
        {
            marks.insert(progress[k].0, progress[k].1);
            k += 1;
        }
        let ghost kept = events@;
        let mut tx = Transaction(
            Connection {
                tokens: tokens,
                events: events,
                progress: marks,
                user_version: 0,
                schema: Vec::new(),
            },
        );
        proof {
            assert(tx@.schema =~= Seq::<Seq<char>>::empty());
            assert(tx@ == (StoreView {
                tokens: views,
                events: kept,
                progress: watermarks(progress@, progress@.len()),
                ..blank()
            }));
        }
        let scripts = Self::migrations();
        assert(str_views(scripts@) =~= seq![INIT_SCRIPT@, EVENTS_SCRIPT@]);
        match tx.migrate(&scripts) {
            Ok(_) => Ok(Db { connstr: connstr, conn: tx.0 }),
            Err(e) => Err(e),
        }
    }

    /// The connection string the store was opened with.
    pub fn connection_string(&self) -> (res: &str)
        ensures
            res@ == self.connstr(),
    {
        self.connstr.as_str()
    }

    /// A connection to the tables. What is done through it is done to the store.
    pub fn with_conn(&mut self) -> (conn: &mut Connection)
        ensures
            conn@ == old(self)@,
            final(self)@ == final(conn)@,
            final(self).connstr() == old(self).connstr(),
    {
        &mut self.conn
    }

    /// Begins a unit of work: a working copy of the tables. What is done
    /// in it reaches the store when it is committed, and is forgotten when
    /// it is dropped.
    pub fn with_tx(&self) -> (tx: Transaction)
        ensures
            tx@ == self@,
    {
        Transaction(self.conn.clone())
    }

    /// Ends a unit of work: the tables become what the unit of work made
    /// of them.
    pub fn commit(&mut self, tx: Transaction)
        ensures
            final(self)@ == tx@,
            final(self).connstr() == old(self).connstr(),
    {
        self.conn = tx.0;
    }
}

} // verus!
