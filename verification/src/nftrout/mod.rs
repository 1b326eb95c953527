//! The token family as seen on chain: identities, metadata, and the events
//! decoded from contract logs.

pub mod algo;
pub mod names;

use std::collections::HashMap;

use vstd::prelude::*;
use vstd::string::*;

use crate::eth::{Address, U256};
use crate::ipfs::Cid;

verus! {

pub type ChainId = u32;

pub type TokenId = u32;

pub type TokenVersion = u32;

/// The metadata version that this indexer produces; anything older is outdated.
pub const CURRENT_VERSION: u32 = 3;

/// The identity of a token: the chain it lives on and its number there.
#[derive(Clone, Copy, Debug, Default, PartialEq, Eq, PartialOrd, Ord, Hash, Structural)]
pub struct TroutId {
    pub chain_id: ChainId,
    pub token_id: TokenId,
}

/// A coefficient of inbreeding, kept exactly. `Unknown` marks a token that
/// still needs analysis. `Paths` holds one exponent `e` for every ancestral
/// loop that was found, each standing for `2^-e`; the coefficient is their
/// sum, so no loops means zero.
#[derive(Debug, PartialEq, Eq)]
pub enum Coi {
    Unknown,
    Paths(Vec<u128>),
}

impl View for Coi {
    type V = Option<Seq<u128>>;

    open spec fn view(&self) -> Option<Seq<u128>> {
        match self {
            Coi::Unknown => None,
            Coi::Paths(exponents) => Some(exponents@),
        }
    }
}

/// A copy of `v`.
pub fn copy_exponents(v: &Vec<u128>) -> (res: Vec<u128>)
    ensures
        res@ == v@,
{
    let mut res: Vec<u128> = Vec::new();
    let mut i: usize = 0;
    while i < v.len()
        invariant
            i <= v.len(),
            res@ == v@.take(i as int),
        decreases v.len() - i,
    {
        res.push(v[i]);
        assert(v@.take(i as int + 1) =~= v@.take(i as int).push(v@[i as int]));
        i += 1;
    }
    assert(v@.take(v.len() as int) =~= v@);
    res
}

impl Clone for Coi {
    fn clone(&self) -> (res: Self)
        ensures
            res@ == self@,
    {
        match self {
            Coi::Unknown => Coi::Unknown,
            Coi::Paths(exponents) => Coi::Paths(copy_exponents(exponents)),
        }
    }
}

impl Coi {
    /// The coefficient zero: no ancestral loop.
    pub fn zero() -> (res: Self)
        ensures
            res@ == Some(Seq::<u128>::empty()),
    {
        Coi::Paths(Vec::new())
    }

    /// Whether the token still needs analysis.
    pub fn is_unknown(&self) -> (res: bool)
        ensures
            res == self@.is_none(),
    {
        match self {
            Coi::Unknown => true,
            Coi::Paths(_) => false,
        }
    }
}

/// The views of a list of identifiers, in order.
pub open spec fn cid_views(cids: Seq<Cid>) -> Seq<Seq<char>> {
    Seq::new(cids.len(), |i: int| cids[i]@)
}

/// A copy of `cids`.
pub fn copy_cids(cids: &Vec<Cid>) -> (res: Vec<Cid>)
    ensures
        cid_views(res@) == cid_views(cids@),
{
    let mut res: Vec<Cid> = Vec::new();
    let mut i: usize = 0;
    while i < cids.len()
        invariant
            i <= cids.len(),
            res@.len() == i,
            forall|j: int| 0 <= j < i ==> res@[j]@ == cids@[j]@,
        decreases cids.len() - i,
    {
        res.push(cids[i].clone());
        i += 1;
    }
    assert(cid_views(res@) =~= cid_views(cids@));
    res
}

#[derive(Clone, Copy, Debug, Default, PartialEq, Eq, Structural)]
pub struct TroutAttributes {
    pub genesis: bool,
    pub santa: bool,
}

#[derive(Debug, Default, PartialEq, Eq)]
pub struct TroutProperties {
    pub version: TokenVersion,
    pub generations: Vec<Cid>,
    pub left: Option<TroutId>,
    pub right: Option<TroutId>,
    pub self_id: TroutId,
    pub attributes: TroutAttributes,
}

pub struct TroutPropertiesView {
    pub version: TokenVersion,
    pub generations: Seq<Seq<char>>,
    pub left: Option<TroutId>,
    pub right: Option<TroutId>,
    pub self_id: TroutId,
    pub attributes: TroutAttributes,
}

impl View for TroutProperties {
    type V = TroutPropertiesView;

    open spec fn view(&self) -> TroutPropertiesView {
        TroutPropertiesView {
            version: self.version,
            generations: cid_views(self.generations@),
            left: self.left,
            right: self.right,
            self_id: self.self_id,
            attributes: self.attributes,
        }
    }
}

impl Clone for TroutProperties {
    fn clone(&self) -> (res: Self)
        ensures
            res@ == self@,
    {
        TroutProperties {
            version: self.version,
            generations: copy_cids(&self.generations),
            left: self.left,
            right: self.right,
            self_id: self.self_id,
            attributes: self.attributes,
        }
    }
}

#[derive(Debug, Default, PartialEq, Eq)]
pub struct TroutMetadata {
    pub description: String,
    pub image: Cid,
    pub metadata: Cid,
    pub name: String,
    pub properties: TroutProperties,
}

pub struct TroutMetadataView {
    pub description: Seq<char>,
    pub image: Seq<char>,
    pub metadata: Seq<char>,
    pub name: Seq<char>,
    pub properties: TroutPropertiesView,
}

impl View for TroutMetadata {
    type V = TroutMetadataView;

    open spec fn view(&self) -> TroutMetadataView {
        TroutMetadataView {
            description: self.description@,
            image: self.image@,
            metadata: self.metadata@,
            name: self.name@,
            properties: self.properties@,
        }
    }
}

impl Clone for TroutMetadata {
    fn clone(&self) -> (res: Self)
        ensures
            res@ == self@,
    {
        TroutMetadata {
            description: self.description.clone(),
            image: self.image.clone(),
            metadata: self.metadata.clone(),
            name: self.name.clone(),
            properties: self.properties.clone(),
        }
    }
}

/// A token with everything that indexing learned about it.
#[derive(Debug, PartialEq, Eq)]
pub struct TroutToken {
    pub cid: Cid,
    pub meta: TroutMetadata,
    pub owner: Address,
    pub fee: Option<U256>,
    pub coi: Coi,
}

pub struct TroutTokenView {
    pub cid: Seq<char>,
    pub meta: TroutMetadataView,
    pub owner: Address,
    pub fee: Option<U256>,
    pub coi: Option<Seq<u128>>,
}

impl View for TroutToken {
    type V = TroutTokenView;

    open spec fn view(&self) -> TroutTokenView {
        TroutTokenView {
            cid: self.cid@,
            meta: self.meta@,
            owner: self.owner,
            fee: self.fee,
            coi: self.coi@,
        }
    }
}

impl Clone for TroutToken {
    fn clone(&self) -> (res: Self)
        ensures
            res@ == self@,
    {
        TroutToken {
            cid: self.cid.clone(),
            meta: self.meta.clone(),
            owner: self.owner,
            fee: self.fee,
            coi: self.coi.clone(),
        }
    }
}

/// A token seen on chain whose metadata has not been fetched yet.
#[derive(Clone, Copy, Debug, PartialEq, Eq, Structural)]
pub struct PendingToken {
    pub id: TokenId,
    pub owner: Address,
}

/// The details of a token that the read interface shows.
#[derive(Debug, PartialEq, Eq)]
pub struct TokenForUi {
    pub id: TokenId,
    pub owner: Address,
    pub name: String,
    pub coi: Coi,
    pub fee: Option<U256>,
    pub parents: Option<(TroutId, TroutId)>,
    pub pending: bool,
}

pub struct TokenForUiView {
    pub id: TokenId,
    pub owner: Address,
    pub name: Seq<char>,
    pub coi: Option<Seq<u128>>,
    pub fee: Option<U256>,
    pub parents: Option<(TroutId, TroutId)>,
    pub pending: bool,
}

impl View for TokenForUi {
    type V = TokenForUiView;

    open spec fn view(&self) -> TokenForUiView {
        TokenForUiView {
            id: self.id,
            owner: self.owner,
            name: self.name@,
            coi: self.coi@,
            fee: self.fee,
            parents: self.parents,
            pending: self.pending,
        }
    }
}

/// Whether a flag is unset; such flags are left out when a row is shown.
pub fn is_false(tf: &bool) -> (res: bool)
    ensures
        res == !*tf,
{
    !*tf
}

/// What the read interface shows of one event in a token's history.
#[derive(Clone, Copy, Debug, PartialEq, Eq, Structural)]
pub struct EventForUi {
    pub id: TroutId,
    pub block: u64,
    pub kind: EventKindForUi,
}

#[derive(Clone, Copy, Debug, PartialEq, Eq, Structural)]
pub enum EventKindForUi {
    Breed { breeder: Address, child: TroutId, coparent: TroutId, price: U256, owner: Address },
}

/// One item of the block stream: a decoded log, or the mark that a block
/// has been read to its end.
#[derive(Clone, Copy, Debug, PartialEq, Eq, Structural)]
pub enum Event {
    Token(TokenEvent),
    ProcessedBlock(u64),
}

#[derive(Clone, Copy, Debug, PartialEq, Eq, Structural)]
pub struct TokenEvent {
    pub token: TokenId,
    pub kind: TokenEventKind,
    pub block: u64,
    pub log_index: u64,
}

#[derive(Clone, Copy, Debug, PartialEq, Eq, Structural)]
pub enum TokenEventKind {
    Relisted { fee: Option<U256> },
    Spawned { to: Address },
    Transfer { from: Address, to: Address },
}

/// What a contract log says once its data has been read.
#[derive(Clone, Copy, Debug, PartialEq, Eq, Structural)]
pub enum ContractLog {
    Transfer { from: Address, to: Address, token_id: TokenId },
    Listed { token_id: TokenId, fee: U256 },
    Delisted { token_id: TokenId },
    /// A log of the contract that is none of the above.
    Other,
}

/// A log as the provider hands it out. `decoded` is empty where its data
/// could not be read.
#[derive(Clone, Copy, Debug, PartialEq, Eq, Structural)]
pub struct Log {
    pub block_number: Option<u64>,
    pub log_index: Option<u64>,
    pub removed: Option<bool>,
    pub decoded: Option<ContractLog>,
}

/// The event that a log stands for. A log without block number or log
/// index, one that was removed, and one whose data could not be read
/// stand for none. A transfer from the zero address is a spawn.
pub open spec fn decoded_event(log: Log) -> Option<Event> {
    if log.block_number is None || log.log_index is None || log.removed == Some(true) {
        None
    } else {
        let block = log.block_number->Some_0;
        let log_index = log.log_index->Some_0;
        match log.decoded {
            Some(ContractLog::Delisted { token_id }) => Some(
                Event::Token(
                    TokenEvent {
                        token: token_id,
                        kind: TokenEventKind::Relisted { fee: None },
                        block: block,
                        log_index: log_index,
                    },
                ),
            ),
            Some(ContractLog::Listed { token_id, fee }) => Some(
                Event::Token(
                    TokenEvent {
                        token: token_id,
                        kind: TokenEventKind::Relisted { fee: Some(fee) },
                        block: block,
                        log_index: log_index,
                    },
                ),
            ),
            Some(ContractLog::Transfer { from, to, token_id }) => Some(
                Event::Token(
                    TokenEvent {
                        token: token_id,
                        kind: if from.high == 0 && from.low == 0 {
                            TokenEventKind::Spawned { to: to }
                        } else {
                            TokenEventKind::Transfer { from: from, to: to }
                        },
                        block: block,
                        log_index: log_index,
                    },
                ),
            ),
            Some(ContractLog::Other) => None,
            None => None,
        }
    }
}

/// Turns a log into the event it stands for, if it stands for one.
pub fn decode_log(log: &Log) -> (res: Option<Event>)
    ensures
        res == decoded_event(*log),
{
    let (block, log_index) = match (log.block_number, log.log_index) {
        (Some(block), Some(log_index)) => (block, log_index),
        _ => {
            return None;
        },
    };
    match log.removed {
        Some(true) => {
            return None;
        },
        _ => {},
    }
    let (token, kind) = match log.decoded {
        Some(ContractLog::Delisted { token_id }) => (
            token_id,
            TokenEventKind::Relisted { fee: None },
        ),
        Some(ContractLog::Listed { token_id, fee }) => (
            token_id,
            TokenEventKind::Relisted { fee: Some(fee) },
        ),
        Some(ContractLog::Transfer { from, to, token_id }) => (
            token_id,
            if from.is_zero() {
                TokenEventKind::Spawned { to: to }
            } else {
                TokenEventKind::Transfer { from: from, to: to }
            },
        ),
        _ => {
            return None;
        },
    };
    Some(Event::Token(TokenEvent { token: token, kind: kind, block: block, log_index: log_index }))
}

/// The events that the first `upto` logs stand for, in order.
pub open spec fn decoded_events(logs: Seq<Log>, upto: nat) -> Seq<Event>
    decreases upto,
{
    if upto == 0 {
        Seq::empty()
    } else {
        let before = decoded_events(logs, (upto - 1) as nat);
        match decoded_event(logs[upto - 1]) {
            Some(event) => before.push(event),
            None => before,
        }
    }
}

/// The events of one block: those that its logs stand for, in order.
pub fn get_block_events(logs: &Vec<Log>) -> (res: Vec<Event>)
    ensures
        res@ == decoded_events(logs@, logs@.len()),
{
    let mut events: Vec<Event> = Vec::new();
    let mut i: usize = 0;
    while i < logs.len()
        invariant
            i <= logs@.len(),
            events@ == decoded_events(logs@, i as nat),
        decreases logs@.len() - i,
    {
        match decode_log(&logs[i]) {
            Some(event) => {
                events.push(event);
            },
            None => {},
        }
        i += 1;
    }
    events
}

/// What the stream hands out for one block: the events of its logs, and
/// then the mark that the block has been read to its end.
pub fn block_items(logs: &Vec<Log>, block: u64) -> (res: Vec<Event>)
    ensures
        res@ == decoded_events(logs@, logs@.len()).push(Event::ProcessedBlock(block)),
{
    let mut events = get_block_events(logs);
    events.push(Event::ProcessedBlock(block));
    events
}

/// The scheme that token URIs begin with.
pub const IPFS_SCHEME: &'static str = "ipfs://";

/// `uri` begins with the scheme of token URIs.
pub open spec fn has_ipfs_scheme(uri: Seq<char>) -> bool {
    IPFS_SCHEME@.is_prefix_of(uri)
}

/// Whether `uri` begins with the scheme of token URIs.
pub fn is_ipfs_uri(uri: &str) -> (res: bool)
    ensures
        res == has_ipfs_scheme(uri@),
{
    proof {
        reveal_strlit("ipfs://");
    }
    let n: usize = uri.unicode_len();
    if n < 7 {
        return false;
    }
    let mut i: usize = 0;
    while i < 7
        invariant
            i <= 7,
            n == uri@.len(),
            n >= 7,
            IPFS_SCHEME@.len() == 7,
            forall|k: int| 0 <= k < i ==> uri@[k] == IPFS_SCHEME@[k],
        decreases 7 - i,
    {
        if uri.get_char(i) != IPFS_SCHEME.get_char(i) {
            assert(uri@.subrange(0, 7)[i as int] != IPFS_SCHEME@[i as int]);
            return false;
        }
        i += 1;
    }
    assert(uri@.subrange(0, 7) =~= IPFS_SCHEME@);
    true
}

/// The content identifier that a token URI names: what follows the
/// scheme, and nothing where nothing follows, which is the URI of a token
/// whose metadata has not been uploaded yet.
pub fn cid_from_uri(uri: &str) -> (res: Option<Cid>)
    requires
        has_ipfs_scheme(uri@),
    ensures
        uri@.len() == IPFS_SCHEME@.len() ==> res is None,
        uri@.len() > IPFS_SCHEME@.len() ==> res is Some && res->Some_0@ == uri@.skip(
            IPFS_SCHEME@.len() as int,
        ),
{
    proof {
        reveal_strlit("ipfs://");
    }
    let n: usize = uri.unicode_len();
    if n == 7 {
        return None;
    }
    let rest = uri.substring_char(7, n);
    assert(rest@ =~= uri@.skip(7));
    Some(Cid::from(rest))
}

/// How many listings the contract is asked for at a time.
pub const STUDS_PAGE: usize = 1000;

/// An active listing: a token offered for breeding, and its fee.
#[derive(Clone, Copy, Debug, PartialEq, Eq, Structural)]
pub struct Stud {
    pub token_id: TokenId,
    pub fee: U256,
}

/// The listings after the first `upto` of `page` were taken in.
pub open spec fn absorbed(studs: Map<TokenId, U256>, page: Seq<Stud>, upto: nat) -> Map<
    TokenId,
    U256,
>
    decreases upto,
{
    if upto == 0 {
        studs
    } else {
        absorbed(studs, page, (upto - 1) as nat).insert(
            page[upto - 1].token_id,
            page[upto - 1].fee,
        )
    }
}

/// Pages through the active listings of the contract.
pub struct StudsPager {
    next: usize,
    done: bool,
    studs: HashMap<TokenId, U256>,
}

impl StudsPager {
    /// How many listings have been asked for and taken in.
    pub closed spec fn offset(&self) -> nat {
        self.next as nat
    }

    /// Whether the last page has been taken in.
    pub closed spec fn finished(&self) -> bool {
        self.done
    }

    /// The listings taken in so far.
    pub closed spec fn listings(&self) -> Map<TokenId, U256> {
        self.studs@
    }

    /// Starts before the first page.
    pub fn new() -> (res: Self)
        ensures
            res.offset() == 0,
            !res.finished(),
            res.listings() == Map::<TokenId, U256>::empty(),
    {
        StudsPager { next: 0, done: false, studs: HashMap::new() }
    }

    /// The range of listings to ask the contract for next: from the
    /// offset, one page wide; nothing once the last page has been taken in.
    pub fn request(&self) -> (res: Option<(usize, u128)>)
        ensures
            self.finished() ==> res is None,
            !self.finished() ==> res == Some(
                (self.offset() as usize, (self.offset() + STUDS_PAGE) as u128),
            ),
    {
        if self.done {
            None
        } else {
            Some((self.next, self.next as u128 + STUDS_PAGE as u128))
        }
    }

    /// Takes in the page that the contract answered with. A page that is
    /// not full is the last one.
    pub fn absorb(&mut self, page: &Vec<Stud>)
        requires
            !old(self).finished(),
        ensures
            final(self).listings() == absorbed(old(self).listings(), page@, page@.len()),
            final(self).finished() == (page@.len() < STUDS_PAGE || old(self).offset() + page@.len()
                > usize::MAX),
            !final(self).finished() ==> final(self).offset() == old(self).offset() + page@.len(),
    {
        broadcast use vstd::std_specs::hash::group_hash_axioms;

        let mut i: usize = 0;
        while i < page.len()
            invariant
                i <= page@.len(),
                self.next == old(self).next,
                self.done == old(self).done,
                self.studs@ == absorbed(old(self).studs@, page@, i as nat),
            decreases page@.len() - i,
        {
            self.studs.insert(page[i].token_id, page[i].fee);
            i += 1;
        }
        if page.len() < STUDS_PAGE {
            self.done = true;
        } else if page.len() > usize::MAX - self.next {
            self.done = true;
        } else {
            self.next = self.next + page.len();
        }
    }

    /// The listings taken in.
    pub fn into_studs(self) -> (res: HashMap<TokenId, U256>)
        ensures
            res@ == self.listings(),
    {
        self.studs
    }
}

/// What to do for the next block of the stream.
#[derive(Clone, Copy, Debug, PartialEq, Eq, Structural)]
pub enum BlockStep {
    /// The block existed when the stream began: read it at once.
    Ready(u64),
    /// The block lies beyond: wait until the chain has reached it, then read it.
    Await(u64),
}

/// Walks the blocks of a stream: from a first block upwards, without
/// waiting up to the tip seen when the stream began, and to the end of a
/// last block where one is given.
pub struct BlockCursor {
    current: u64,
    tip: u64,
    stop: Option<u64>,
    ended: bool,
}

impl BlockCursor {
    /// The block that comes next.
    pub closed spec fn position(&self) -> u64 {
        self.current
    }

    /// The tip seen when the stream began.
    pub closed spec fn init_block(&self) -> u64 {
        self.tip
    }

    /// The block after which the stream ends, if it ends.
    pub closed spec fn stop_block(&self) -> Option<u64> {
        self.stop
    }

    /// Whether the stream has ended.
    pub closed spec fn finished(&self) -> bool {
        self.ended
    }

    /// A stream that begins at `start_block`.
    pub fn new(start_block: u64, init_block: u64, stop_block: Option<u64>) -> (res: Self)
        ensures
            res.position() == start_block,
            res.init_block() == init_block,
            res.stop_block() == stop_block,
            !res.finished(),
    {
        BlockCursor { current: start_block, tip: init_block, stop: stop_block, ended: false }
    }

    /// The next block, and whether it must be waited for. The stream ends
    /// after the stop block, and after the last block there can be.
    pub fn next(&mut self) -> (res: Option<BlockStep>)
        ensures
            final(self).init_block() == old(self).init_block(),
            final(self).stop_block() == old(self).stop_block(),
            old(self).finished() ==> res is None && final(self).finished(),
            old(self).finished() ==> final(self).position() == old(self).position(),
            !old(self).finished() ==> {
                &&& res == Some(
                    if old(self).position() <= old(self).init_block() {
                        BlockStep::Ready(old(self).position())
                    } else {
                        BlockStep::Await(old(self).position())
                    },
                )
                &&& final(self).finished() == (old(self).stop_block() == Some(
                    old(self).position(),
                ) || old(self).position() == u64::MAX)
                &&& !final(self).finished() ==> final(self).position() == old(self).position()
                    + 1
            },
    {
        if self.ended {
            return None;
        }
        let block = self.current;
        let step = if block <= self.tip {
            BlockStep::Ready(block)
        } else {
            BlockStep::Await(block)
        };
        let last = match self.stop {
            Some(stop) => stop == block,
            None => false,
        };
        if last || block == 0xffff_ffff_ffff_ffff {
            self.ended = true;
        } else {
            self.current = block + 1;
        }
        Some(step)
    }
}

/// Whether the chain, now at block `num`, has reached `block_number`:
/// then the answer is `num`.
pub fn reached(num: u64, block_number: u64) -> (res: Option<u64>)
    ensures
        res == (if num >= block_number {
            Some(num)
        } else {
            None
        }),
{
    if num >= block_number {
        Some(num)
    } else {
        None
    }
}

/// How often the provider is polled, in milliseconds.
pub const POLLING_INTERVAL_MS: u64 = 3000;

/// A read-only view of the token contract on one chain, at the newest
/// block or at a fixed one.
#[derive(Debug)]
pub struct Client {
    addr: Address,
    chain: ChainId,
    gw_url: String,
    block: Option<u64>,
}

impl Client {
    /// The chain of the contract.
    pub closed spec fn chain(&self) -> ChainId {
        self.chain
    }

    /// The address of the contract.
    pub closed spec fn addr(&self) -> Address {
        self.addr
    }

    /// The URL of the gateway that is asked.
    pub closed spec fn gw_url(&self) -> Seq<char> {
        self.gw_url@
    }

    /// The block at which the contract is read; none is the newest.
    pub closed spec fn block(&self) -> Option<u64> {
        self.block
    }

    /// The contract on the main network.
    pub fn sapphire_mainnet() -> (res: Self)
        ensures
            res.chain() == 0x5afe,
            res.addr() == (Address {
                high: 0x998633BD,
                low: 0xF6eE32A9CcA6c9A247F428596e8e65d8,
            }),
            res.gw_url() == "https://sapphire.oasis.io"@,
            res.block() is None,
    {
        Self::new(
            0x5afe,
            Address { high: 0x998633BD, low: 0xF6eE32A9CcA6c9A247F428596e8e65d8 },
            String::from_str("https://sapphire.oasis.io"),
        )
    }

    /// The contract on the test network.
    pub fn sapphire_testnet() -> (res: Self)
        ensures
            res.chain() == 0x5aff,
            res.addr() == (Address {
                high: 0xF8E3DE55,
                low: 0xD24D13607A12628E0A113B66BA578bDC,
            }),
            res.gw_url() == "https://testnet.sapphire.oasis.dev"@,
            res.block() is None,
    {
        Self::new(
            0x5aff,
            Address { high: 0xF8E3DE55, low: 0xD24D13607A12628E0A113B66BA578bDC },
            String::from_str("https://testnet.sapphire.oasis.dev"),
        )
    }

    /// The contract on a local development chain.
    pub fn local() -> (res: Self)
        ensures
            res.chain() == 31337,
            res.addr() == (Address {
                high: 0xe7f1725E,
                low: 0x7734CE288F8367e1Bb143E90bb3F0512,
            }),
            res.gw_url() == "http://127.0.0.1:8545"@,
            res.block() is None,
    {
        Self::new(
            31337,
            Address { high: 0xe7f1725E, low: 0x7734CE288F8367e1Bb143E90bb3F0512 },
            String::from_str("http://127.0.0.1:8545"),
        )
    }

    /// The contract at `addr` on `chain`, asked through `gw_url`, read at
    /// the newest block.
    pub fn new(chain: ChainId, addr: Address, gw_url: String) -> (res: Self)
        ensures
            res.chain() == chain,
            res.addr() == addr,
            res.gw_url() == gw_url@,
            res.block() is None,
    {
        Client { addr: addr, chain: chain, gw_url: gw_url, block: None }
    }

    /// The same contract, read at `block`.
    pub fn at_block(&self, block: u64) -> (res: Self)
        ensures
            res.chain() == self.chain(),
            res.addr() == self.addr(),
            res.gw_url() == self.gw_url(),
            res.block() == Some(block),
    {
        Client {
            addr: self.addr,
            chain: self.chain,
            gw_url: self.gw_url.clone(),
            block: Some(block),
        }
    }

    /// The chain of the contract.
    pub fn chain_id(&self) -> (res: ChainId)
        ensures
            res == self.chain(),
    {
        self.chain
    }

    /// The address of the contract.
    pub fn address(&self) -> (res: Address)
        ensures
            res == self.addr(),
    {
        self.addr
    }

    /// The URL of the gateway that is asked.
    pub fn gateway(&self) -> (res: &str)
        ensures
            res@ == self.gw_url(),
    {
        self.gw_url.as_str()
    }

    /// The block at which the contract is read; none is the newest.
    pub fn view_block(&self) -> (res: Option<u64>)
        ensures
            res == self.block(),
    {
        self.block
    }
}

} // verus!
