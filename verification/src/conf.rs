//! What can be configured, and what holds where nothing is.

use vstd::prelude::*;
use vstd::string::*;

use crate::ipfs::ends_in_slash;
use crate::nftrout::Client;

verus! {

/// The networks that the token contract lives on.
#[derive(Clone, Copy, Debug, PartialEq, Eq, Hash, Structural)]
pub enum Chain {
    SapphireMainnet,
    SapphireTestnet,
    Local,
}

pub const SAPPHIRE_MAINNET: &'static str = "sapphire-mainnet";

pub const SAPPHIRE_TESTNET: &'static str = "sapphire-testnet";

pub const LOCAL: &'static str = "local";

/// The settings of the indexer.
#[derive(Debug)]
pub struct Config {
    /// The port of the read interface.
    pub api_port: u16,
    /// The base URL of the object store; it ends in a slash.
    pub ipfs_endpoint: String,
    /// Where the store lives.
    pub db_path: String,
    /// The seconds between two passes of reindexing.
    pub reindex_interval: u64,
    /// The network to index.
    pub chain: Chain,
}

pub fn default_api_port() -> (res: u16)
    ensures
        res == 3474,
{
    3474
}

pub fn default_chain() -> (res: Chain)
    ensures
        res == Chain::SapphireMainnet,
{
    Chain::SapphireMainnet
}

pub fn default_ipfs_endpoint() -> (res: String)
    ensures
        res@ == "http://127.0.0.1:5001/api/v0/"@,
{
    String::from_str("http://127.0.0.1:5001/api/v0/")
}

/// The default interval between two passes of reindexing, in seconds.
pub fn default_reindex_interval() -> (res: u64)
    ensures
        res == 60,
{
    60
}

pub fn default_db_path() -> (res: String)
    ensures
        res@ == "nftrout.sqlite"@,
{
    String::from_str("nftrout.sqlite")
}

/// `url` with a slash at its end: one is added where it has none.
pub open spec fn slash_ended(url: Seq<char>) -> Seq<char> {
    if ends_in_slash(url) {
        url
    } else {
        url.push('/')
    }
}

/// Makes sure that the URL of an endpoint ends in a slash, so that method
/// paths can be joined to it.
pub fn with_trailing_slash(url: String) -> (res: String)
    ensures
        res@ == slash_ended(url@),
{
    let n: usize = url.as_str().unicode_len();
    if n > 0 && url.as_str().get_char(n - 1) == '/' {
        url
    } else {
        proof {
            reveal_strlit("/");
        }
        let res = url.concat("/");
        assert(res@ =~= url@.push('/'));
        res
    }
}

impl Chain {
    /// The name under which the network is configured.
    pub fn name(&self) -> (res: &'static str)
        ensures
            res@ == (match self {
                Chain::SapphireMainnet => SAPPHIRE_MAINNET@,
                Chain::SapphireTestnet => SAPPHIRE_TESTNET@,
                Chain::Local => LOCAL@,
            }),
    {
        match self {
            Chain::SapphireMainnet => SAPPHIRE_MAINNET,
            Chain::SapphireTestnet => SAPPHIRE_TESTNET,
            Chain::Local => LOCAL,
        }
    }

    /// The network that is configured under `name`, if it is one.
    pub fn from_name(name: &str) -> (res: Option<Chain>)
        ensures
            name@ == SAPPHIRE_MAINNET@ ==> res == Some(Chain::SapphireMainnet),
            name@ == SAPPHIRE_TESTNET@ ==> res == Some(Chain::SapphireTestnet),
            name@ == LOCAL@ ==> res == Some(Chain::Local),
            name@ != SAPPHIRE_MAINNET@ && name@ != SAPPHIRE_TESTNET@ && name@ != LOCAL@ ==> res
                is None,
    {
        proof {
            reveal_strlit("sapphire-mainnet");
            reveal_strlit("sapphire-testnet");
            reveal_strlit("local");
            assert(SAPPHIRE_MAINNET@[9] != SAPPHIRE_TESTNET@[9]);
            assert(SAPPHIRE_MAINNET@.len() != LOCAL@.len());
            assert(SAPPHIRE_TESTNET@.len() != LOCAL@.len());
        }
        let wanted = String::from_str(name);
        if wanted == String::from_str(SAPPHIRE_MAINNET) {
            Some(Chain::SapphireMainnet)
        } else if wanted == String::from_str(SAPPHIRE_TESTNET) {
            Some(Chain::SapphireTestnet)
        } else if wanted == String::from_str(LOCAL) {
            Some(Chain::Local)
        } else {
            None
        }
    }

    /// The client of the token contract on the network.
    pub fn client(&self) -> (res: Client)
        ensures
            res.block() is None,
            res.chain() == (match self {
                Chain::SapphireMainnet => 0x5afe,
                Chain::SapphireTestnet => 0x5aff,
                Chain::Local => 31337u32,
            }),
    {
        match self {
            Chain::SapphireMainnet => Client::sapphire_mainnet(),
            Chain::SapphireTestnet => Client::sapphire_testnet(),
            Chain::Local => Client::local(),
        }
    }
}

impl Config {
    /// The settings that hold where nothing is configured.
    pub fn default() -> (res: Self)
        ensures
            res.api_port == 3474,
            res.ipfs_endpoint@ == "http://127.0.0.1:5001/api/v0/"@,
            res.db_path@ == "nftrout.sqlite"@,
            res.reindex_interval == 60,
            res.chain == Chain::SapphireMainnet,
    {
        Config {
            api_port: default_api_port(),
            ipfs_endpoint: default_ipfs_endpoint(),
            db_path: default_db_path(),
            reindex_interval: default_reindex_interval(),
            chain: default_chain(),
        }
    }
}

} // verus!
