//! Reconciliation core of an indexer for on-chain trout tokens.
//!
//! The crate keeps a local view of a family of tokens in line with two
//! outside sources, a chain and a content-addressed object store. It holds
//! the rules; reading from the chain, the object store and the disk is the
//! business of the program around it.
//!
//! - [`db`] is the relational view: tokens, metadata, generations, the
//!   event log and the watermark, with every operation on them.
//! - [`indexer`] decides what a batch of events changes and which tokens a
//!   pass must index, and lets indexed tokens enter graph and store.
//! - [`nftrout`] holds the tokens as seen on chain: identities, events,
//!   log decoding, paging and the block cursor; below it the ancestry
//!   graph with the coefficient of inbreeding, and signed name requests.
//! - [`ipfs`] holds content identifiers and the meaning of pin answers.
//! - [`eth`] holds addresses and amounts with their stored text.
//! - [`conf`] and [`utils`] hold the settings and the retry schedule.

pub mod conf;
pub mod db;
pub mod eth;
pub mod indexer;
pub mod ipfs;
pub mod nftrout;
pub mod utils;
