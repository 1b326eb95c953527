use ethers::abi::Token;
use ethers::signers::Signer as _;
use nftrout_indexer::conf::{
    default_api_port, default_chain, default_db_path, default_ipfs_endpoint,
    default_reindex_interval, with_trailing_slash, Chain, Config,
};
use nftrout_indexer::eth::{addr_to_hex, u256_to_hex, Address, U256};
use nftrout_indexer::ipfs::{is_pinned, Cid, Client as IpfsClient};
use nftrout_indexer::nftrout::names::NameRequest;
use nftrout_indexer::nftrout::{
    block_items, cid_from_uri, decode_log, get_block_events, is_false, is_ipfs_uri, reached,
    BlockCursor, BlockStep, Client, ContractLog, Event, Log, Stud, StudsPager, TokenEvent,
    TokenEventKind, CURRENT_VERSION,
};

fn addr(low: u128) -> Address {
    Address { high: 0, low }
}

fn from_h160(a: ethers::types::H160) -> Address {
    let bytes = a.to_fixed_bytes();
    Address {
        high: u32::from_be_bytes(bytes[..4].try_into().unwrap()),
        low: u128::from_be_bytes(bytes[4..].try_into().unwrap()),
    }
}

fn to_h160(a: Address) -> ethers::types::H160 {
    ethers::types::H160::from_slice(&a.to_bytes())
}

fn to_ethers_u256(v: U256) -> ethers::types::U256 {
    ethers::types::U256::from_big_endian(&v.to_bytes())
}

fn log(decoded: Option<ContractLog>) -> Log {
    Log { block_number: Some(100), log_index: Some(0), removed: None, decoded }
}

#[test]
fn spawn_is_a_transfer_from_nobody() {
    let spawned = log(Some(ContractLog::Transfer { from: addr(0), to: addr(0xa1), token_id: 7 }));
    assert_eq!(
        decode_log(&spawned),
        Some(Event::Token(TokenEvent {
            token: 7,
            kind: TokenEventKind::Spawned { to: addr(0xa1) },
            block: 100,
            log_index: 0,
        }))
    );
    let moved = log(Some(ContractLog::Transfer { from: addr(1), to: addr(2), token_id: 7 }));
    assert_eq!(
        decode_log(&moved),
        Some(Event::Token(TokenEvent {
            token: 7,
            kind: TokenEventKind::Transfer { from: addr(1), to: addr(2) },
            block: 100,
            log_index: 0,
        }))
    );
    let high_only = Address { high: 1, low: 0 };
    let from_high = log(Some(ContractLog::Transfer { from: high_only, to: addr(2), token_id: 7 }));
    assert_eq!(
        decode_log(&from_high),
        Some(Event::Token(TokenEvent {
            token: 7,
            kind: TokenEventKind::Transfer { from: high_only, to: addr(2) },
            block: 100,
            log_index: 0,
        }))
    );
}

#[test]
fn listings_become_relistings() {
    let listed = log(Some(ContractLog::Listed { token_id: 7, fee: U256::from_u64(1000) }));
    assert_eq!(
        decode_log(&listed),
        Some(Event::Token(TokenEvent {
            token: 7,
            kind: TokenEventKind::Relisted { fee: Some(U256::from_u64(1000)) },
            block: 100,
            log_index: 0,
        }))
    );
    let delisted = log(Some(ContractLog::Delisted { token_id: 7 }));
    assert_eq!(
        decode_log(&delisted),
        Some(Event::Token(TokenEvent {
            token: 7,
            kind: TokenEventKind::Relisted { fee: None },
            block: 100,
            log_index: 0,
        }))
    );
}

#[test]
fn removed_and_incomplete_logs_are_ignored() {
    let decoded = Some(ContractLog::Delisted { token_id: 7 });
    let mut removed = log(decoded);
    removed.removed = Some(true);
    assert_eq!(decode_log(&removed), None);
    let mut kept = log(decoded);
    kept.removed = Some(false);
    assert!(decode_log(&kept).is_some());
    let mut no_block = log(decoded);
    no_block.block_number = None;
    assert_eq!(decode_log(&no_block), None);
    let mut no_index = log(decoded);
    no_index.log_index = None;
    assert_eq!(decode_log(&no_index), None);
    assert_eq!(decode_log(&log(None)), None);
    assert_eq!(decode_log(&log(Some(ContractLog::Other))), None);
    let logs = vec![removed, kept, no_block, log(None)];
    assert_eq!(get_block_events(&logs).len(), 1);
    let items = block_items(&logs, 100);
    assert_eq!(items.len(), 2);
    assert_eq!(items[1], Event::ProcessedBlock(100));
    assert_eq!(block_items(&vec![], 5), vec![Event::ProcessedBlock(5)]);
}

#[test]
fn token_uri_without_cid() {
    assert_eq!(cid_from_uri("ipfs://"), None);
    assert_eq!(cid_from_uri("ipfs://abc"), Some(Cid::from("abc")));
    assert_eq!(cid_from_uri("ipfs://abc/d"), Some(Cid::from("abc/d")));
    assert!(is_ipfs_uri("ipfs://"));
    assert!(is_ipfs_uri("ipfs://abc"));
    assert!(!is_ipfs_uri("ipfs:/"));
    assert!(!is_ipfs_uri("http://abc"));
    assert!(!is_ipfs_uri(""));
}

#[test]
fn studs_are_paged() {
    let mut pager = StudsPager::new();
    assert_eq!(pager.request(), Some((0, 1000)));
    let full: Vec<Stud> =
        (0..1000).map(|i| Stud { token_id: i, fee: U256::from_u64(i as u64) }).collect();
    pager.absorb(&full);
    assert_eq!(pager.request(), Some((1000, 2000)));
    pager.absorb(&vec![
        Stud { token_id: 5, fee: U256::from_u64(77) },
        Stud { token_id: 2000, fee: U256::from_u64(1) },
    ]);
    assert_eq!(pager.request(), None);
    let studs = pager.into_studs();
    assert_eq!(studs.len(), 1001);
    assert_eq!(studs[&5], U256::from_u64(77));
    assert_eq!(studs[&6], U256::from_u64(6));
    let mut empty = StudsPager::new();
    empty.absorb(&vec![]);
    assert_eq!(empty.request(), None);
    assert!(empty.into_studs().is_empty());
}

#[test]
fn blocks_up_to_the_tip_are_read_at_once() {
    let mut cursor = BlockCursor::new(498, 499, Some(501));
    assert_eq!(cursor.next(), Some(BlockStep::Ready(498)));
    assert_eq!(cursor.next(), Some(BlockStep::Ready(499)));
    assert_eq!(cursor.next(), Some(BlockStep::Await(500)));
    assert_eq!(cursor.next(), Some(BlockStep::Await(501)));
    assert_eq!(cursor.next(), None);
    assert_eq!(cursor.next(), None);
    let mut endless = BlockCursor::new(u64::MAX - 1, 0, None);
    assert_eq!(endless.next(), Some(BlockStep::Await(u64::MAX - 1)));
    assert_eq!(endless.next(), Some(BlockStep::Await(u64::MAX)));
    assert_eq!(endless.next(), None);
    let mut past = BlockCursor::new(10, 20, Some(5));
    assert_eq!(past.next(), Some(BlockStep::Ready(10)));
    assert_eq!(past.next(), Some(BlockStep::Ready(11)));
    assert_eq!(reached(7, 8), None);
    assert_eq!(reached(8, 8), Some(8));
    assert_eq!(reached(9, 8), Some(9));
}

#[test]
fn networks() {
    let mainnet = Client::sapphire_mainnet();
    assert_eq!(mainnet.chain_id(), 0x5afe);
    assert_eq!(mainnet.chain_id(), 23294);
    assert_eq!(
        to_h160(mainnet.address()),
        "0x998633BDF6eE32A9CcA6c9A247F428596e8e65d8".parse().unwrap()
    );
    assert_eq!(mainnet.gateway(), "https://sapphire.oasis.io");
    assert_eq!(mainnet.view_block(), None);
    let testnet = Client::sapphire_testnet();
    assert_eq!(testnet.chain_id(), 0x5aff);
    assert_eq!(
        to_h160(testnet.address()),
        "0xF8E3DE55D24D13607A12628E0A113B66BA578bDC".parse().unwrap()
    );
    assert_eq!(testnet.gateway(), "https://testnet.sapphire.oasis.dev");
    let local = Client::local();
    assert_eq!(local.chain_id(), 31337);
    assert_eq!(
        to_h160(local.address()),
        "0xe7f1725E7734CE288F8367e1Bb143E90bb3F0512".parse().unwrap()
    );
    assert_eq!(local.gateway(), "http://127.0.0.1:8545");
    let pinned = local.at_block(17);
    assert_eq!(pinned.view_block(), Some(17));
    assert_eq!(pinned.chain_id(), 31337);
    assert_eq!(pinned.address(), local.address());
    assert_eq!(Chain::Local.client().chain_id(), 31337);
    assert_eq!(Chain::SapphireMainnet.client().chain_id(), 0x5afe);
    assert_eq!(Chain::SapphireTestnet.client().chain_id(), 0x5aff);
    assert_eq!(CURRENT_VERSION, 3);
    assert!(is_false(&false));
    assert!(!is_false(&true));
}

#[test]
fn configuration_defaults() {
    assert_eq!(default_api_port(), 3474);
    assert_eq!(default_chain(), Chain::SapphireMainnet);
    assert_eq!(default_ipfs_endpoint(), "http://127.0.0.1:5001/api/v0/");
    assert_eq!(default_reindex_interval(), 60);
    assert_eq!(default_db_path(), "nftrout.sqlite");
    let config = Config::default();
    assert_eq!(config.api_port, 3474);
    assert_eq!(config.chain, Chain::SapphireMainnet);
    assert_eq!(config.db_path, "nftrout.sqlite");
    assert_eq!(config.reindex_interval, 60);
    assert_eq!(config.ipfs_endpoint, IpfsClient::default().base_url());
    assert_eq!(with_trailing_slash("http://a/api".to_string()), "http://a/api/");
    assert_eq!(with_trailing_slash("http://a/api/".to_string()), "http://a/api/");
    assert_eq!(with_trailing_slash(String::new()), "/");
    assert_eq!(Chain::from_name("sapphire-mainnet"), Some(Chain::SapphireMainnet));
    assert_eq!(Chain::from_name("sapphire-testnet"), Some(Chain::SapphireTestnet));
    assert_eq!(Chain::from_name("local"), Some(Chain::Local));
    assert_eq!(Chain::from_name("mainnet"), None);
    assert_eq!(Chain::Local.name(), "local");
    assert_eq!(Chain::from_name(Chain::SapphireTestnet.name()), Some(Chain::SapphireTestnet));
}

#[test]
fn pin_status() {
    assert_eq!(is_pinned(true, ""), Ok(true));
    assert_eq!(is_pinned(true, "path 'x' is not pinned"), Ok(true));
    assert_eq!(is_pinned(false, "path 'x' is not pinned"), Ok(false));
    assert_eq!(is_pinned(false, "invalid path \"x\""), Ok(false));
    assert_eq!(
        is_pinned(false, "context deadline exceeded"),
        Err(nftrout_indexer::ipfs::Error::Http {
            message: Some("context deadline exceeded".to_string())
        })
    );
    assert_eq!(Cid::from("bafyab/cd/ef").multihash(), Cid::from("bafyab"));
    assert_eq!(Cid::from("bafyab").multihash(), Cid::from("bafyab"));
    assert_eq!(Cid::from("/cd").multihash(), Cid::from(""));
    assert_eq!(IpfsClient::new("http://x/".to_string()).base_url(), "http://x/");
}

#[test]
fn stored_text_is_lowercase_hex() {
    assert_eq!(u256_to_hex(&U256::from_u64(1000)), "0x3e8");
    assert_eq!(u256_to_hex(&U256::from_u64(0)), "0x0");
    assert_eq!(u256_to_hex(&U256 { high: 1, low: 0 }), "0x100000000000000000000000000000000");
    assert_eq!(
        addr_to_hex(&Address { high: 0x998633BD, low: 0xF6eE32A9CcA6c9A247F428596e8e65d8 }),
        "0x998633bdf6ee32a9cca6c9a247f428596e8e65d8"
    );
    let amounts = [
        U256 { high: 0, low: 0 },
        U256 { high: 0, low: 0xabcdef },
        U256 { high: 0, low: u128::MAX },
        U256 { high: 0x10, low: 0x0f },
        U256 { high: u128::MAX, low: u128::MAX },
    ];
    for amount in amounts {
        assert_eq!(u256_to_hex(&amount), format!("{:#x}", to_ethers_u256(amount)));
        assert_eq!(
            amount,
            U256 { high: amount.high, low: amount.low },
        );
    }
    let accounts = [addr(0), addr(0xa1), Address { high: 0xdeadbeef, low: 7 }];
    for account in accounts {
        assert_eq!(addr_to_hex(&account), format!("{:#x}", to_h160(account)));
        assert_eq!(from_h160(to_h160(account)), account);
        assert_eq!(account.is_zero(), to_h160(account).is_zero());
    }
    assert_eq!(U256 { high: 0, low: 0x1_0000_0007 }.low_u32(), 7);
    assert_eq!(U256::from_u64(7).as_u32(), 7);
    assert!(U256::from_u64(u32::MAX as u64).fits_u32());
    assert!(!U256::from_u64(u32::MAX as u64 + 1).fits_u32());
    assert!(U256::from_u64(0).is_zero());
}

#[test]
fn name_request_hash_is_the_typed_data_hash() {
    let request = NameRequest::new(7, "Sir Trout".to_string());
    let type_hash = ethers::utils::keccak256("NameRequest(uint256 trout,string name)");
    let struct_hash = ethers::utils::keccak256(ethers::abi::encode(&[
        Token::Uint(ethers::types::U256::from(type_hash)),
        Token::Uint(ethers::types::U256::from(7)),
        Token::Uint(ethers::types::U256::from(ethers::utils::keccak256("Sir Trout"))),
    ]));
    let domain = ethers::types::transaction::eip712::EIP712Domain {
        name: Some("NameRequest".to_string()),
        version: Some("1".to_string()),
        chain_id: Some(23294.into()),
        verifying_contract: Some(ethers::types::H160::zero()),
        salt: None,
    };
    let mut preimage = vec![0x19, 0x01];
    preimage.extend_from_slice(&domain.separator());
    preimage.extend_from_slice(&struct_hash);
    assert_eq!(request.hash(), ethers::utils::keccak256(preimage));
    assert_ne!(request.hash(), NameRequest::new(8, "Sir Trout".to_string()).hash());
    assert_ne!(request.hash(), NameRequest::new(7, "Sir Trout!".to_string()).hash());
}

#[test]
fn name_request_is_verified_against_the_signer() {
    let wallet: ethers::signers::LocalWallet =
        "4c0883a69102937d6231471b5dbb6204fe5129617082792ae468d01a3f362318".parse().unwrap();
    let request = NameRequest::new(7, "Sir Trout".to_string());
    let signature = wallet.sign_hash(ethers::types::H256(request.hash())).unwrap();
    let bytes: [u8; 65] = signature.to_vec().try_into().unwrap();
    let owner = from_h160(wallet.address());
    assert!(request.verify(&bytes, owner));
    assert!(!request.verify(&bytes, addr(1)));
    assert!(!NameRequest::new(8, "Sir Trout".to_string()).verify(&bytes, owner));
    assert!(!request.verify(&[0u8; 65], owner));
}
