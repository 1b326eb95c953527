use nftrout_indexer::db::{Db, DriverError, Error};
use nftrout_indexer::eth::{u256_to_hex, Address, U256};
use nftrout_indexer::ipfs::Cid;
use nftrout_indexer::nftrout::{
    Coi, Event, EventKindForUi, PendingToken, TokenEvent, TokenEventKind, TroutAttributes,
    TroutId, TroutMetadata, TroutProperties, TroutToken,
};
use rand::Rng as _;

const CHAIN: u32 = 31337;

fn record(db: &mut Db, batch: &Vec<Event>) {
    let mut tx = db.with_tx();
    tx.record_events(CHAIN, batch).unwrap();
    db.commit(tx);
}

fn integrate(db: &mut Db, batch: &Vec<Event>) {
    let mut tx = db.with_tx();
    nftrout_indexer::indexer::integrate_token_events(&mut tx, CHAIN, batch).unwrap();
    db.commit(tx);
}

fn test_cid() -> Cid {
    let mut rng = rand::thread_rng();
    let text = (0..32)
        .map(|_| rng.sample(rand::distributions::Alphanumeric) as char)
        .collect::<String>();
    Cid::from(&text)
}

fn test_trout_id() -> TroutId {
    TroutId {
        chain_id: 31337,
        token_id: rand::random(),
    }
}

fn test_token() -> TroutToken {
    TroutToken {
        cid: test_cid(),
        meta: TroutMetadata {
            description: "A test trout is for testing".into(),
            image: test_cid(),
            metadata: test_cid(),
            name: "Test TROUT".into(),
            properties: TroutProperties {
                version: 1,
                generations: vec![test_cid(), test_cid()],
                left: None,
                right: None,
                self_id: test_trout_id(),
                attributes: TroutAttributes {
                    genesis: rand::random(),
                    santa: rand::random(),
                },
            },
        },
        owner: Address { high: 0, low: 0xa1 },
        fee: None,
        coi: Coi::Unknown,
    }
}

fn token_numbered(number: u32, left: Option<u32>, right: Option<u32>) -> TroutToken {
    let mut token = test_token();
    token.meta.properties.self_id = TroutId { chain_id: CHAIN, token_id: number };
    token.meta.properties.left = left.map(|token_id| TroutId { chain_id: CHAIN, token_id });
    token.meta.properties.right = right.map(|token_id| TroutId { chain_id: CHAIN, token_id });
    token.meta.properties.version = 3;
    token
}

fn addr(low: u128) -> Address {
    Address { high: 0, low }
}

fn spawn(id: u32, to: Address, block: u64, log_index: u64) -> Event {
    Event::Token(TokenEvent { token: id, kind: TokenEventKind::Spawned { to }, block, log_index })
}

fn transfer(id: u32, from: Address, to: Address, block: u64, log_index: u64) -> Event {
    Event::Token(TokenEvent {
        token: id,
        kind: TokenEventKind::Transfer { from, to },
        block,
        log_index,
    })
}

fn relist(id: u32, fee: Option<u64>, block: u64, log_index: u64) -> Event {
    Event::Token(TokenEvent {
        token: id,
        kind: TokenEventKind::Relisted { fee: fee.map(U256::from_u64) },
        block,
        log_index,
    })
}

#[test]
fn token_cid() {
    let mut db = Db::open_in_memory().unwrap();
    let conn = db.with_conn();
    let tt1 = test_token();
    let tt2 = test_token();

    conn.insert_tokens(&vec![tt1.clone(), tt2.clone()]).unwrap();

    let tt1_cid_latest = conn.token_cid(&tt1.meta.properties.self_id, None).unwrap();
    assert_eq!(tt1_cid_latest.unwrap(), tt1.cid);

    let tt2_cid_latest = conn.token_cid(&tt2.meta.properties.self_id, None).unwrap();
    assert_eq!(tt2_cid_latest.unwrap(), tt2.cid);

    let tt1_cid_old = conn.token_cid(&tt1.meta.properties.self_id, Some(0)).unwrap();
    assert_eq!(tt1_cid_old.unwrap(), tt1.meta.properties.generations[0]);

    assert!(conn.token_cid(&test_trout_id(), None).unwrap().is_none());
}

#[test]
fn duplicate_token() {
    let mut db = Db::open_in_memory().unwrap();
    let conn = db.with_conn();
    let token = test_token();
    conn.insert_tokens(&vec![token.clone(), token]).unwrap_err();
}

#[test]
fn duplicate_token_changes_nothing() {
    let mut db = Db::open_in_memory().unwrap();
    let conn = db.with_conn();
    let first = token_numbered(1, None, None);
    let second = token_numbered(2, None, None);
    conn.insert_tokens(&vec![first.clone()]).unwrap();
    let before = conn.list_tokens_for_ui(None).unwrap();
    let res = conn.insert_tokens(&vec![second.clone(), first.clone()]);
    assert_eq!(res, Err(Error::Driver(DriverError::ConstraintViolation)));
    assert_eq!(conn.list_tokens_for_ui(None).unwrap(), before);
    assert!(conn.token_cid(&second.meta.properties.self_id, None).unwrap().is_none());
}

#[test]
fn insert_same_token_twice_keeps_one_metadata() {
    let mut db = Db::open_in_memory().unwrap();
    let conn = db.with_conn();
    let token = token_numbered(4, None, None);
    conn.insert_tokens(&vec![token.clone()]).unwrap();
    let before = conn.list_tokens_for_ui(None).unwrap();
    let generations = conn.generations(&token.meta.properties.self_id);
    conn.insert_tokens(&vec![token.clone()]).unwrap_err();
    assert_eq!(conn.list_tokens_for_ui(None).unwrap(), before);
    assert_eq!(conn.generations(&token.meta.properties.self_id), generations);
    assert_eq!(before.len(), 1);
}

#[test]
fn generations_are_numbered_without_gap() {
    let mut db = Db::open_in_memory().unwrap();
    let conn = db.with_conn();
    let token = token_numbered(4, None, None);
    conn.insert_tokens(&vec![token.clone()]).unwrap();
    let generations = conn.generations(&token.meta.properties.self_id);
    assert_eq!(generations.len(), 3);
    for (k, generation) in generations.iter().enumerate() {
        assert_eq!(generation.ord, k);
        assert!(!generation.pinned);
        assert_eq!(generation.pin_fails, 0);
    }
    assert_eq!(generations[0].cid, token.meta.properties.generations[0]);
    assert_eq!(generations[1].cid, token.meta.properties.generations[1]);
    assert_eq!(generations[2].cid, token.cid);
    assert_eq!(
        conn.token_cid(&token.meta.properties.self_id, Some(2)).unwrap(),
        Some(token.cid.clone())
    );
    assert_eq!(conn.token_cid(&token.meta.properties.self_id, Some(3)).unwrap(), None);
}

#[test]
fn open_applies_all_migrations() {
    let mut db = Db::open("nftrout.sqlite".to_string()).unwrap();
    assert_eq!(db.connection_string(), "nftrout.sqlite");
    assert_eq!(Db::migrations().len(), 2);
    assert_eq!(db.with_conn().user_version(), 2);
    let scripts = Db::migrations();
    let mut tx = db.with_tx();
    assert_eq!(tx.migrate(&scripts), Ok(2));
    db.commit(tx);
    assert_eq!(db.with_conn().user_version(), 2);
    assert!(db.with_conn().list_tokens_for_ui(None).unwrap().is_empty());
    assert_eq!(db.with_conn().latest_processed_block(CHAIN), Ok(0));
}

#[test]
fn fresh_spawn() {
    let mut db = Db::open_in_memory().unwrap();
    let batch = vec![spawn(7, addr(0xa1), 100, 0), Event::ProcessedBlock(100)];
    integrate(&mut db, &batch);
    record(&mut db, &batch);
    let conn = db.with_conn();
    let tokens = conn.list_tokens_for_ui(Some(CHAIN)).unwrap();
    assert_eq!(tokens.len(), 1);
    assert_eq!(tokens[0].id, 7);
    assert_eq!(tokens[0].owner, addr(0xa1));
    assert_eq!(
        nftrout_indexer::eth::addr_to_hex(&tokens[0].owner),
        "0x00000000000000000000000000000000000000a1"
    );
    assert!(tokens[0].pending);
    assert_eq!(conn.outdated_token_ids(CHAIN).unwrap(), vec![7]);
    assert!(conn.latest_processed_block(CHAIN).unwrap() >= 100);
    assert_eq!(conn.latest_known_token_id(CHAIN).unwrap(), Some(7));
}

#[test]
fn listing_then_delisting() {
    let mut db = Db::open_in_memory().unwrap();
    let token = token_numbered(7, None, None);
    db.with_conn().insert_tokens(&vec![token]).unwrap();
    let batch = vec![
        relist(7, Some(1000), 101, 0),
        Event::ProcessedBlock(101),
        relist(7, None, 102, 0),
        Event::ProcessedBlock(102),
    ];
    integrate(&mut db, &batch);
    record(&mut db, &batch);
    let conn = db.with_conn();
    let tokens = conn.list_tokens_for_ui(Some(CHAIN)).unwrap();
    assert_eq!(tokens[0].fee, None);
    let events = conn.events();
    assert_eq!(events.len(), 2);
    let fees: Vec<Option<String>> = events
        .iter()
        .map(|e| match e.kind {
            TokenEventKind::Relisted { fee } => fee.as_ref().map(u256_to_hex),
            _ => panic!("not a listing"),
        })
        .collect();
    assert_eq!(fees, vec![Some("0x3e8".to_string()), None]);
    assert_eq!(conn.latest_processed_block(CHAIN), Ok(102));
}

#[test]
fn listing_sets_fee() {
    let mut db = Db::open_in_memory().unwrap();
    db.with_conn().insert_tokens(&vec![token_numbered(7, None, None)]).unwrap();
    db.with_conn().update_fees(CHAIN, &vec![(7, Some(U256::from_u64(1000))), (8, None)]).unwrap();
    let tokens = db.with_conn().list_tokens_for_ui(Some(CHAIN)).unwrap();
    assert_eq!(tokens.len(), 1);
    assert_eq!(tokens[0].fee, Some(U256::from_u64(1000)));
}

#[test]
fn same_event_twice_is_recorded_once() {
    let mut db = Db::open_in_memory().unwrap();
    let first = vec![transfer(7, addr(1), addr(2), 100, 3)];
    let again = vec![transfer(7, addr(5), addr(6), 100, 3)];
    record(&mut db, &first);
    let once = db.with_conn().events();
    record(&mut db, &first);
    assert_eq!(db.with_conn().events(), once);
    record(&mut db, &again);
    assert_eq!(db.with_conn().events(), once);
    assert_eq!(once.len(), 1);
}

#[test]
fn recording_a_batch_twice_is_like_once() {
    let mut db = Db::open_in_memory().unwrap();
    let batch = vec![
        spawn(1, addr(1), 10, 0),
        transfer(1, addr(1), addr(2), 10, 1),
        Event::ProcessedBlock(10),
        relist(1, Some(5), 11, 0),
        Event::ProcessedBlock(11),
    ];
    record(&mut db, &batch);
    let events = db.with_conn().events();
    let block = db.with_conn().latest_processed_block(CHAIN).unwrap();
    record(&mut db, &batch);
    assert_eq!(db.with_conn().events(), events);
    assert_eq!(db.with_conn().latest_processed_block(CHAIN).unwrap(), block);
    assert_eq!(events.len(), 3);
    assert_eq!(block, 11);
}

#[test]
fn watermark_never_falls() {
    let mut db = Db::open_in_memory().unwrap();
    record(&mut db, &vec![Event::ProcessedBlock(500)]);
    assert_eq!(db.with_conn().latest_processed_block(CHAIN), Ok(500));
    record(&mut db, &vec![Event::ProcessedBlock(100)]);
    assert_eq!(db.with_conn().latest_processed_block(CHAIN), Ok(500));
    record(&mut db, &vec![Event::ProcessedBlock(502), Event::ProcessedBlock(501)]);
    assert_eq!(db.with_conn().latest_processed_block(CHAIN), Ok(502));
    record(&mut db, &vec![spawn(1, addr(1), 600, 0)]);
    assert_eq!(db.with_conn().latest_processed_block(CHAIN), Ok(502));
    assert_eq!(db.with_conn().latest_processed_block(CHAIN + 1), Ok(0));
}

#[test]
fn pin_retry_ceiling() {
    let mut db = Db::open_in_memory().unwrap();
    let conn = db.with_conn();
    let mut token = token_numbered(1, None, None);
    token.meta.properties.generations = vec![];
    conn.insert_tokens(&vec![token.clone()]).unwrap();
    assert_eq!(conn.unpinned_cids().unwrap(), vec![token.cid.clone()]);
    for _ in 0..19 {
        conn.mark_pin_failed(&vec![token.cid.clone()]).unwrap();
    }
    let id = token.meta.properties.self_id;
    assert_eq!(conn.generations(&id)[0].pin_fails, 19);
    assert_eq!(conn.unpinned_cids().unwrap(), vec![token.cid.clone()]);
    conn.mark_pin_failed(&vec![token.cid.clone()]).unwrap();
    assert_eq!(conn.generations(&id)[0].pin_fails, 20);
    assert!(conn.unpinned_cids().unwrap().is_empty());
    conn.mark_pin_failed(&vec![token.cid.clone()]).unwrap();
    assert_eq!(conn.generations(&id)[0].pin_fails, 20);
}

#[test]
fn unpinned_cids_leave_out_pinned_and_shelved() {
    let mut db = Db::open_in_memory().unwrap();
    let conn = db.with_conn();
    let token = token_numbered(1, None, None);
    conn.insert_tokens(&vec![token.clone()]).unwrap();
    let history = token.meta.properties.generations.clone();
    assert_eq!(
        conn.unpinned_cids().unwrap(),
        vec![history[0].clone(), history[1].clone(), token.cid.clone()]
    );
    conn.mark_pinned(&vec![history[0].clone()]).unwrap();
    for _ in 0..20 {
        conn.mark_pin_failed(&vec![history[1].clone()]).unwrap();
    }
    assert_eq!(conn.unpinned_cids().unwrap(), vec![token.cid.clone()]);
    let generations = conn.generations(&token.meta.properties.self_id);
    assert!(generations[0].pinned);
    assert_eq!(generations[1].pin_fails, 20);
    conn.mark_pinned(&vec![token.cid.clone()]).unwrap();
    assert!(conn.unpinned_cids().unwrap().is_empty());
}

#[test]
fn listing_has_one_row_for_each_token() {
    let mut db = Db::open_in_memory().unwrap();
    let conn = db.with_conn();
    conn.insert_pending_tokens(
        CHAIN,
        &vec![
            (9, PendingToken { id: 9, owner: addr(9) }),
            (2, PendingToken { id: 2, owner: addr(2) }),
        ],
    )
    .unwrap();
    conn.insert_pending_tokens(7, &vec![(2, PendingToken { id: 2, owner: addr(3) })]).unwrap();
    conn.insert_tokens(&vec![token_numbered(5, Some(2), Some(9)), token_numbered(2, None, None)])
        .unwrap();
    let rows = conn.list_tokens_for_ui(Some(CHAIN)).unwrap();
    assert_eq!(rows.iter().map(|r| r.id).collect::<Vec<_>>(), vec![2, 5, 9]);
    assert_eq!(rows.iter().map(|r| r.pending).collect::<Vec<_>>(), vec![false, false, true]);
    assert_eq!(
        rows[1].parents,
        Some((
            TroutId { chain_id: CHAIN, token_id: 2 },
            TroutId { chain_id: CHAIN, token_id: 9 }
        ))
    );
    assert_eq!(rows[0].owner, addr(2));
    assert_eq!(rows[0].name, "Test TROUT");
    assert_eq!(rows[2].name, "");
    assert_eq!(conn.list_tokens_for_ui(None).unwrap().len(), 4);
    assert_eq!(conn.list_tokens_for_ui(Some(7)).unwrap().len(), 1);
    assert_eq!(conn.token_ids(CHAIN).unwrap(), vec![2, 5, 9]);
    assert_eq!(conn.latest_known_token_id(CHAIN).unwrap(), Some(9));
    assert_eq!(conn.latest_known_token_id(8).unwrap(), None);
    assert_eq!(conn.outdated_token_ids(CHAIN).unwrap(), vec![9]);
}

#[test]
fn pending_insertion_keeps_what_is_known() {
    let mut db = Db::open_in_memory().unwrap();
    let conn = db.with_conn();
    conn.insert_pending_tokens(CHAIN, &vec![(1, PendingToken { id: 1, owner: addr(1) })]).unwrap();
    conn.insert_pending_tokens(CHAIN, &vec![(1, PendingToken { id: 1, owner: addr(2) })]).unwrap();
    let rows = conn.list_tokens_for_ui(Some(CHAIN)).unwrap();
    assert_eq!(rows.len(), 1);
    assert_eq!(rows[0].owner, addr(1));
    conn.update_owners(CHAIN, &vec![(1, addr(3)), (1, addr(4)), (2, addr(5))]).unwrap();
    let rows = conn.list_tokens_for_ui(Some(CHAIN)).unwrap();
    assert_eq!(rows.len(), 1);
    assert_eq!(rows[0].owner, addr(4));
}

#[test]
fn names_and_cois_are_set_on_indexed_tokens_only() {
    let mut db = Db::open_in_memory().unwrap();
    let conn = db.with_conn();
    conn.insert_pending_tokens(CHAIN, &vec![(1, PendingToken { id: 1, owner: addr(1) })]).unwrap();
    conn.insert_tokens(&vec![token_numbered(2, None, None)]).unwrap();
    let one = TroutId { chain_id: CHAIN, token_id: 1 };
    let two = TroutId { chain_id: CHAIN, token_id: 2 };
    assert_eq!(conn.needs_coi_analysis().unwrap(), vec![two]);
    conn.set_token_name(one, "Uno").unwrap();
    conn.set_token_name(two, "Due").unwrap();
    conn.set_cois(&vec![(one, Coi::Paths(vec![3])), (two, Coi::Paths(vec![3]))]).unwrap();
    let rows = conn.list_tokens_for_ui(Some(CHAIN)).unwrap();
    assert_eq!(rows[0].name, "");
    assert_eq!(rows[0].coi, Coi::Unknown);
    assert_eq!(rows[1].name, "Due");
    assert_eq!(rows[1].coi, Coi::Paths(vec![3]));
    assert!(conn.needs_coi_analysis().unwrap().is_empty());
}

#[test]
fn breeding_history() {
    let mut db = Db::open_in_memory().unwrap();
    db.with_conn()
        .insert_tokens(&vec![
            token_numbered(3, None, None),
            token_numbered(5, None, None),
            token_numbered(9, Some(3), Some(5)),
        ])
        .unwrap();
    let batch = vec![
        spawn(3, addr(0xa), 10, 0),
        spawn(5, addr(0xc), 11, 0),
        relist(5, Some(1000), 12, 0),
        transfer(5, addr(0xc), addr(0xd), 13, 0),
        relist(5, Some(2000), 14, 0),
        spawn(9, addr(0xb), 200, 0),
        relist(5, Some(3000), 200, 1),
        transfer(5, addr(0xd), addr(0xe), 201, 0),
    ];
    record(&mut db, &batch);
    let conn = db.with_conn();
    let three = TroutId { chain_id: CHAIN, token_id: 3 };
    let five = TroutId { chain_id: CHAIN, token_id: 5 };
    let nine = TroutId { chain_id: CHAIN, token_id: 9 };
    let of_five = conn.token_events(five).unwrap();
    assert_eq!(of_five.len(), 1);
    assert_eq!(of_five[0].id, five);
    assert_eq!(of_five[0].block, 200);
    assert_eq!(
        of_five[0].kind,
        EventKindForUi::Breed {
            breeder: addr(0xb),
            child: nine,
            coparent: three,
            price: U256::from_u64(2000),
            owner: addr(0xd),
        }
    );
    let of_three = conn.token_events(three).unwrap();
    assert_eq!(of_three.len(), 1);
    assert_eq!(
        of_three[0].kind,
        EventKindForUi::Breed {
            breeder: addr(0xb),
            child: nine,
            coparent: five,
            price: U256::from_u64(0),
            owner: addr(0xa),
        }
    );
    assert!(conn.token_events(nine).unwrap().is_empty());
}

#[test]
fn breeding_with_own_token_is_free() {
    let mut db = Db::open_in_memory().unwrap();
    db.with_conn()
        .insert_tokens(&vec![token_numbered(3, None, None), token_numbered(9, Some(3), Some(3))])
        .unwrap();
    let batch = vec![
        spawn(3, addr(0xa), 10, 0),
        relist(3, Some(1000), 12, 0),
        spawn(9, addr(0xa), 200, 0),
    ];
    record(&mut db, &batch);
    let three = TroutId { chain_id: CHAIN, token_id: 3 };
    let events = db.with_conn().token_events(three).unwrap();
    assert_eq!(events.len(), 2);
    for event in events {
        assert_eq!(
            event.kind,
            EventKindForUi::Breed {
                breeder: addr(0xa),
                child: TroutId { chain_id: CHAIN, token_id: 9 },
                coparent: three,
                price: U256::from_u64(0),
                owner: addr(0xa),
            }
        );
    }
}

#[test]
fn breeding_history_needs_the_owner() {
    let mut db = Db::open_in_memory().unwrap();
    db.with_conn()
        .insert_tokens(&vec![token_numbered(3, None, None), token_numbered(9, Some(3), Some(5))])
        .unwrap();
    record(&mut db, &vec![spawn(9, addr(0xb), 200, 0)]);
    let three = TroutId { chain_id: CHAIN, token_id: 3 };
    assert_eq!(
        db.with_conn().token_events(three),
        Err(Error::Driver(DriverError::MissingValue))
    );
}

#[test]
fn restore_takes_consistent_rows_only() {
    let mut db = Db::open_in_memory().unwrap();
    db.with_conn()
        .insert_tokens(&vec![token_numbered(5, Some(2), Some(9)), token_numbered(2, None, None)])
        .unwrap();
    db.with_conn()
        .insert_pending_tokens(CHAIN, &vec![(9, PendingToken { id: 9, owner: addr(9) })])
        .unwrap();
    let batch = vec![spawn(9, addr(9), 10, 0), Event::ProcessedBlock(10)];
    record(&mut db, &batch);
    let tokens = db.with_conn().tokens();
    let events = db.with_conn().events();
    assert_eq!(tokens.iter().map(|t| t.id.token_id).collect::<Vec<_>>(), vec![2, 5, 9]);
    let mut again =
        Db::restore("copy".to_string(), tokens, events.clone(), &vec![(CHAIN, 10)]).unwrap();
    assert_eq!(
        again.with_conn().list_tokens_for_ui(None).unwrap(),
        db.with_conn().list_tokens_for_ui(None).unwrap()
    );
    assert_eq!(again.with_conn().events(), events);
    assert_eq!(again.with_conn().latest_processed_block(CHAIN), Ok(10));
    assert_eq!(again.with_conn().user_version(), 2);
    assert_eq!(again.connection_string(), "copy");

    let mut unsorted = db.with_conn().tokens();
    unsorted.swap(0, 1);
    assert!(Db::restore("x".to_string(), unsorted, vec![], &vec![]).is_err());
    let mut gap = db.with_conn().tokens();
    gap[0].generations[1].ord = 5;
    assert!(Db::restore("x".to_string(), gap, vec![], &vec![]).is_err());
    let mut shelved = db.with_conn().tokens();
    shelved[0].generations[0].pin_fails = 21;
    assert!(Db::restore("x".to_string(), shelved, vec![], &vec![]).is_err());
    let mut analysed = db.with_conn().tokens();
    analysed[2].coi = Coi::zero();
    assert!(Db::restore("x".to_string(), analysed, vec![], &vec![]).is_err());
    let twice = vec![events[0], events[0]];
    assert_eq!(
        Db::restore("x".to_string(), vec![], twice, &vec![]).err(),
        Some(Error::Driver(DriverError::ConstraintViolation))
    );
}

#[test]
fn a_unit_of_work_reaches_the_store_when_committed() {
    let mut db = Db::open_in_memory().unwrap();
    let batch = vec![spawn(1, addr(1), 10, 0), Event::ProcessedBlock(10)];
    let mut dropped = db.with_tx();
    dropped.record_events(CHAIN, &batch).unwrap();
    dropped.0.insert_tokens(&vec![token_numbered(1, None, None)]).unwrap();
    assert_eq!(dropped.0.events().len(), 1);
    drop(dropped);
    assert!(db.with_conn().events().is_empty());
    assert!(db.with_conn().list_tokens_for_ui(None).unwrap().is_empty());
    assert_eq!(db.with_conn().latest_processed_block(CHAIN), Ok(0));

    let mut kept = db.with_tx();
    kept.record_events(CHAIN, &batch).unwrap();
    kept.0.insert_tokens(&vec![token_numbered(1, None, None)]).unwrap();
    assert!(db.with_conn().events().is_empty());
    db.commit(kept);
    assert_eq!(db.with_conn().events().len(), 1);
    assert_eq!(db.with_conn().list_tokens_for_ui(None).unwrap().len(), 1);
    assert_eq!(db.with_conn().latest_processed_block(CHAIN), Ok(10));

    let conn = db.with_conn();
    let mut inner = conn.with_tx();
    inner.record_events(CHAIN, &vec![Event::ProcessedBlock(11)]).unwrap();
    conn.commit(inner);
    assert_eq!(conn.latest_processed_block(CHAIN), Ok(11));
}
