use std::collections::HashMap;

use nftrout_indexer::db::{Db, DriverError, Error};
use nftrout_indexer::eth::{Address, U256};
use nftrout_indexer::indexer::{
    aggregate, analyse, assemble, batch_after, batch_fees, batch_ids, batch_owners, batch_size,
    event_plan, gaps, graft, index_ownership_and_fees, index_tokens, integrate_token_events,
    new_token_ids, record_backfill_chunk, record_pin_results, record_realtime_chunk,
    skipped_token_ids, startup_plan, transfers_are_chained, Fetched, StartupStep,
};
use nftrout_indexer::ipfs::Cid;
use nftrout_indexer::nftrout::algo::{make_graph, Ancestors};
use nftrout_indexer::nftrout::{
    Coi, Event, PendingToken, TokenEvent, TokenEventKind, TroutAttributes, TroutId,
    TroutMetadata, TroutProperties, TroutToken,
};

const CHAIN: u32 = 23294;

fn record(db: &mut Db, batch: &Vec<Event>) {
    let mut tx = db.with_tx();
    tx.record_events(CHAIN, batch).unwrap();
    db.commit(tx);
}

fn integrate(db: &mut Db, batch: &Vec<Event>) {
    let mut tx = db.with_tx();
    integrate_token_events(&mut tx, CHAIN, batch).unwrap();
    db.commit(tx);
}

fn addr(low: u128) -> Address {
    Address { high: 0, low }
}

fn id(token_id: u32) -> TroutId {
    TroutId { chain_id: CHAIN, token_id }
}

fn spawn(token: u32, to: Address, block: u64, log_index: u64) -> Event {
    Event::Token(TokenEvent { token, kind: TokenEventKind::Spawned { to }, block, log_index })
}

fn transfer(token: u32, from: Address, to: Address, block: u64, log_index: u64) -> Event {
    Event::Token(TokenEvent {
        token,
        kind: TokenEventKind::Transfer { from, to },
        block,
        log_index,
    })
}

fn relist(token: u32, fee: Option<u64>, block: u64, log_index: u64) -> Event {
    Event::Token(TokenEvent {
        token,
        kind: TokenEventKind::Relisted { fee: fee.map(U256::from_u64) },
        block,
        log_index,
    })
}

fn metadata(number: u32, left: Option<u32>, right: Option<u32>) -> TroutMetadata {
    TroutMetadata {
        description: "A test trout is for testing".into(),
        image: Cid::from("image"),
        metadata: Cid::from("metadata"),
        name: format!("Trout {number}"),
        properties: TroutProperties {
            version: 3,
            generations: vec![Cid::from(&format!("first-{number}"))],
            left: left.map(id),
            right: right.map(id),
            self_id: id(number),
            attributes: TroutAttributes { genesis: left.is_none(), santa: false },
        },
    }
}

fn fetched(number: u32, left: Option<u32>, right: Option<u32>) -> Option<Fetched> {
    Some(Fetched { cid: Cid::from(&format!("cid-{number}")), meta: metadata(number, left, right) })
}

fn token(number: u32, left: Option<u32>, right: Option<u32>) -> TroutToken {
    TroutToken {
        cid: Cid::from(&format!("cid-{number}")),
        meta: metadata(number, left, right),
        owner: addr(number as u128),
        fee: None,
        coi: Coi::Unknown,
    }
}

#[test]
fn gaps_of_nothing() {
    assert_eq!(gaps(&vec![], 0), Vec::<u32>::new());
}

#[test]
fn gaps_boundaries() {
    assert_eq!(gaps(&vec![1, 2, 3], 3), Vec::<u32>::new());
    assert_eq!(gaps(&vec![2], 3), vec![1, 3]);
    assert_eq!(gaps(&vec![], 3), vec![1, 2, 3]);
}

#[test]
fn gaps_between_known_numbers() {
    assert_eq!(gaps(&vec![1, 2, 4, 7], 7), vec![3, 5, 6]);
    assert_eq!(gaps(&vec![1, 2, 4, 7], 5), vec![3, 5]);
}

#[test]
fn skipped_tokens_lie_below_the_latest() {
    assert_eq!(skipped_token_ids(&vec![]), Vec::<u32>::new());
    assert_eq!(skipped_token_ids(&vec![3]), vec![1, 2]);
    assert_eq!(skipped_token_ids(&vec![1, 2, 5, 6]), vec![3, 4]);
}

#[test]
fn new_tokens_lie_above_the_latest() {
    assert_eq!(new_token_ids(None, 3), vec![1, 2, 3]);
    assert_eq!(new_token_ids(Some(3), 5), vec![4, 5]);
    assert_eq!(new_token_ids(Some(5), 5), Vec::<u32>::new());
    assert_eq!(new_token_ids(Some(7), 5), Vec::<u32>::new());
    assert_eq!(new_token_ids(Some(u32::MAX), u32::MAX), Vec::<u32>::new());
    assert_eq!(new_token_ids(None, 0), Vec::<u32>::new());
}

#[test]
fn batches_cover_the_supply() {
    assert_eq!(batch_size(None), 50);
    assert_eq!(batch_size(Some(7)), 7);
    assert_eq!(batch_after(0, 120, 50), Some((1, 50)));
    assert_eq!(batch_after(50, 120, 50), Some((51, 100)));
    assert_eq!(batch_after(100, 120, 50), Some((101, 120)));
    assert_eq!(batch_after(120, 120, 50), None);
    assert_eq!(batch_after(0, 0, 50), None);
    assert_eq!(batch_after(u32::MAX - 1, u32::MAX, usize::MAX), Some((u32::MAX, u32::MAX)));
    assert_eq!(batch_ids(101, 104), vec![101, 102, 103, 104]);
    assert_eq!(batch_ids(5, 4), Vec::<u32>::new());
}

#[test]
fn watermark_resume() {
    let plan = event_plan(500, 500);
    assert_eq!(plan.realtime_start, 501);
    assert_eq!((plan.backfill_start, plan.backfill_stop), (500, 500));
    let from_scratch = event_plan(0, 500);
    assert_eq!((from_scratch.backfill_start, from_scratch.backfill_stop), (0, 500));
    assert_eq!(from_scratch.realtime_start, 501);
}

#[test]
fn the_last_event_of_a_token_wins() {
    let batch = vec![
        relist(1, Some(5), 10, 0),
        transfer(2, addr(1), addr(2), 10, 1),
        spawn(3, addr(7), 10, 2),
        Event::ProcessedBlock(10),
        relist(1, None, 11, 0),
        transfer(2, addr(2), addr(3), 11, 1),
        spawn(3, addr(8), 11, 2),
        relist(4, Some(9), 11, 3),
    ];
    let changes = aggregate(&batch);
    assert_eq!(changes.fee_changes, vec![(1, None), (4, Some(U256::from_u64(9)))]);
    assert_eq!(changes.ownership_changes, vec![(2, addr(3))]);
    assert_eq!(changes.pending_tokens, vec![(3, PendingToken { id: 3, owner: addr(8) })]);
    assert!(transfers_are_chained(&batch));
    let broken = vec![transfer(2, addr(1), addr(2), 10, 1), transfer(2, addr(9), addr(3), 11, 1)];
    assert!(!transfers_are_chained(&broken));
    assert!(transfers_are_chained(&vec![]));
}

#[test]
fn an_empty_batch_changes_nothing() {
    let mut db = Db::open_in_memory().unwrap();
    db.with_conn().insert_tokens(&vec![token(1, None, None)]).unwrap();
    let before = db.with_conn().list_tokens_for_ui(None).unwrap();
    integrate(&mut db, &vec![Event::ProcessedBlock(3)]);
    assert_eq!(db.with_conn().list_tokens_for_ui(None).unwrap(), before);
}

#[test]
fn events_change_fees_owners_and_pending_tokens() {
    let mut db = Db::open_in_memory().unwrap();
    db.with_conn().insert_tokens(&vec![token(1, None, None)]).unwrap();
    let batch = vec![
        relist(1, Some(1000), 10, 0),
        transfer(1, addr(1), addr(0xb0b), 10, 1),
        spawn(2, addr(0xa1), 10, 2),
        spawn(1, addr(0xdead), 10, 3),
    ];
    integrate(&mut db, &batch);
    let rows = db.with_conn().list_tokens_for_ui(Some(CHAIN)).unwrap();
    assert_eq!(rows.len(), 2);
    assert_eq!(rows[0].fee, Some(U256::from_u64(1000)));
    assert_eq!(rows[0].owner, addr(0xb0b));
    assert!(!rows[0].pending);
    assert_eq!(rows[1].owner, addr(0xa1));
    assert!(rows[1].pending);
}

#[test]
fn ownership_and_fees_follow_the_chain() {
    let mut db = Db::open_in_memory().unwrap();
    db.with_conn()
        .insert_tokens(&vec![token(1, None, None), token(2, None, None), token(3, None, None)])
        .unwrap();
    db.with_conn().update_fees(CHAIN, &vec![(1, Some(U256::from_u64(1)))]).unwrap();
    let mut studs = HashMap::new();
    studs.insert(2, U256::from_u64(20));
    let ids = batch_ids(1, 3);
    let owners = vec![addr(0x11), addr(0x12), addr(0x13)];
    assert_eq!(
        batch_fees(&ids, &studs),
        vec![(1, None), (2, Some(U256::from_u64(20))), (3, None)]
    );
    assert_eq!(batch_owners(&ids, &owners[..2].to_vec()), vec![(1, addr(0x11)), (2, addr(0x12))]);
    let mut tx = db.with_tx();
    index_ownership_and_fees(&mut tx, CHAIN, &ids, &owners, &studs).unwrap();
    db.commit(tx);
    let rows = db.with_conn().list_tokens_for_ui(Some(CHAIN)).unwrap();
    assert_eq!(rows.iter().map(|r| r.owner).collect::<Vec<_>>(), owners);
    assert_eq!(
        rows.iter().map(|r| r.fee).collect::<Vec<_>>(),
        vec![None, Some(U256::from_u64(20)), None]
    );
}

#[test]
fn pin_results_are_recorded() {
    let mut db = Db::open_in_memory().unwrap();
    let mut one = token(1, None, None);
    one.meta.properties.generations = vec![];
    let mut two = token(2, None, None);
    two.meta.properties.generations = vec![];
    db.with_conn().insert_tokens(&vec![one, two]).unwrap();
    let results = vec![Err(Cid::from("cid-2")), Ok(Cid::from("cid-1")), Err(Cid::from("cid-2"))];
    record_pin_results(db.with_conn(), &results).unwrap();
    let conn = db.with_conn();
    assert!(conn.generations(&id(1))[0].pinned);
    assert_eq!(conn.generations(&id(1))[0].pin_fails, 0);
    assert!(!conn.generations(&id(2))[0].pinned);
    assert_eq!(conn.generations(&id(2))[0].pin_fails, 2);
    assert_eq!(conn.unpinned_cids().unwrap(), vec![Cid::from("cid-2")]);
}

#[test]
fn tokens_are_put_together() {
    let mut studs = HashMap::new();
    studs.insert(2, U256::from_u64(20));
    let tokens = assemble(
        &vec![1, 2, 3],
        &vec![addr(1), addr(2), addr(3)],
        &studs,
        &vec![fetched(1, None, None), fetched(2, None, None), None],
    );
    assert_eq!(tokens.len(), 2);
    assert_eq!(tokens[0], token(1, None, None));
    assert_eq!(tokens[1].fee, Some(U256::from_u64(20)));
    assert_eq!(tokens[1].owner, addr(2));
    assert_eq!(tokens[1].coi, Coi::Unknown);
    let short = assemble(&vec![1, 2, 3], &vec![addr(1)], &studs, &vec![None, None, None]);
    assert!(short.is_empty());
}

#[test]
fn breeding() {
    let mut db = Db::open_in_memory().unwrap();
    let studs = HashMap::new();
    let mut g = Ancestors::new();
    index_tokens(
        db.with_conn(),
        &mut g,
        &vec![3, 5],
        &vec![addr(3), addr(5)],
        &studs,
        &vec![fetched(3, None, None), fetched(5, None, None)],
    )
    .unwrap();
    let batch = vec![spawn(9, addr(0xb), 200, 0), Event::ProcessedBlock(200)];
    integrate(&mut db, &batch);
    record(&mut db, &batch);
    let latest = db.with_conn().latest_known_token_id(CHAIN).unwrap();
    assert_eq!(new_token_ids(Some(5), 9), vec![6, 7, 8, 9]);
    assert_eq!(latest, Some(9));
    let stored = index_tokens(
        db.with_conn(),
        &mut g,
        &vec![9],
        &vec![addr(0xb)],
        &studs,
        &vec![fetched(9, Some(3), Some(5))],
    )
    .unwrap();
    assert_eq!(stored[0].coi, Coi::zero());
    let rows = db.with_conn().list_tokens_for_ui(Some(CHAIN)).unwrap();
    assert_eq!(rows.len(), 3);
    assert_eq!(rows[2].id, 9);
    assert!(!rows[2].pending);
    assert_eq!(rows[2].parents, Some((id(3), id(5))));
    assert_eq!(rows[2].coi, Coi::zero());
    assert_eq!(rows[2].owner, addr(0xb));
    assert_eq!(g.parents(id(9)), vec![id(3), id(5)]);
    assert_eq!(db.with_conn().latest_known_token_id(CHAIN).unwrap(), Some(9));
    assert_eq!(db.with_conn().token_cid(&id(9), None).unwrap(), Some(Cid::from("cid-9")));
}

#[test]
fn a_missing_parent_leaves_the_coefficient_unknown() {
    let mut g = make_graph(&vec![]);
    let mut tokens = vec![token(9, Some(3), Some(5)), token(3, None, None), token(8, None, Some(3))];
    graft(&mut g, &mut tokens);
    assert_eq!(tokens[0].coi, Coi::Unknown);
    assert_eq!(tokens[1].coi, Coi::zero());
    assert_eq!(tokens[2].coi, Coi::zero());
    assert!(g.contains(id(9)));
    assert!(g.parents(id(9)).is_empty());
    assert!(!g.contains(id(5)));
    assert_eq!(g.parents(id(8)), vec![id(3)]);
    let mut db = Db::open_in_memory().unwrap();
    db.with_conn().insert_tokens(&tokens).unwrap();
    assert_eq!(db.with_conn().needs_coi_analysis().unwrap(), vec![id(9)]);
    let cois = analyse(&g, &vec![id(9)]);
    assert_eq!(cois, vec![(id(9), Coi::zero())]);
    db.with_conn().set_cois(&cois).unwrap();
    assert!(db.with_conn().needs_coi_analysis().unwrap().is_empty());
}

#[test]
fn indexing_a_known_token_again_is_refused() {
    let mut db = Db::open_in_memory().unwrap();
    let studs = HashMap::new();
    let mut g = Ancestors::new();
    let ids = vec![1];
    let owners = vec![addr(1)];
    let found = vec![fetched(1, None, None)];
    index_tokens(db.with_conn(), &mut g, &ids, &owners, &studs, &found).unwrap();
    let before = db.with_conn().list_tokens_for_ui(None).unwrap();
    let again = index_tokens(db.with_conn(), &mut g, &ids, &owners, &studs, &found);
    assert_eq!(again, Err(Error::Driver(DriverError::ConstraintViolation)));
    assert_eq!(db.with_conn().list_tokens_for_ui(None).unwrap(), before);
}

#[test]
fn start_up_goes_in_strict_order() {
    assert_eq!(
        startup_plan(&vec![]),
        vec![
            StartupStep::IndexOwnershipAndFees,
            StartupStep::IndexNewTokens,
            StartupStep::IndexNewVersions,
            StartupStep::StartLoops,
        ]
    );
    assert_eq!(
        startup_plan(&vec![id(1)]),
        vec![
            StartupStep::IndexOwnershipAndFees,
            StartupStep::IndexNewTokens,
            StartupStep::IndexNewVersions,
            StartupStep::AnalyseBacklog,
            StartupStep::StartLoops,
        ]
    );
}

#[test]
fn chunks_of_the_two_loops() {
    let mut db = Db::open_in_memory().unwrap();
    let batch = vec![spawn(7, addr(0xa1), 100, 0), Event::ProcessedBlock(100)];
    record_backfill_chunk(&mut db, CHAIN, &batch).unwrap();
    assert_eq!(db.with_conn().events().len(), 1);
    assert!(db.with_conn().list_tokens_for_ui(None).unwrap().is_empty());
    assert_eq!(db.with_conn().latest_processed_block(CHAIN), Ok(100));

    let next = vec![
        spawn(8, addr(0xa2), 101, 0),
        relist(8, Some(9), 101, 1),
        Event::ProcessedBlock(101),
    ];
    record_realtime_chunk(&mut db, CHAIN, &next).unwrap();
    assert_eq!(db.with_conn().events().len(), 3);
    let rows = db.with_conn().list_tokens_for_ui(Some(CHAIN)).unwrap();
    assert_eq!(rows.len(), 1);
    assert_eq!(rows[0].id, 8);
    assert_eq!(rows[0].owner, addr(0xa2));
    assert!(rows[0].pending);
    assert_eq!(rows[0].fee, None);
    assert_eq!(db.with_conn().latest_processed_block(CHAIN), Ok(101));
    record_realtime_chunk(&mut db, CHAIN, &next).unwrap();
    assert_eq!(db.with_conn().events().len(), 3);
    assert_eq!(db.with_conn().list_tokens_for_ui(Some(CHAIN)).unwrap(), rows);
}
