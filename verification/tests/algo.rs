use nftrout_indexer::eth::Address;
use nftrout_indexer::nftrout::algo::{
    common_ancestors, inbreeding, make_graph, Ancestors, PathRule,
};
use nftrout_indexer::nftrout::{Coi, TokenForUi, TroutId};

const CHAIN: u32 = 23294;

fn id(token_id: u32) -> TroutId {
    TroutId { chain_id: CHAIN, token_id }
}

fn listed(token_id: u32, parents: Option<(u32, u32)>) -> TokenForUi {
    TokenForUi {
        id: token_id,
        owner: Address { high: 0, low: 1 },
        name: "trout".to_string(),
        coi: Coi::Unknown,
        fee: None,
        parents: parents.map(|(left, right)| (id(left), id(right))),
        pending: false,
    }
}

fn value(coi: &Coi) -> f64 {
    match coi {
        Coi::Unknown => -1.0,
        Coi::Paths(exponents) => exponents.iter().map(|e| 0.5f64.powf(*e as f64)).sum(),
    }
}

#[test]
fn same_ancestor_twice() {
    let g = make_graph(&vec![
        listed(0, None),
        listed(1, Some((0, 0))),
        listed(2, Some((0, 0))),
        listed(3, Some((1, 2))),
    ]);
    let coi = inbreeding(&g, id(3));
    assert_eq!(coi, Coi::Paths(vec![3]));
    assert_eq!(value(&coi), 0.125);
}

#[test]
fn breeding_of_unrelated_parents() {
    let mut g = make_graph(&vec![listed(3, None), listed(5, None)]);
    g.add_node(id(9));
    assert!(g.adopt(id(9), id(3)));
    assert!(g.adopt(id(9), id(5)));
    assert_eq!(g.parents(id(9)), vec![id(3), id(5)]);
    assert!(g.contains(id(9)));
    let coi = inbreeding(&g, id(9));
    assert_eq!(coi, Coi::Paths(vec![]));
    assert_eq!(value(&coi), 0.0);
}

#[test]
fn fewer_than_two_parents_means_zero() {
    let mut g = Ancestors::new();
    g.add_node(id(1));
    g.add_node(id(2));
    g.add_edge(id(2), id(1));
    assert_eq!(inbreeding(&g, id(1)), Coi::zero());
    assert_eq!(inbreeding(&g, id(2)), Coi::zero());
    assert_eq!(inbreeding(&g, id(77)), Coi::zero());
    assert_eq!(g.inbreeding_by(id(2), PathRule::All), Coi::zero());
}

#[test]
fn the_same_parent_on_both_sides_is_one_parent() {
    let g = make_graph(&vec![listed(1, None), listed(2, Some((1, 1)))]);
    assert_eq!(g.parents(id(2)), vec![id(1)]);
    assert_eq!(inbreeding(&g, id(2)), Coi::zero());
}

#[test]
fn no_token_gets_a_third_parent() {
    let mut g = make_graph(&vec![listed(4, Some((1, 2)))]);
    assert!(g.contains(id(1)));
    assert!(g.contains(id(2)));
    assert!(!g.accepts_parent(id(4), id(3)));
    assert!(g.accepts_parent(id(4), id(2)));
    assert!(!g.adopt(id(4), id(3)));
    assert!(!g.contains(id(3)));
    assert_eq!(g.parents(id(4)), vec![id(1), id(2)]);
    let again = make_graph(&vec![listed(4, Some((1, 2))), listed(4, Some((3, 1)))]);
    assert_eq!(again.parents(id(4)), vec![id(1), id(2)]);
}

#[test]
fn a_parent_that_is_an_ancestor_of_the_other() {
    // 1 is the parent of 2; 3 has the parents 1 and 2.
    let g = make_graph(&vec![listed(1, None), listed(2, Some((1, 1))), listed(3, Some((1, 2)))]);
    let coi = inbreeding(&g, id(3));
    assert_eq!(coi, Coi::Paths(vec![2]));
    assert_eq!(value(&coi), 0.25);
}

#[test]
fn shortest_path_and_all_paths() {
    // 5 and 6 are full siblings of the parents 3 and 4, which are full
    // siblings of the parents 1 and 2.
    let g = make_graph(&vec![
        listed(1, None),
        listed(2, None),
        listed(3, Some((1, 2))),
        listed(4, Some((1, 2))),
        listed(5, Some((3, 4))),
        listed(6, Some((3, 4))),
        listed(7, Some((5, 6))),
    ]);
    let shortest = inbreeding(&g, id(7));
    assert_eq!(shortest, Coi::Paths(vec![3, 3, 5, 5]));
    assert_eq!(value(&shortest), 0.3125);
    let all = g.inbreeding_by(id(7), PathRule::All);
    assert_eq!(all, Coi::Paths(vec![3, 3, 5, 5, 5, 5, 5, 5, 5, 5]));
    assert_eq!(value(&all), 0.5);
}

#[test]
fn ancestors_are_found_breadth_first() {
    let g = make_graph(&vec![
        listed(1, None),
        listed(2, None),
        listed(3, Some((1, 2))),
        listed(4, Some((3, 2))),
    ]);
    assert_eq!(
        g.ancestors_of((CHAIN, 4)),
        vec![(CHAIN, 4), (CHAIN, 3), (CHAIN, 2), (CHAIN, 1)]
    );
    assert_eq!(g.ancestors_of((CHAIN, 1)), vec![(CHAIN, 1)]);
    assert_eq!(g.ancestors_of((CHAIN, 99)), vec![(CHAIN, 99)]);
}

#[test]
fn common_ancestors_keep_the_order_of_the_first() {
    let a = vec![(1, 4), (1, 3), (1, 2), (1, 1)];
    let b = vec![(1, 1), (1, 5), (1, 3)];
    assert_eq!(common_ancestors(&a, &b), vec![(1, 3), (1, 1)]);
    assert_eq!(common_ancestors(&a, &vec![]), vec![]);
    assert_eq!(common_ancestors(&vec![], &b), vec![]);
}

#[test]
fn loops_are_counted_for_each_common_ancestor() {
    let g = make_graph(&vec![
        listed(1, None),
        listed(2, None),
        listed(3, Some((1, 2))),
        listed(4, Some((1, 2))),
    ]);
    let common = vec![(CHAIN, 1), (CHAIN, 2)];
    assert_eq!(
        g.loop_terms(PathRule::Shortest, &common, (CHAIN, 3), (CHAIN, 4)),
        vec![3, 3]
    );
    assert_eq!(
        g.loop_terms(PathRule::Shortest, &vec![(CHAIN, 9)], (CHAIN, 3), (CHAIN, 4)),
        Vec::<u128>::new()
    );
}

#[test]
fn a_cycle_does_not_trap_the_search() {
    let mut g = Ancestors::new();
    g.add_node(id(1));
    g.add_edge(id(1), id(2));
    g.add_edge(id(2), id(1));
    g.add_edge(id(3), id(1));
    g.add_edge(id(3), id(2));
    assert_eq!(inbreeding(&g, id(3)), Coi::Paths(vec![2, 2]));
}
