//! The ancestry graph and the coefficient of inbreeding.

use std::collections::hash_map::RandomState;
use std::hash::BuildHasher;

use petgraph::graphmap::GraphMap;
use petgraph::Directed;
use vstd::prelude::*;

use crate::nftrout::{ChainId, Coi, TokenForUi, TokenId, TroutId};

verus! {

/// A node of the graph: a token's chain and its number there.
pub type Node = (ChainId, TokenId);

/// A directed graph over tokens, without edge weights.
pub type Pedigree = GraphMap<Node, (), Directed, RandomState>;

/// `petgraph::graphmap::GraphMap`, carried as it is: nothing inside it is
/// seen, and all that is known of a graph is what the functions below say.
#[verifier::external_type_specification]
#[verifier::external_body]
#[verifier::reject_recursive_types(N)]
#[verifier::reject_recursive_types(E)]
#[verifier::reject_recursive_types(Ty)]
#[verifier::reject_recursive_types(S)]
pub struct ExGraphMap<N, E, Ty, S: BuildHasher>(GraphMap<N, E, Ty, S>);

/// `petgraph::Directed`, the marker of graphs whose edges have a direction.
#[verifier::external_type_specification]
#[verifier::external_body]
pub struct ExDirected(Directed);

/// What a `petgraph::graphmap::GraphMap` holds: its nodes, each with the
/// nodes that its outgoing edges lead to, in the order in which those
/// edges were added.
pub uninterp spec fn parents_of(graph: Pedigree) -> Map<
    Node,
    Seq<Node>,
>;

/// The order in which `petgraph::visit::Bfs`, a breadth-first search,
/// comes upon the nodes of a graph with the edges `parents` when it begins
/// at `start`.
pub uninterp spec fn bfs_order(parents: Map<Node, Seq<Node>>, start: Node) -> Seq<Node>;

/// A graph without nodes.
pub open spec fn no_nodes() -> Map<Node, Seq<Node>> {
    Map::empty()
}

/// The nodes that the edges of `node` lead to; none where it is no node.
pub open spec fn neighbours(parents: Map<Node, Seq<Node>>, node: Node) -> Seq<Node> {
    if parents.contains_key(node) {
        parents[node]
    } else {
        Seq::empty()
    }
}

/// The edges after `node` was added: a node that is there keeps its edges.
pub open spec fn with_node(parents: Map<Node, Seq<Node>>, node: Node) -> Map<Node, Seq<Node>> {
    if parents.contains_key(node) {
        parents
    } else {
        parents.insert(node, Seq::empty())
    }
}

/// Whether an edge leads from `from` to `to`.
pub open spec fn has_edge(parents: Map<Node, Seq<Node>>, from: Node, to: Node) -> bool {
    neighbours(parents, from).contains(to)
}

/// The edges after one from `from` to `to` was added: an edge that is
/// there stays where it is; a new one comes last among those of `from`,
/// and both ends become nodes.
pub open spec fn with_edge(parents: Map<Node, Seq<Node>>, from: Node, to: Node) -> Map<
    Node,
    Seq<Node>,
> {
    if has_edge(parents, from, to) {
        parents
    } else {
        with_node(parents.insert(from, neighbours(parents, from).push(to)), to)
    }
}

/// `walk` follows edges from its first node to its last.
pub open spec fn is_walk(parents: Map<Node, Seq<Node>>, walk: Seq<Node>) -> bool {
    &&& walk.len() > 0
    &&& forall|i: int| 0 <= i < walk.len() - 1 ==> has_edge(parents, #[trigger] walk[i], walk[i + 1])
}

/// Edges lead from `from` to `to`, over any number of nodes; every node
/// reaches itself.
pub open spec fn reachable(parents: Map<Node, Seq<Node>>, from: Node, to: Node) -> bool {
    exists|walk: Seq<Node>|
        #[trigger] is_walk(parents, walk) && walk.first() == from && walk.last() == to
}

/// `petgraph::graphmap::GraphMap::new`: a graph without nodes.
#[verifier::external_body]
fn graph_new() -> (graph: Pedigree)
    ensures
        parents_of(graph) == no_nodes(),
{
    GraphMap::new()
}

/// `petgraph::graphmap::GraphMap::add_node`: makes `node` a node, with no
/// edges, unless it is one already, and hands it back.
#[verifier::external_body]
fn graph_add_node(graph: &mut Pedigree, node: Node) -> (res: Node)
    ensures
        res == node,
        parents_of(*final(graph)) == with_node(parents_of(*old(graph)), node),
{
    graph.add_node(node)
}

/// `petgraph::graphmap::GraphMap::add_edge`: adds the edge from `from` to
/// `to` unless it is there, making both ends nodes, and says whether it
/// was there before.
#[verifier::external_body]
fn graph_add_edge(graph: &mut Pedigree, from: Node, to: Node) -> (res:
    Option<()>)
    ensures
        res is Some == has_edge(parents_of(*old(graph)), from, to),
        parents_of(*final(graph)) == with_edge(parents_of(*old(graph)), from, to),
{
    graph.add_edge(from, to, ())
}

/// `petgraph::graphmap::GraphMap::contains_node`: whether `node` is a node.
#[verifier::external_body]
fn graph_contains_node(graph: &Pedigree, node: Node) -> (res: bool)
    ensures
        res == parents_of(*graph).contains_key(node),
{
    graph.contains_node(node)
}

/// `petgraph::graphmap::GraphMap::neighbors_directed` with
/// `Direction::Outgoing`: the nodes that the edges of `node` lead to, in
/// the order in which the edges were added; none where it is no node.
#[verifier::external_body]
fn graph_parents(graph: &Pedigree, node: Node) -> (res: Vec<Node>)
    ensures
        res@ == neighbours(parents_of(*graph), node),
{
    graph.neighbors_directed(node, petgraph::Direction::Outgoing).collect()
}

/// `petgraph::visit::Bfs`, run from `start` to its end: every node that
/// edges lead to from `start`, `start` among them, each once, in the
/// order of the search.
#[verifier::external_body]
fn graph_reachable(graph: &Pedigree, start: Node) -> (res: Vec<
    Node,
>)
    ensures
        res@ == bfs_order(parents_of(*graph), start),
        res@.no_duplicates(),
        forall|node: Node| #[trigger] res@.contains(node) <==> reachable(parents_of(*graph), start, node),
{
    petgraph::visit::Walker::iter(petgraph::visit::Bfs::new(graph, start), graph).collect()
}

/// The graph is sound: it has finitely many nodes, every edge leads to a
/// node, and no node has more than two parents.
pub open spec fn well_formed(parents: Map<Node, Seq<Node>>) -> bool {
    &&& parents.dom().finite()
    &&& forall|node: Node, i: int|
        parents.contains_key(node) && 0 <= i < parents[node].len() ==> parents.contains_key(
            #[trigger] parents[node][i],
        )
    &&& forall|node: Node| parents.contains_key(node) ==> (#[trigger] parents[node]).len() <= 2
}

/// The node that stands for a token.
pub open spec fn node_of(id: TroutId) -> Node {
    (id.chain_id, id.token_id)
}

/// The token that a node stands for.
pub open spec fn token_of(node: Node) -> TroutId {
    TroutId { chain_id: node.0, token_id: node.1 }
}

/// The tokens that the nodes stand for, in order.
pub open spec fn tokens_of(nodes: Seq<Node>) -> Seq<TroutId> {
    Seq::new(nodes.len(), |i: int| token_of(nodes[i]))
}

/// The number of nodes that are not on `path`.
pub open spec fn unvisited(parents: Map<Node, Seq<Node>>, path: Seq<Node>) -> nat {
    parents.dom().difference(path.to_set()).len()
}

/// Stepping onto a node that was not on the path leaves fewer to visit.
pub proof fn lemma_unvisited_shrinks(parents: Map<Node, Seq<Node>>, path: Seq<Node>, node: Node)
    requires
        parents.dom().finite(),
        parents.contains_key(node),
        !path.contains(node),
    ensures
        unvisited(parents, path.push(node)) < unvisited(parents, path),
{
    let before = parents.dom().difference(path.to_set());
    let after = parents.dom().difference(path.push(node).to_set());
    path.lemma_push_to_set_commute(node);
    assert(before.contains(node));
    assert(after =~= before.remove(node));
}

/// The simple paths to `end` that begin with `prefix` and go on over
/// `node`, which is not on `prefix`: depth first, the edges of each node
/// in their order.
pub open spec fn paths_from(
    parents: Map<Node, Seq<Node>>,
    prefix: Seq<Node>,
    node: Node,
    end: Node,
) -> Seq<Seq<Node>>
    decreases unvisited(parents, prefix.push(node)), 1int, 0int,
{
    if node == end {
        seq![prefix.push(node)]
    } else {
        paths_over(
            parents,
            prefix.push(node),
            neighbours(parents, node),
            end,
            neighbours(parents, node).len(),
        )
    }
}

/// The simple paths to `end` that begin with `path` and go on over one of
/// the first `upto` nodes of `next`.
pub open spec fn paths_over(
    parents: Map<Node, Seq<Node>>,
    path: Seq<Node>,
    next: Seq<Node>,
    end: Node,
    upto: nat,
) -> Seq<Seq<Node>>
    decreases unvisited(parents, path), 0int, upto,
{
    if upto == 0 || upto > next.len() {
        Seq::empty()
    } else {
        let before = paths_over(parents, path, next, end, (upto - 1) as nat);
        let node = next[upto - 1];
        if path.contains(node) || !parents.contains_key(node) || !parents.dom().finite() {
            before
        } else {
            proof {
                lemma_unvisited_shrinks(parents, path, node);
            }
            before + paths_from(parents, path, node, end)
        }
    }
}

/// The views of paths, in order.
pub open spec fn path_views(paths: Seq<Vec<Node>>) -> Seq<Seq<Node>> {
    Seq::new(paths.len(), |i: int| paths[i]@)
}

/// Whether `node` is on `path`.
fn on_path(path: &Vec<Node>, node: Node) -> (res: bool)
    ensures
        res == path@.contains(node),
{
    let mut i: usize = 0;
    while i < path.len()
        invariant
            i <= path@.len(),
            forall|j: int| 0 <= j < i ==> path@[j] != node,
        decreases path@.len() - i,
    {
        if path[i].0 == node.0 && path[i].1 == node.1 {
            assert(path@[i as int] == node);
            return true;
        }
        i += 1;
    }
    false
}

/// A copy of `path`.
fn copy_path(path: &Vec<Node>) -> (res: Vec<Node>)
    ensures
        res@ == path@,
{
    let mut res: Vec<Node> = Vec::new();
    let mut i: usize = 0;
    while i < path.len()
        invariant
            i <= path@.len(),
            res@ == path@.take(i as int),
        decreases path@.len() - i,
    {
        res.push(path[i]);
        assert(path@.take(i as int + 1) =~= path@.take(i as int).push(path@[i as int]));
        i += 1;
    }
    assert(path@.take(path@.len() as int) =~= path@);
    res
}

/// Walks depth first from `node` and appends to `paths` every simple path
/// to `end` that begins with `path` and goes on over `node`.
fn dfs(graph: &Pedigree, node: Node, end: Node, path: &mut Vec<Node>, paths: &mut Vec<Vec<Node>>)
    requires
        well_formed(parents_of(*graph)),
    ensures
        final(path)@ == old(path)@,
        path_views(final(paths)@) == path_views(old(paths)@) + paths_from(
            parents_of(*graph),
            old(path)@,
            node,
            end,
        ),
        forall|k: int|
            old(paths)@.len() <= k < final(paths)@.len() ==> (#[trigger] final(paths)@[k])@.len()
                > 0,
    decreases unvisited(parents_of(*graph), old(path)@.push(node)), 1int, 0int,
{
    let ghost parents = parents_of(*graph);
    let ghost found = path_views(paths@);
    let ghost before_len = paths@.len();
    path.push(node);
    if node.0 == end.0 && node.1 == end.1 {
        paths.push(copy_path(path));
        assert(path_views(paths@) =~= found + seq![old(path)@.push(node)]);
    } else {
        let next = graph_parents(graph, node);
        let mut i: usize = 0;
        assert(path_views(paths@) =~= found + paths_over(parents, path@, next@, end, 0));
        while i < next.len()
            invariant
                i <= next@.len(),
                parents == parents_of(*graph),
                well_formed(parents),
                next@ == neighbours(parents, node),
                path@ == old(path)@.push(node),
                paths@.len() >= before_len,
                path_views(paths@) == found + paths_over(parents, path@, next@, end, i as nat),
                forall|k: int|
                    before_len <= k < paths@.len() ==> (#[trigger] paths@[k])@.len() > 0,
            decreases next@.len() - i,
        {
            let candidate = next[i];
            let ghost so_far = path_views(paths@);
            proof {
                assert(parents.contains_key(node));
                assert(parents.contains_key(parents[node][i as int]));
            }
            if !on_path(path, candidate) {
                proof {
                    lemma_unvisited_shrinks(parents, path@, candidate);
                }
                let ghost earlier = paths@;
                dfs(graph, candidate, end, path, paths);
                assert forall|k: int| before_len <= k < paths@.len() implies (
                #[trigger] paths@[k])@.len() > 0 by {
                    if k < earlier.len() {
                        assert(path_views(paths@)[k] == path_views(earlier)[k]);
                        assert(earlier[k]@.len() > 0);
                    }
                }
                assert(path_views(paths@) =~= found + paths_over(
                    parents,
                    path@,
                    next@,
                    end,
                    (i + 1) as nat,
                ));
            }
            i += 1;
        }
    }
    path.pop();
    assert(path@ =~= old(path)@);
}

/// Every simple path from `start` to `end`, depth first, the edges of
/// each node in the order in which they were added.
fn find_path(graph: &Pedigree, start: Node, end: Node) -> (res: Vec<Vec<Node>>)
    requires
        well_formed(parents_of(*graph)),
    ensures
        path_views(res@) == paths_from(parents_of(*graph), Seq::empty(), start, end),
        forall|k: int| 0 <= k < res@.len() ==> (#[trigger] res@[k])@.len() > 0,
{
    let mut paths: Vec<Vec<Node>> = Vec::new();
    let mut path: Vec<Node> = Vec::new();
    assert(path_views(paths@) =~= Seq::<Seq<Node>>::empty());
    dfs(graph, start, end, &mut path, &mut paths);
    assert(path_views(paths@) =~= paths_from(parents_of(*graph), Seq::empty(), start, end));
    paths
}

/// Whether `child` may get `parent` as a parent: it has fewer than two,
/// or `parent` is one of them.
pub open spec fn accepts(parents: Map<Node, Seq<Node>>, child: Node, parent: Node) -> bool {
    neighbours(parents, child).len() < 2 || has_edge(parents, child, parent)
}

/// The edges after `child` got `parent` as a parent, unless it would be
/// its third.
pub open spec fn adopted(parents: Map<Node, Seq<Node>>, child: Node, parent: Node) -> Map<
    Node,
    Seq<Node>,
> {
    if accepts(parents, child, parent) {
        with_edge(parents, child, parent)
    } else {
        parents
    }
}

/// Adding a node keeps the graph sound.
pub proof fn lemma_with_node_sound(parents: Map<Node, Seq<Node>>, node: Node)
    requires
        well_formed(parents),
    ensures
        well_formed(with_node(parents, node)),
{
    let after = with_node(parents, node);
    assert forall|n: Node, i: int|
        after.contains_key(n) && 0 <= i < after[n].len() implies after.contains_key(
        #[trigger] after[n][i],
    ) by {
        assert(parents.contains_key(n));
        assert(parents.contains_key(parents[n][i]));
    }
}

/// Adding a parent to a child that accepts it keeps the graph sound.
pub proof fn lemma_with_edge_sound(parents: Map<Node, Seq<Node>>, child: Node, parent: Node)
    requires
        well_formed(parents),
        accepts(parents, child, parent),
    ensures
        well_formed(with_edge(parents, child, parent)),
{
    if !has_edge(parents, child, parent) {
        let grown = parents.insert(child, neighbours(parents, child).push(parent));
        let after = with_node(grown, parent);
        assert(after.contains_key(parent));
        assert forall|n: Node, i: int|
            after.contains_key(n) && 0 <= i < after[n].len() implies after.contains_key(
            #[trigger] after[n][i],
        ) by {
            if n == child {
                if i < neighbours(parents, child).len() {
                    assert(parents.contains_key(child));
                    assert(parents.contains_key(parents[child][i]));
                }
            } else if parents.contains_key(n) {
                assert(parents.contains_key(parents[n][i]));
            }
        }
        assert forall|n: Node| after.contains_key(n) implies (#[trigger] after[n]).len() <= 2 by {
            if n != child && parents.contains_key(n) {
                assert(parents[n].len() <= 2);
            }
        }
    }
}

/// The ancestry of the tokens: an edge leads from each token to each of
/// its parents.
pub struct Ancestors {
    graph: Pedigree,
}

impl View for Ancestors {
    type V = Map<Node, Seq<Node>>;

    closed spec fn view(&self) -> Map<Node, Seq<Node>> {
        parents_of(self.graph)
    }
}

impl Ancestors {
    /// The graph is sound.
    pub open spec fn wf(&self) -> bool {
        well_formed(self@)
    }

    /// A graph without tokens.
    pub fn new() -> (res: Self)
        ensures
            res.wf(),
            res@ == no_nodes(),
    {
        Ancestors { graph: graph_new() }
    }

    /// Makes `id` a node unless it is one.
    pub fn add_node(&mut self, id: TroutId) -> (res: TroutId)
        requires
            old(self).wf(),
        ensures
            final(self).wf(),
            res == id,
            final(self)@ == with_node(old(self)@, node_of(id)),
    {
        proof {
            lemma_with_node_sound(self@, node_of(id));
        }
        graph_add_node(&mut self.graph, (id.chain_id, id.token_id));
        id
    }

    /// Whether `id` is a node.
    pub fn contains(&self, id: TroutId) -> (res: bool)
        ensures
            res == self@.contains_key(node_of(id)),
    {
        graph_contains_node(&self.graph, (id.chain_id, id.token_id))
    }

    /// The parents of `id`, in the order in which they were added.
    pub fn parents(&self, id: TroutId) -> (res: Vec<TroutId>)
        ensures
            res@ == tokens_of(neighbours(self@, node_of(id))),
    {
        let nodes = graph_parents(&self.graph, (id.chain_id, id.token_id));
        let mut res: Vec<TroutId> = Vec::new();
        let mut i: usize = 0;
        while i < nodes.len()
            invariant
                i <= nodes@.len(),
                res@.len() == i,
                forall|j: int| 0 <= j < i ==> res@[j] == token_of(nodes@[j]),
            decreases nodes@.len() - i,
        {
            res.push(TroutId { chain_id: nodes[i].0, token_id: nodes[i].1 });
            i += 1;
        }
        assert(res@ =~= tokens_of(nodes@));
        res
    }

    /// Whether `child` may get `parent` as a parent.
    pub fn accepts_parent(&self, child: TroutId, parent: TroutId) -> (res: bool)
        ensures
            res == accepts(self@, node_of(child), node_of(parent)),
    {
        let nodes = graph_parents(&self.graph, (child.chain_id, child.token_id));
        nodes.len() < 2 || on_path(&nodes, (parent.chain_id, parent.token_id))
    }

    /// Adds the edge from `child` to `parent` unless it is there; both
    /// become nodes. No token gets a third parent.
    pub fn add_edge(&mut self, child: TroutId, parent: TroutId)
        requires
            old(self).wf(),
            accepts(old(self)@, node_of(child), node_of(parent)),
        ensures
            final(self).wf(),
            final(self)@ == with_edge(old(self)@, node_of(child), node_of(parent)),
    {
        proof {
            lemma_with_edge_sound(self@, node_of(child), node_of(parent));
        }
        graph_add_edge(
            &mut self.graph,
            (child.chain_id, child.token_id),
            (parent.chain_id, parent.token_id),
        );
    }

    /// Adds the edge from `child` to `parent` where `child` accepts it,
    /// and says whether the edge is there afterwards.
    pub fn adopt(&mut self, child: TroutId, parent: TroutId) -> (res: bool)
        requires
            old(self).wf(),
        ensures
            final(self).wf(),
            res == accepts(old(self)@, node_of(child), node_of(parent)),
            final(self)@ == adopted(old(self)@, node_of(child), node_of(parent)),
    {
        if self.accepts_parent(child, parent) {
            self.add_edge(child, parent);
            true
        } else {
            false
        }
    }
}

/// The chain on which the tokens of a listing live.
pub const LISTING_CHAIN: ChainId = 23294;

/// The edges after a listed token was added: the token is a node, and an
/// edge leads to each of its two parents where it has them.
pub open spec fn with_listed(
    parents: Map<Node, Seq<Node>>,
    id: TokenId,
    pair: Option<(TroutId, TroutId)>,
) -> Map<Node, Seq<Node>> {
    let this = (LISTING_CHAIN, id);
    let grown = with_node(parents, this);
    match pair {
        Some((left, right)) => adopted(
            adopted(grown, this, node_of(left)),
            this,
            node_of(right),
        ),
        None => grown,
    }
}

/// The edges after the listed tokens were added in order.
pub open spec fn listed_graph(tokens: Seq<(TokenId, Option<(TroutId, TroutId)>)>) -> Map<
    Node,
    Seq<Node>,
>
    decreases tokens.len(),
{
    if tokens.len() == 0 {
        no_nodes()
    } else {
        with_listed(listed_graph(tokens.drop_last()), tokens.last().0, tokens.last().1)
    }
}

/// What the graph reads of listed tokens: number and parents, in order.
pub open spec fn lineage(tokens: Seq<TokenForUi>) -> Seq<(TokenId, Option<(TroutId, TroutId)>)> {
    Seq::new(tokens.len(), |i: int| (tokens[i].id, tokens[i].parents))
}

/// The ancestry of the listed tokens.
pub fn make_graph(tokens: &Vec<TokenForUi>) -> (res: Ancestors)
    ensures
        res.wf(),
        res@ == listed_graph(lineage(tokens@)),
{
    let ghost rows = lineage(tokens@);
    let mut g = Ancestors::new();
    let mut i: usize = 0;
    assert(rows.take(0) =~= Seq::<(TokenId, Option<(TroutId, TroutId)>)>::empty());
    while i < tokens.len()
        invariant
            i <= tokens@.len(),
            rows == lineage(tokens@),
            g.wf(),
            g@ == listed_graph(rows.take(i as int)),
        decreases tokens@.len() - i,
    {
        assert(rows.take(i as int + 1).drop_last() =~= rows.take(i as int));
        let this = TroutId { chain_id: LISTING_CHAIN, token_id: tokens[i].id };
        g.add_node(this);
        match tokens[i].parents {
            Some((left, right)) => {
                g.adopt(this, left);
                g.adopt(this, right);
            },
            None => {},
        }
        i += 1;
    }
    assert(rows.take(i as int) =~= rows);
    g
}

/// `path` is a simple path that begins with `prefix`, goes on over `node`
/// and ends in `end`: from `node` on it follows edges, and no node is on
/// it twice.
pub open spec fn continues(
    parents: Map<Node, Seq<Node>>,
    prefix: Seq<Node>,
    node: Node,
    end: Node,
    path: Seq<Node>,
) -> bool {
    &&& path.len() > prefix.len()
    &&& path.take(prefix.len() as int) == prefix
    &&& path[prefix.len() as int] == node
    &&& path.last() == end
    &&& is_walk(parents, path.skip(prefix.len() as int))
    &&& path.no_duplicates()
}

/// Every path that the search finds is a simple path to `end` that
/// begins with `prefix` and goes on over `node`.
pub proof fn lemma_paths_from_sound(
    parents: Map<Node, Seq<Node>>,
    prefix: Seq<Node>,
    node: Node,
    end: Node,
    k: int,
)
    requires
        prefix.no_duplicates(),
        !prefix.contains(node),
        0 <= k < paths_from(parents, prefix, node, end).len(),
    ensures
        continues(parents, prefix, node, end, paths_from(parents, prefix, node, end)[k]),
    decreases unvisited(parents, prefix.push(node)), 1int, 0int,
{
    let path = prefix.push(node);
    assert(path.no_duplicates()) by {
        assert forall|i: int, j: int| 0 <= i < j < path.len() implies path[i] != path[j] by {
            if j == prefix.len() {
                assert(prefix[i] != node);
            }
        }
    }
    if node == end {
        assert(path.take(prefix.len() as int) =~= prefix);
        assert(path.skip(prefix.len() as int) =~= seq![node]);
    } else {
        let next = neighbours(parents, node);
        lemma_paths_over_sound(parents, path, next, end, next.len(), k);
        let found = paths_from(parents, prefix, node, end)[k];
        let j = choose|j: int|
            0 <= j < next.len() && continues(parents, path, #[trigger] next[j], end, found);
        assert(found.take(prefix.len() as int) =~= found.take(path.len() as int).take(
            prefix.len() as int,
        ));
        assert(found.take(prefix.len() as int) =~= prefix);
        assert(found[prefix.len() as int] == path[prefix.len() as int]) by {
            assert(found.take(path.len() as int)[prefix.len() as int] == found[prefix.len() as int]);
        }
        let tail = found.skip(path.len() as int);
        let walk = found.skip(prefix.len() as int);
        assert(walk.len() == tail.len() + 1);
        assert forall|i: int| 0 <= i < walk.len() - 1 implies has_edge(
            parents,
            #[trigger] walk[i],
            walk[i + 1],
        ) by {
            if i == 0 {
                assert(walk[0] == node);
                assert(walk[1] == tail[0]);
                assert(tail[0] == next[j]);
            } else {
                assert(walk[i] == tail[i - 1]);
                assert(walk[i + 1] == tail[i - 1 + 1]);
                assert(has_edge(parents, tail[i - 1], tail[i - 1 + 1]));
            }
        }
    }
}

/// Every path that the search finds over the first `upto` nodes of
/// `next` goes on over one of them.
pub proof fn lemma_paths_over_sound(
    parents: Map<Node, Seq<Node>>,
    path: Seq<Node>,
    next: Seq<Node>,
    end: Node,
    upto: nat,
    k: int,
)
    requires
        path.no_duplicates(),
        upto <= next.len(),
        0 <= k < paths_over(parents, path, next, end, upto).len(),
    ensures
        exists|j: int|
            0 <= j < upto && continues(
                parents,
                path,
                #[trigger] next[j],
                end,
                paths_over(parents, path, next, end, upto)[k],
            ),
    decreases unvisited(parents, path), 0int, upto,
{
    let before = paths_over(parents, path, next, end, (upto - 1) as nat);
    let node = next[upto - 1];
    if k < before.len() {
        lemma_paths_over_sound(parents, path, next, end, (upto - 1) as nat, k);
        let j = choose|j: int|
            0 <= j < upto - 1 && continues(parents, path, #[trigger] next[j], end, before[k]);
        assert(continues(
            parents,
            path,
            next[j],
            end,
            paths_over(parents, path, next, end, upto)[k],
        ));
    } else {
        lemma_unvisited_shrinks(parents, path, node);
        lemma_paths_from_sound(parents, path, node, end, k - before.len());
        assert(continues(
            parents,
            path,
            next[upto - 1],
            end,
            paths_over(parents, path, next, end, upto)[k],
        ));
    }
}

/// What the search finds over one node of `next` is among what it finds
/// over all of them.
pub proof fn lemma_paths_over_includes(
    parents: Map<Node, Seq<Node>>,
    path: Seq<Node>,
    next: Seq<Node>,
    end: Node,
    upto: nat,
    j: int,
    found: Seq<Node>,
)
    requires
        parents.dom().finite(),
        0 <= j < upto <= next.len(),
        parents.contains_key(next[j]),
        !path.contains(next[j]),
        paths_from(parents, path, next[j], end).contains(found),
    ensures
        paths_over(parents, path, next, end, upto).contains(found),
    decreases upto,
{
    let before = paths_over(parents, path, next, end, (upto - 1) as nat);
    let all = paths_over(parents, path, next, end, upto);
    if j < upto - 1 {
        lemma_paths_over_includes(parents, path, next, end, (upto - 1) as nat, j, found);
        let k = choose|k: int| 0 <= k < before.len() && before[k] == found;
        assert(all[k] == found);
    } else {
        let here = paths_from(parents, path, next[j], end);
        let k = choose|k: int| 0 <= k < here.len() && here[k] == found;
        assert(all[before.len() + k] == found);
    }
}

/// The search finds every simple path: whatever simple path leads from
/// `node` to `end` without touching `prefix` is found, behind `prefix`.
pub proof fn lemma_paths_from_complete(
    parents: Map<Node, Seq<Node>>,
    prefix: Seq<Node>,
    node: Node,
    end: Node,
    walk: Seq<Node>,
)
    requires
        well_formed(parents),
        is_walk(parents, walk),
        walk.first() == node,
        walk.last() == end,
        (prefix + walk).no_duplicates(),
    ensures
        paths_from(parents, prefix, node, end).contains(prefix + walk),
    decreases walk.len(),
{
    let whole = prefix + walk;
    let found = paths_from(parents, prefix, node, end);
    if node == end {
        if walk.len() > 1 {
            assert(whole[prefix.len() as int] == walk[0]);
            assert(whole[prefix.len() + walk.len() - 1] == walk[walk.len() - 1]);
        }
        assert(whole =~= prefix.push(node));
        assert(found[0] == whole);
    } else {
        let path = prefix.push(node);
        let next = neighbours(parents, node);
        let rest = walk.skip(1);
        assert(has_edge(parents, walk[0int], walk[0int + 1]));
        let j = choose|j: int| 0 <= j < next.len() && next[j] == walk[1];
        assert(parents.contains_key(node));
        assert(parents.contains_key(parents[node][j]));
        assert(path + rest =~= whole);
        assert forall|i: int| 0 <= i < rest.len() - 1 implies has_edge(
            parents,
            #[trigger] rest[i],
            rest[i + 1],
        ) by {
            assert(rest[i] == walk[i + 1]);
            assert(rest[i + 1] == walk[i + 1 + 1]);
            assert(has_edge(parents, walk[i + 1], walk[i + 1 + 1]));
        }
        assert(!path.contains(walk[1])) by {
            if path.contains(walk[1]) {
                let at = choose|at: int| 0 <= at < path.len() && path[at] == walk[1];
                assert(whole[at] == path[at]);
                assert(whole[prefix.len() as int + 1] == walk[1]);
            }
        }
        lemma_paths_from_complete(parents, path, walk[1], end, rest);
        lemma_paths_over_includes(parents, path, next, end, next.len(), j, whole);
    }
}

/// In a sound graph the search from `start` finds exactly the simple
/// paths from `start` to `end`.
pub proof fn lemma_find_path_exact(
    parents: Map<Node, Seq<Node>>,
    start: Node,
    end: Node,
    path: Seq<Node>,
)
    requires
        well_formed(parents),
    ensures
        paths_from(parents, Seq::empty(), start, end).contains(path) <==> is_walk(parents, path)
            && path.first() == start && path.last() == end && path.no_duplicates(),
{
    let found = paths_from(parents, Seq::empty(), start, end);
    let none = Seq::<Node>::empty();
    if found.contains(path) {
        let k = choose|k: int| 0 <= k < found.len() && found[k] == path;
        lemma_paths_from_sound(parents, none, start, end, k);
        assert(path.skip(0) =~= path);
    }
    if is_walk(parents, path) && path.first() == start && path.last() == end
        && path.no_duplicates() {
        assert(none + path =~= path);
        lemma_paths_from_complete(parents, none, start, end, path);
    }
}

/// Which paths to a common ancestor count.
#[derive(Clone, Copy, Debug, PartialEq, Eq, Structural)]
pub enum PathRule {
    /// The shortest path from each parent: one loop for each common ancestor.
    Shortest,
    /// Every pair of simple paths, one from each parent.
    All,
}

/// The number of nodes on the shortest of `paths`.
pub open spec fn least(paths: Seq<Seq<Node>>) -> Option<nat>
    decreases paths.len(),
{
    if paths.len() == 0 {
        None
    } else {
        match least(paths.drop_last()) {
            Some(m) => if paths.last().len() < m {
                Some(paths.last().len())
            } else {
                Some(m)
            },
            None => Some(paths.last().len()),
        }
    }
}

/// The exponent `e` of the contribution `2^-e` of a loop over a common
/// ancestor, where the paths to it from the two parents have `n` and `m`
/// nodes, and so `n - 1` and `m - 1` edges: `(n - 1) + (m - 1) + 1`.
pub open spec fn exponent(n: nat, m: nat) -> u128 {
    (n + m - 1) as u128
}

/// The exponents for one path of `n` nodes paired with each of `ys`.
pub open spec fn row_terms(n: nat, ys: Seq<Seq<Node>>) -> Seq<u128> {
    Seq::new(ys.len(), |j: int| exponent(n, ys[j].len()))
}

/// The exponents for every pair of one path of `xs` and one of `ys`.
pub open spec fn pair_terms(xs: Seq<Seq<Node>>, ys: Seq<Seq<Node>>) -> Seq<u128>
    decreases xs.len(),
{
    if xs.len() == 0 {
        Seq::empty()
    } else {
        pair_terms(xs.drop_last(), ys) + row_terms(xs.last().len(), ys)
    }
}

/// The exponents that one common ancestor contributes, given the paths
/// to it from the one parent and from the other.
pub open spec fn ancestor_terms(rule: PathRule, xs: Seq<Seq<Node>>, ys: Seq<Seq<Node>>) -> Seq<
    u128,
> {
    match rule {
        PathRule::Shortest => match (least(xs), least(ys)) {
            (Some(n), Some(m)) => seq![exponent(n, m)],
            _ => Seq::empty(),
        },
        PathRule::All => pair_terms(xs, ys),
    }
}

/// The exponents that the common ancestors `common` of the parents
/// `first` and `second` contribute, ancestor by ancestor.
pub open spec fn loop_terms(
    parents: Map<Node, Seq<Node>>,
    rule: PathRule,
    common: Seq<Node>,
    first: Node,
    second: Node,
) -> Seq<u128>
    decreases common.len(),
{
    if common.len() == 0 {
        Seq::empty()
    } else {
        loop_terms(parents, rule, common.drop_last(), first, second) + ancestor_terms(
            rule,
            paths_from(parents, Seq::empty(), first, common.last()),
            paths_from(parents, Seq::empty(), second, common.last()),
        )
    }
}

/// Where edges lead from one node to another, a simple path does.
pub proof fn lemma_simple_walk(parents: Map<Node, Seq<Node>>, walk: Seq<Node>)
    requires
        is_walk(parents, walk),
    ensures
        exists|simple: Seq<Node>|
            #[trigger] is_walk(parents, simple) && simple.first() == walk.first() && simple.last()
                == walk.last() && simple.no_duplicates(),
    decreases walk.len(),
{
    if walk.no_duplicates() {
        assert(is_walk(parents, walk));
    } else {
        let (i, j) = choose|i: int, j: int|
            0 <= i < walk.len() && 0 <= j < walk.len() && i != j && walk[i] == walk[j];
        let (a, b) = if i < j {
            (i, j)
        } else {
            (j, i)
        };
        let cut = walk.take(a + 1) + walk.skip(b + 1);
        assert forall|k: int| 0 <= k < cut.len() - 1 implies has_edge(
            parents,
            #[trigger] cut[k],
            cut[k + 1],
        ) by {
            if k < a {
                assert(cut[k] == walk[k] && cut[k + 1] == walk[k + 1]);
            } else if k == a {
                assert(cut[k] == walk[b]);
                assert(cut[k + 1] == walk[b + 1]);
                assert(has_edge(parents, walk[b], walk[b + 1]));
            } else {
                assert(cut[k] == walk[k + b - a]);
                assert(cut[k + 1] == walk[k + b - a + 1]);
                assert(has_edge(parents, walk[k + b - a], walk[k + b - a + 1]));
            }
        }
        assert(cut.first() == walk.first());
        assert(cut.last() == walk.last()) by {
            if b == walk.len() - 1 {
                assert(cut =~= walk.take(a + 1));
                assert(cut.last() == walk[a]);
            } else {
                assert(cut[cut.len() - 1] == walk[cut.len() - 1 + b - a]);
            }
        }
        lemma_simple_walk(parents, cut);
    }
}

/// In a sound graph the search finds a path to every node that edges
/// lead to, so each such node has a shortest path.
pub proof fn lemma_reachable_is_found(parents: Map<Node, Seq<Node>>, from: Node, to: Node)
    requires
        well_formed(parents),
        reachable(parents, from, to),
    ensures
        paths_from(parents, Seq::empty(), from, to).len() > 0,
        least(paths_from(parents, Seq::empty(), from, to)) is Some,
{
    let walk = choose|walk: Seq<Node>|
        #[trigger] is_walk(parents, walk) && walk.first() == from && walk.last() == to;
    lemma_simple_walk(parents, walk);
    let simple = choose|simple: Seq<Node>|
        #[trigger] is_walk(parents, simple) && simple.first() == walk.first() && simple.last()
            == walk.last() && simple.no_duplicates();
    lemma_find_path_exact(parents, from, to, simple);
    let found = paths_from(parents, Seq::empty(), from, to);
    assert(found.contains(simple));
    assert(found.len() > 0);
}

/// Counting shortest paths, every common ancestor that edges lead to from
/// both parents contributes exactly one loop.
pub proof fn lemma_one_loop_each(
    parents: Map<Node, Seq<Node>>,
    common: Seq<Node>,
    first: Node,
    second: Node,
)
    requires
        well_formed(parents),
        forall|k: int|
            0 <= k < common.len() ==> reachable(parents, first, #[trigger] common[k]) && reachable(
                parents,
                second,
                common[k],
            ),
    ensures
        loop_terms(parents, PathRule::Shortest, common, first, second).len() == common.len(),
    decreases common.len(),
{
    if common.len() > 0 {
        let rest = common.drop_last();
        assert forall|k: int| 0 <= k < rest.len() implies reachable(
            parents,
            first,
            #[trigger] rest[k],
        ) && reachable(parents, second, rest[k]) by {
            assert(rest[k] == common[k]);
        }
        lemma_one_loop_each(parents, rest, first, second);
        assert(common.last() == common[common.len() - 1]);
        lemma_reachable_is_found(parents, first, common.last());
        lemma_reachable_is_found(parents, second, common.last());
    }
}

/// Being among `nodes`.
pub open spec fn among(nodes: Seq<Node>) -> spec_fn(Node) -> bool {
    |node: Node| nodes.contains(node)
}

/// The nodes of `a` that are among `b` too, in the order of `a`.
pub open spec fn shared(a: Seq<Node>, b: Seq<Node>) -> Seq<Node> {
    a.filter(among(b))
}

/// The coefficient of inbreeding of `target`, as the exponents of its
/// loops. A token with fewer than two parents has none. Otherwise the
/// common ancestors are the nodes that a search finds from both parents,
/// in the order in which it finds them from the first.
pub open spec fn coefficient(parents: Map<Node, Seq<Node>>, rule: PathRule, target: Node) -> Seq<
    u128,
> {
    let pair = neighbours(parents, target);
    if pair.len() < 2 {
        Seq::empty()
    } else {
        loop_terms(
            parents,
            rule,
            shared(bfs_order(parents, pair[0]), bfs_order(parents, pair[1])),
            pair[0],
            pair[1],
        )
    }
}

/// The nodes of `a` that are among `b` too, in the order of `a`.
pub fn common_ancestors(a: &Vec<Node>, b: &Vec<Node>) -> (res: Vec<Node>)
    ensures
        res@ == shared(a@, b@),
{
    let mut res: Vec<Node> = Vec::new();
    let mut i: usize = 0;
    proof {
        reveal(Seq::filter);
        assert(a@.take(0) =~= Seq::<Node>::empty());
        assert(res@ =~= shared(a@.take(0), b@));
    }
    while i < a.len()
        invariant
            i <= a@.len(),
            res@ == shared(a@.take(i as int), b@),
        decreases a@.len() - i,
    {
        proof {
            assert(a@.take(i as int + 1) =~= a@.take(i as int).push(a@[i as int]));
            a@.take(i as int).lemma_filter_push(a@[i as int], among(b@));
        }
        if on_path(b, a[i]) {
            res.push(a[i]);
        }
        i += 1;
    }
    assert(a@.take(i as int) =~= a@);
    res
}

/// The number of nodes on the shortest of `paths`.
fn shortest_len(paths: &Vec<Vec<Node>>) -> (res: Option<usize>)
    ensures
        match res {
            Some(n) => least(path_views(paths@)) == Some(n as nat),
            None => least(path_views(paths@)) is None,
        },
{
    let ghost views = path_views(paths@);
    let mut best: Option<usize> = None;
    let mut i: usize = 0;
    assert(views.take(0) =~= Seq::<Seq<Node>>::empty());
    while i < paths.len()
        invariant
            i <= paths@.len(),
            views == path_views(paths@),
            match best {
                Some(n) => least(views.take(i as int)) == Some(n as nat),
                None => least(views.take(i as int)) is None,
            },
        decreases paths@.len() - i,
    {
        assert(views.take(i as int + 1).drop_last() =~= views.take(i as int));
        let n: usize = paths[i].len();
        best = match best {
            Some(m) => if n < m {
                Some(n)
            } else {
                Some(m)
            },
            None => Some(n),
        };
        i += 1;
    }
    assert(views.take(i as int) =~= views);
    best
}

/// The exponent for paths of `n` and `m` nodes.
fn exponent_of(n: usize, m: usize) -> (res: u128)
    requires
        n > 0,
        m > 0,
    ensures
        res == exponent(n as nat, m as nat),
{
    n as u128 + m as u128 - 1
}

/// Appends the exponents that one common ancestor contributes.
fn push_ancestor_terms(
    terms: &mut Vec<u128>,
    rule: PathRule,
    xs: &Vec<Vec<Node>>,
    ys: &Vec<Vec<Node>>,
)
    requires
        forall|k: int| 0 <= k < xs@.len() ==> (#[trigger] xs@[k])@.len() > 0,
        forall|k: int| 0 <= k < ys@.len() ==> (#[trigger] ys@[k])@.len() > 0,
    ensures
        final(terms)@ == old(terms)@ + ancestor_terms(rule, path_views(xs@), path_views(ys@)),
{
    let ghost xv = path_views(xs@);
    let ghost yv = path_views(ys@);
    match rule {
        PathRule::Shortest => {
            let n = shortest_len(xs);
            let m = shortest_len(ys);
            match (n, m) {
                (Some(n), Some(m)) => {
                    proof {
                        lemma_least_positive(xv);
                        lemma_least_positive(yv);
                    }
                    terms.push(exponent_of(n, m));
                    assert(terms@ =~= old(terms)@ + seq![exponent(n as nat, m as nat)]);
                },
                _ => {
                    assert(terms@ =~= old(terms)@ + Seq::<u128>::empty());
                },
            }
        },
        PathRule::All => {
            let mut i: usize = 0;
            assert(xv.take(0) =~= Seq::<Seq<Node>>::empty());
            assert(terms@ =~= old(terms)@ + pair_terms(xv.take(0), yv));
            while i < xs.len()
                invariant
                    i <= xs@.len(),
                    xv == path_views(xs@),
                    yv == path_views(ys@),
                    forall|k: int| 0 <= k < xs@.len() ==> (#[trigger] xs@[k])@.len() > 0,
                    forall|k: int| 0 <= k < ys@.len() ==> (#[trigger] ys@[k])@.len() > 0,
                    terms@ == old(terms)@ + pair_terms(xv.take(i as int), yv),
                decreases xs@.len() - i,
            {
                assert(xv.take(i as int + 1).drop_last() =~= xv.take(i as int));
                let n: usize = xs[i].len();
                let ghost done = terms@;
                let mut j: usize = 0;
                assert(terms@ =~= done + row_terms(n as nat, yv).take(0));
                while j < ys.len()
                    invariant
                        j <= ys@.len(),
                        yv == path_views(ys@),
                        n > 0,
                        forall|k: int| 0 <= k < ys@.len() ==> (#[trigger] ys@[k])@.len() > 0,
                        terms@ == done + row_terms(n as nat, yv).take(j as int),
                    decreases ys@.len() - j,
                {
                    terms.push(exponent_of(n, ys[j].len()));
                    assert(terms@ =~= done + row_terms(n as nat, yv).take(j as int + 1));
                    j += 1;
                }
                assert(row_terms(n as nat, yv).take(j as int) =~= row_terms(n as nat, yv));
                assert(terms@ =~= old(terms)@ + pair_terms(xv.take(i as int + 1), yv));
                i += 1;
            }
            assert(xv.take(i as int) =~= xv);
        },
    }
}

/// The shortest of paths that all have nodes has nodes.
pub proof fn lemma_least_positive(paths: Seq<Seq<Node>>)
    requires
        forall|k: int| 0 <= k < paths.len() ==> (#[trigger] paths[k]).len() > 0,
    ensures
        least(paths) is Some ==> least(paths)->Some_0 > 0,
    decreases paths.len(),
{
    if paths.len() > 0 {
        let rest = paths.drop_last();
        assert forall|k: int| 0 <= k < rest.len() implies (#[trigger] rest[k]).len() > 0 by {
            assert(rest[k] == paths[k]);
        }
        lemma_least_positive(rest);
        assert(paths.last() == paths[paths.len() - 1]);
    }
}

impl Ancestors {
    /// The nodes that edges lead to from `start`, `start` among them, in
    /// the order in which a breadth-first search finds them.
    pub fn ancestors_of(&self, start: Node) -> (res: Vec<Node>)
        ensures
            res@ == bfs_order(self@, start),
            res@.no_duplicates(),
            forall|node: Node| #[trigger] res@.contains(node) <==> reachable(self@, start, node),
    {
        graph_reachable(&self.graph, start)
    }

    /// The exponents that the common ancestors `common` of the parents
    /// `first` and `second` contribute, ancestor by ancestor.
    pub fn loop_terms(&self, rule: PathRule, common: &Vec<Node>, first: Node, second: Node) -> (res:
        Vec<u128>)
        requires
            self.wf(),
        ensures
            res@ == loop_terms(self@, rule, common@, first, second),
    {
        let mut terms: Vec<u128> = Vec::new();
        let mut i: usize = 0;
        assert(common@.take(0) =~= Seq::<Node>::empty());
        while i < common.len()
            invariant
                i <= common@.len(),
                self.wf(),
                terms@ == loop_terms(self@, rule, common@.take(i as int), first, second),
            decreases common@.len() - i,
        {
            assert(common@.take(i as int + 1).drop_last() =~= common@.take(i as int));
            let ancestor = common[i];
            let xs = find_path(&self.graph, first, ancestor);
            let ys = find_path(&self.graph, second, ancestor);
            push_ancestor_terms(&mut terms, rule, &xs, &ys);
            i += 1;
        }
        assert(common@.take(i as int) =~= common@);
        terms
    }

    /// The coefficient of inbreeding of `target` under `rule`. It is zero
    /// for a token with fewer than two parents, and for one whose parents
    /// have no common ancestor.
    pub fn inbreeding_by(&self, target: TroutId, rule: PathRule) -> (res: Coi)
        requires
            self.wf(),
        ensures
            res@ == Some(coefficient(self@, rule, node_of(target))),
            neighbours(self@, node_of(target)).len() < 2 ==> res@ == Some(Seq::<u128>::empty()),
            neighbours(self@, node_of(target)).len() >= 2 && (forall|node: Node|
                !(reachable(self@, neighbours(self@, node_of(target))[0], node) && reachable(
                    self@,
                    neighbours(self@, node_of(target))[1],
                    node,
                ))) ==> res@ == Some(Seq::<u128>::empty()),
            neighbours(self@, node_of(target)).len() >= 2 && rule == PathRule::Shortest
                ==> res@->Some_0.len() == shared(
                bfs_order(self@, neighbours(self@, node_of(target))[0]),
                bfs_order(self@, neighbours(self@, node_of(target))[1]),
            ).len(),
    {
        let pair = graph_parents(&self.graph, (target.chain_id, target.token_id));
        if pair.len() < 2 {
            return Coi::zero();
        }
        let first = pair[0];
        let second = pair[1];
        let from_first = self.ancestors_of(first);
        let from_second = self.ancestors_of(second);
        let common = common_ancestors(&from_first, &from_second);
        proof {
            assert forall|k: int| 0 <= k < common@.len() implies reachable(
                self@,
                first,
                #[trigger] common@[k],
            ) && reachable(self@, second, common@[k]) by {
                let node = common@[k];
                from_first@.lemma_filter_pred(among(from_second@), k);
                assert(common@.contains(node));
                from_first@.lemma_filter_contains_rev(among(from_second@), node);
            }
            if common@.len() > 0 {
                assert(reachable(self@, first, common@[0]) && reachable(self@, second, common@[0]));
            }
            lemma_one_loop_each(self@, common@, first, second);
        }
        Coi::Paths(self.loop_terms(rule, &common, first, second))
    }
}

/// The coefficient of inbreeding of `target`, counting for each common
/// ancestor of its parents the shortest path from either.
pub fn inbreeding(graph: &Ancestors, target: TroutId) -> (res: Coi)
    requires
        graph.wf(),
    ensures
        res@ == Some(coefficient(graph@, PathRule::Shortest, node_of(target))),
        neighbours(graph@, node_of(target)).len() < 2 ==> res@ == Some(Seq::<u128>::empty()),
        neighbours(graph@, node_of(target)).len() >= 2 && (forall|node: Node|
            !(reachable(graph@, neighbours(graph@, node_of(target))[0], node) && reachable(
                graph@,
                neighbours(graph@, node_of(target))[1],
                node,
            ))) ==> res@ == Some(Seq::<u128>::empty()),
{
    graph.inbreeding_by(target, PathRule::Shortest)
}

} // verus!
