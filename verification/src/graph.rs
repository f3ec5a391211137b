//! The dependency graph of resolved packages, and its wavefront phases.
//!
//! Edges point from a dependency to its dependent, so that a topological
//! traversal yields compile order. Nodes are told apart by their positions.

use vstd::prelude::*;
use vstd::hash_map::StringHashMap;
use vstd::string::StringExecFns;
use petgraph::graph::NodeIndex;
use petgraph::{Directed, Graph};
use crate::metadata::{Metadata, Package, ResolveNode};
use crate::{layers, metadata, order, text};

verus! {

// ---------------------------------------------------------------------------
// petgraph
// ---------------------------------------------------------------------------

/// `petgraph::Graph`.
#[verifier::external_type_specification]
#[verifier::external_body]
#[verifier::reject_recursive_types(N)]
#[verifier::reject_recursive_types(E)]
#[verifier::reject_recursive_types(Ty)]
#[verifier::reject_recursive_types(Ix)]
pub struct ExGraph<N, E, Ty, Ix>(petgraph::Graph<N, E, Ty, Ix>);

/// `petgraph::Directed`, the mark of a graph whose edges have a direction.
#[verifier::external_type_specification]
#[verifier::external_body]
pub struct ExDirected(petgraph::Directed);

/// The texts that the nodes of a graph carry, in the order of their positions.
pub uninterp spec fn graph_nodes(g: Graph<String, (), Directed, u32>) -> Seq<Seq<char>>;

/// The edges of a graph, source before target, in the order they were added.
pub uninterp spec fn graph_edges(g: Graph<String, (), Directed, u32>) -> Seq<(usize, usize)>;

/// The targets of the edges that leave `n`, the last added edge first.
pub open spec fn targets(edges: Seq<(usize, usize)>, n: usize) -> Seq<usize>
    decreases edges.len(),
{
    if edges.len() == 0 {
        Seq::empty()
    } else if edges.last().0 == n {
        seq![edges.last().1] + targets(edges.drop_last(), n)
    } else {
        targets(edges.drop_last(), n)
    }
}

/// The sources of the edges that reach `n`, the last added edge first.
pub open spec fn sources(edges: Seq<(usize, usize)>, n: usize) -> Seq<usize>
    decreases edges.len(),
{
    if edges.len() == 0 {
        Seq::empty()
    } else if edges.last().1 == n {
        seq![edges.last().0] + sources(edges.drop_last(), n)
    } else {
        sources(edges.drop_last(), n)
    }
}

/// `Graph::new`: a graph without nodes and edges.
#[verifier::external_body]
fn empty_graph() -> (g: Graph<String, (), Directed, u32>)
    ensures
        graph_nodes(g) == Seq::<Seq<char>>::empty(),
        graph_edges(g) == Seq::<(usize, usize)>::empty(),
{
    Graph::new()
}

/// `Graph::add_node`: adds a node behind the others and returns its position. It
/// panics on a graph that has as many nodes as its index type can tell apart.
#[verifier::external_body]
fn add_node(g: &mut Graph<String, (), Directed, u32>, id: String) -> (r: usize)
    requires
        graph_nodes(*old(g)).len() < u32::MAX,
    ensures
        graph_nodes(*final(g)) == graph_nodes(*old(g)).push(id@),
        graph_edges(*final(g)) == graph_edges(*old(g)),
        r == graph_nodes(*old(g)).len(),
{
    g.add_node(id).index()
}

/// `Graph::add_edge`: adds an edge, also where there is one already. It panics if
/// an end does not exist, and on a graph that has as many edges as its index type
/// can tell apart.
#[verifier::external_body]
fn add_edge(g: &mut Graph<String, (), Directed, u32>, from: usize, to: usize)
    requires
        from < graph_nodes(*old(g)).len(),
        to < graph_nodes(*old(g)).len(),
        graph_nodes(*old(g)).len() <= u32::MAX,
        graph_edges(*old(g)).len() < u32::MAX,
    ensures
        graph_nodes(*final(g)) == graph_nodes(*old(g)),
        graph_edges(*final(g)) == graph_edges(*old(g)).push((from, to)),
{
    g.add_edge(NodeIndex::new(from), NodeIndex::new(to), ());
}

/// `Graph::node_count`: how many nodes the graph has.
#[verifier::external_body]
fn node_count(g: &Graph<String, (), Directed, u32>) -> (r: usize)
    ensures
        r == graph_nodes(*g).len(),
{
    g.node_count()
}

/// `Index` for `Graph` by a node: the text that the node carries. It panics if
/// there is no such node.
#[verifier::external_body]
fn node_text(g: &Graph<String, (), Directed, u32>, n: usize) -> (r: &str)
    requires
        n < graph_nodes(*g).len(),
        graph_nodes(*g).len() <= u32::MAX,
    ensures
        r@ == graph_nodes(*g)[n as int],
{
    g[NodeIndex::new(n)].as_str()
}

/// `Graph::neighbors_directed`: for a node of a directed graph, the targets of the
/// edges that leave it, or the sources of those that reach it, one per edge, in the
/// reverse order of their addition.
#[verifier::external_body]
fn neighbors(g: &Graph<String, (), Directed, u32>, n: usize, incoming: bool) -> (r: Vec<usize>)
    requires
        n < graph_nodes(*g).len(),
        graph_nodes(*g).len() <= u32::MAX,
    ensures
        r@ == if incoming {
            sources(graph_edges(*g), n)
        } else {
            targets(graph_edges(*g), n)
        },
{
    let direction = match incoming {
        true => petgraph::Direction::Incoming,
        false => petgraph::Direction::Outgoing,
    };
    g.neighbors_directed(NodeIndex::new(n), direction).map(|m| m.index()).collect()
}

// ---------------------------------------------------------------------------
// The graph of a workspace
// ---------------------------------------------------------------------------

/// A graph where each node is a package id, with the position of each id.
pub struct Dag {
    pub graph: Graph<String, (), Directed, u32>,
    pub by_id: StringHashMap<usize>,
}

/// Every edge joins two of the first `n` nodes.
pub open spec fn edges_in_range(edges: Seq<(usize, usize)>, n: nat) -> bool {
    forall|e: int|
        0 <= e < edges.len() ==> (#[trigger] edges[e]).0 < n && edges[e].1 < n
}

/// For each of `n` nodes, the targets of the edges that leave it.
pub open spec fn successors(edges: Seq<(usize, usize)>, n: nat) -> Seq<Seq<usize>> {
    Seq::new(n, |d: int| targets(edges, d as usize))
}

/// The last place where `id` stands.
pub open spec fn last_place(ids: Seq<Seq<char>>, id: Seq<char>) -> int
    decreases ids.len(),
{
    if ids.len() == 0 {
        -1
    } else if ids.last() == id {
        ids.len() - 1
    } else {
        last_place(ids.drop_last(), id)
    }
}

/// `places` holds the last place of each id.
pub open spec fn places_are(places: Map<Seq<char>, usize>, ids: Seq<Seq<char>>) -> bool {
    &&& forall|id: Seq<char>| #[trigger] places.contains_key(id) <==> ids.contains(id)
    &&& forall|id: Seq<char>| #[trigger]
        places.contains_key(id) ==> places[id] == last_place(ids, id)
}

impl Dag {
    /// The ids of the nodes.
    pub open spec fn ids(self) -> Seq<Seq<char>> {
        graph_nodes(self.graph)
    }

    /// The edges, from dependency to dependent.
    pub open spec fn edges(self) -> Seq<(usize, usize)> {
        graph_edges(self.graph)
    }

    /// The edges join nodes of the graph.
    pub open spec fn wf(self) -> bool {
        &&& self.ids().len() <= u32::MAX
        &&& edges_in_range(self.edges(), self.ids().len())
    }

    /// The positions by id are those of the ids.
    pub open spec fn is_indexed(self) -> bool {
        places_are(self.by_id@, self.ids())
    }

    /// The dependents of each node.
    pub open spec fn dependents(self) -> Seq<Seq<usize>> {
        successors(self.edges(), self.ids().len())
    }

    /// The nodes that each node waits for.
    pub open spec fn waits_for(self) -> Seq<Set<int>> {
        layers::deps_of(self.dependents())
    }

    /// The id of a node.
    pub fn id_of(&self, idx: usize) -> (r: &str)
        requires
            self.wf(),
            idx < self.ids().len(),
        ensures
            r@ == self.ids()[idx as int],
    {
        node_text(&self.graph, idx)
    }
}

/// A node with one of its dependencies: the dependency's id and the node's own.
pub open spec fn node_links(node: ResolveNode) -> Seq<(Seq<char>, Seq<char>)> {
    node.compile_ids().map_values(|d: Seq<char>| (d, node.id@))
}

/// The dependencies of the first `k` nodes, in order.
pub open spec fn links(nodes: Seq<ResolveNode>, k: int) -> Seq<(Seq<char>, Seq<char>)>
    decreases k,
{
    if k <= 0 {
        Seq::empty()
    } else {
        links(nodes, k - 1) + node_links(nodes[k - 1])
    }
}

/// All dependencies that the metadata names.
pub open spec fn all_links(meta: Metadata) -> Seq<(Seq<char>, Seq<char>)> {
    links(meta.resolve.nodes@, meta.resolve.nodes@.len() as int)
}

/// The ids of the resolved packages.
pub open spec fn resolved_ids(meta: Metadata) -> Seq<Seq<char>> {
    meta.resolve.nodes@.map_values(|n: ResolveNode| n.id@)
}

/// The first `m` dependencies are all resolved.
pub open spec fn known_upto(meta: Metadata, m: int) -> bool {
    forall|x: int|
        0 <= x < m ==> resolved_ids(meta).contains((#[trigger] all_links(meta)[x]).0)
}

/// Every dependency is resolved.
pub open spec fn all_known(meta: Metadata) -> bool {
    known_upto(meta, all_links(meta).len() as int)
}

/// Dependency `m` is the first that is not resolved.
pub open spec fn first_unknown(meta: Metadata, m: int) -> bool {
    &&& 0 <= m < all_links(meta).len()
    &&& known_upto(meta, m)
    &&& !resolved_ids(meta).contains(all_links(meta)[m].0)
}

pub open spec fn unknown_message(link: (Seq<char>, Seq<char>)) -> Seq<char> {
    "resolve node "@ + link.1 + " references unknown dependency "@ + link.0
}

/// There are no more packages and resolved dependencies than a graph can hold.
pub open spec fn fits(meta: Metadata) -> bool {
    &&& meta.resolve.nodes@.len() <= u32::MAX
    &&& forall|m: int|
        0 <= m <= all_links(meta).len() && #[trigger] known_upto(meta, m) ==> m <= u32::MAX
}

/// The edge of a dependency. Of several nodes with the same id, the last counts.
pub open spec fn edge_of(meta: Metadata, link: (Seq<char>, Seq<char>)) -> (usize, usize) {
    (
        last_place(resolved_ids(meta), link.0) as usize,
        last_place(resolved_ids(meta), link.1) as usize,
    )
}

/// The edges of the metadata's graph.
pub open spec fn meta_edges(meta: Metadata) -> Seq<(usize, usize)> {
    all_links(meta).map_values(|l: (Seq<char>, Seq<char>)| edge_of(meta, l))
}

/// The dependents of each resolved package.
pub open spec fn meta_dependents(meta: Metadata) -> Seq<Seq<usize>> {
    successors(meta_edges(meta), meta.resolve.nodes@.len())
}

/// What each resolved package waits for.
pub open spec fn meta_deps(meta: Metadata) -> Seq<Set<int>> {
    layers::deps_of(meta_dependents(meta))
}

/// The last place of an id holds it, and is there if the id is.
pub proof fn lemma_last_place(ids: Seq<Seq<char>>, id: Seq<char>)
    ensures
        -1 <= last_place(ids, id) < ids.len(),
        ids.contains(id) <==> last_place(ids, id) >= 0,
        ids.contains(id) ==> ids[last_place(ids, id)] == id,
    decreases ids.len(),
{
    if ids.len() > 0 {
        let front = ids.drop_last();
        lemma_last_place(front, id);
        if ids.contains(id) && ids.last() != id {
            let k = choose|k: int| 0 <= k < ids.len() && ids[k] == id;
            assert(front[k] == id);
        }
        if ids.last() == id {
            assert(ids[ids.len() - 1] == id);
        }
        if front.contains(id) {
            let k = choose|k: int| 0 <= k < front.len() && front[k] == id;
            assert(ids[k] == id);
        }
    }
}

proof fn lemma_links_grow(nodes: Seq<ResolveNode>, i: int, k: int)
    requires
        0 <= i <= k,
    ensures
        links(nodes, i).len() <= links(nodes, k).len(),
        links(nodes, k).take(links(nodes, i).len() as int) == links(nodes, i),
    decreases k,
{
    if i == k {
        assert(links(nodes, k).take(links(nodes, k).len() as int) =~= links(nodes, k));
    } else {
        lemma_links_grow(nodes, i, k - 1);
        let a = links(nodes, i).len() as int;
        assert(links(nodes, k).take(a) =~= links(nodes, k - 1).take(a));
    }
}

/// Dependency `j` of node `i` stands behind those of the nodes before.
proof fn lemma_link_at(meta: Metadata, i: int, j: int)
    requires
        0 <= i < meta.resolve.nodes@.len(),
        0 <= j < meta.resolve.nodes@[i].compile_ids().len(),
    ensures
        ({
            let at = links(meta.resolve.nodes@, i).len() + j;
            &&& at < all_links(meta).len()
            &&& all_links(meta)[at as int] == (
                meta.resolve.nodes@[i].compile_ids()[j],
                meta.resolve.nodes@[i].id@,
            )
        }),
{
    let nodes = meta.resolve.nodes@;
    let at = links(nodes, i).len() + j;
    lemma_links_grow(nodes, i + 1, nodes.len() as int);
    let upto = links(nodes, i + 1);
    assert(upto[at as int] == node_links(nodes[i])[j]);
    assert(all_links(meta).take(upto.len() as int)[at as int] == upto[at as int]);
}

/// Builds the dependency graph: one node per resolved package, and one edge per
/// compile dependency.
pub fn build(meta: &Metadata) -> (r: Result<Dag, String>)
    requires
        fits(*meta),
    ensures
        match r {
            Ok(dag) => {
                &&& all_known(*meta)
                &&& dag.wf()
                &&& dag.is_indexed()
                &&& dag.ids() == resolved_ids(*meta)
                &&& dag.edges() == meta_edges(*meta)
            },
            Err(e) => exists|m: int| #[trigger]
                first_unknown(*meta, m) && e@ == unknown_message(all_links(*meta)[m]),
        },
{
    let n: usize = meta.resolve.nodes.len();
    let ghost nodes = meta.resolve.nodes@;
    let ghost ids = resolved_ids(*meta);
    let mut graph = empty_graph();
    let mut by_id: StringHashMap<usize> = StringHashMap::new();
    let mut i: usize = 0;
    assert(ids.take(0) =~= Seq::<Seq<char>>::empty());
    while i < n
        invariant
            i <= n,
            n == meta.resolve.nodes@.len(),
            n <= u32::MAX,
            ids == resolved_ids(*meta),
            graph_nodes(graph) == ids.take(i as int),
            graph_edges(graph) == Seq::<(usize, usize)>::empty(),
            places_are(by_id@, ids.take(i as int)),
        decreases n - i,
    {
        let id = meta.resolve.nodes[i].id.as_str();
        let ghost before = by_id@;
        let ghost upto = ids.take(i + 1);
        let idx = add_node(&mut graph, id.to_owned());
        by_id.insert(id.to_owned(), idx);
        proof {
            assert(upto =~= ids.take(i as int).push(id@));
            assert(upto.drop_last() =~= ids.take(i as int));
            assert forall|x: Seq<char>|
                (#[trigger] by_id@.contains_key(x) <==> upto.contains(x)) && (by_id@.contains_key(x)
                    ==> by_id@[x] == last_place(upto, x)) by {
                assert(before.contains_key(x) <==> ids.take(i as int).contains(x));
                if ids.take(i as int).contains(x) {
                    let k = choose|k: int| 0 <= k < i && ids.take(i as int)[k] == x;
                    assert(upto[k] == x);
                }
                if x == id@ {
                    assert(upto[i as int] == x);
                }
                if upto.contains(x) && x != id@ {
                    let k = choose|k: int| 0 <= k < upto.len() && upto[k] == x;
                    assert(ids.take(i as int)[k] == x);
                }
                lemma_last_place(ids.take(i as int), x);
            }
        }
        i += 1;
    }
    assert(ids.take(i as int) =~= ids);
    let ghost all = all_links(*meta);
    let ghost edges = meta_edges(*meta);
    i = 0;
    assert(edges.take(0) =~= Seq::<(usize, usize)>::empty());
    while i < n
        invariant
            i <= n,
            n == meta.resolve.nodes@.len(),
            fits(*meta),
            nodes == meta.resolve.nodes@,
            ids == resolved_ids(*meta),
            all == all_links(*meta),
            edges == meta_edges(*meta),
            graph_nodes(graph) == ids,
            places_are(by_id@, ids),
            links(nodes, i as int).len() <= all.len(),
            known_upto(*meta, links(nodes, i as int).len() as int),
            graph_edges(graph) == edges.take(links(nodes, i as int).len() as int),
        decreases n - i,
    {
        let node = &meta.resolve.nodes[i];
        let deps = node.compile_deps();
        let ghost from = links(nodes, i as int).len() as int;
        let ghost ci = nodes[i as int].compile_ids();
        let mut j: usize = 0;
        proof {
            assert(ids[i as int] == node.id@);
            assert(ids.contains(node.id@));
            assert(by_id@.contains_key(node.id@));
        }
        let dependent: usize = *by_id.get(node.id.as_str()).unwrap();
        while j < deps.len()
            invariant
                i < n,
                j <= deps@.len(),
                n == meta.resolve.nodes@.len(),
                fits(*meta),
                nodes == meta.resolve.nodes@,
                ids == resolved_ids(*meta),
                all == all_links(*meta),
                edges == meta_edges(*meta),
                graph_nodes(graph) == ids,
                places_are(by_id@, ids),
                *node == nodes[i as int],
                ci == nodes[i as int].compile_ids(),
                ci == text::borrowed(deps@),
                from == links(nodes, i as int).len(),
                by_id@.contains_key(node.id@),
                dependent == by_id@[node.id@],
                from + j <= all.len(),
                known_upto(*meta, from + j),
                graph_edges(graph) == edges.take(from + j),
            decreases deps@.len() - j,
        {
            let dep_id = deps[j];
            proof {
                assert(ci[j as int] == dep_id@);
                lemma_link_at(*meta, i as int, j as int);
            }
            match by_id.get(dep_id) {
                Some(p) => {
                    let dep: usize = *p;
                    proof {
                        lemma_last_place(ids, dep_id@);
                        lemma_last_place(ids, node.id@);
                        assert(known_upto(*meta, from + j + 1)) by {
                            assert forall|x: int| 0 <= x < from + j + 1 implies ids.contains(
                                (#[trigger] all[x]).0,
                            ) by {
                                if x < from + j {
                                    assert(ids.contains(all_links(*meta)[x].0));
                                }
                            }
                        }
                        assert(from + j + 1 <= u32::MAX);
                        assert(edges[from + j] == (dep, dependent));
                        assert(edges.take(from + j + 1) =~= edges.take(from + j).push(
                            (dep, dependent),
                        ));
                    }
                    add_edge(&mut graph, dep, dependent);
                },
                None => {
                    let mut m = "resolve node ".to_owned();
                    m.append(node.id.as_str());
                    m.append(" references unknown dependency ");
                    m.append(dep_id);
                    proof {
                        assert(!ids.contains(dep_id@));
                        assert(first_unknown(*meta, from + j));
                        assert(m@ == unknown_message(all[from + j]));
                    }
                    return Err(m);
                },
            }
            j += 1;
        }
        proof {
            assert(links(nodes, i + 1).len() == from + ci.len());
            assert(deps@.len() == ci.len());
        }
        i += 1;
    }
    proof {
        assert(edges.take(all.len() as int) =~= edges);
        assert(edges_in_range(edges, ids.len())) by {
            assert forall|e: int| 0 <= e < edges.len() implies (#[trigger] edges[e]).0 < ids.len()
                && edges[e].1 < ids.len() by {
                assert(ids.contains(all_links(*meta)[e].0));
                lemma_links_have_nodes(*meta, e);
                lemma_last_place(ids, all[e].0);
                lemma_last_place(ids, all[e].1);
            }
        }
    }
    Ok(Dag { graph, by_id })
}

/// Whether a graph can hold every package and every dependency, resolved or not.
pub fn within_limits(meta: &Metadata) -> (r: bool)
    ensures
        r == (meta.resolve.nodes@.len() <= u32::MAX && all_links(*meta).len() <= u32::MAX),
        r ==> fits(*meta),
{
    let n: usize = meta.resolve.nodes.len();
    if n > u32::MAX as usize {
        return false;
    }
    let ghost nodes = meta.resolve.nodes@;
    let mut room: u32 = u32::MAX;
    let mut i: usize = 0;
    while i < n
        invariant
            i <= n,
            n == meta.resolve.nodes@.len(),
            nodes == meta.resolve.nodes@,
            room + links(nodes, i as int).len() == u32::MAX,
        decreases n - i,
    {
        let deps = meta.resolve.nodes[i].compile_deps();
        proof {
            assert(text::borrowed(deps@).len() == deps@.len());
            assert(links(nodes, i + 1).len() == links(nodes, i as int).len() + deps@.len());
            lemma_links_grow(nodes, i + 1, n as int);
        }
        if deps.len() > room as usize {
            return false;
        }
        room = room - deps.len() as u32;
        i += 1;
    }
    true
}

/// The second id of a link is that of a node.
proof fn lemma_links_have_nodes(meta: Metadata, e: int)
    requires
        0 <= e < all_links(meta).len(),
    ensures
        resolved_ids(meta).contains(all_links(meta)[e].1),
{
    lemma_links_have_nodes_upto(meta, meta.resolve.nodes@.len() as int, e);
}

proof fn lemma_links_have_nodes_upto(meta: Metadata, k: int, e: int)
    requires
        0 <= k <= meta.resolve.nodes@.len(),
        0 <= e < links(meta.resolve.nodes@, k).len(),
    ensures
        resolved_ids(meta).contains(links(meta.resolve.nodes@, k)[e].1),
    decreases k,
{
    let nodes = meta.resolve.nodes@;
    if e < links(nodes, k - 1).len() {
        lemma_links_have_nodes_upto(meta, k - 1, e);
    } else {
        assert(resolved_ids(meta)[k - 1] == nodes[k - 1].id@);
        assert(links(nodes, k)[e] == node_links(nodes[k - 1])[e - links(nodes, k - 1).len()]);
    }
}

// ---------------------------------------------------------------------------
// Phases
// ---------------------------------------------------------------------------

proof fn lemma_targets_in_range(edges: Seq<(usize, usize)>, n: nat, d: usize)
    requires
        edges_in_range(edges, n),
    ensures
        forall|t: int|
            0 <= t < targets(edges, d).len() ==> (#[trigger] targets(edges, d)[t]) < n,
    decreases edges.len(),
{
    if edges.len() > 0 {
        let front = edges.drop_last();
        assert(edges[edges.len() - 1] == edges.last());
        assert forall|e: int| 0 <= e < front.len() implies (#[trigger] front[e]).0 < n && front[e].1
            < n by {
            assert(front[e] == edges[e]);
        }
        lemma_targets_in_range(front, n, d);
        if edges.last().0 == d {
            assert forall|t: int| 0 <= t < targets(edges, d).len() implies (#[trigger] targets(
                edges,
                d,
            )[t]) < n by {
                if t > 0 {
                    assert(targets(edges, d)[t] == targets(front, d)[t - 1]);
                }
            }
        }
    }
}

proof fn lemma_times_prepend(x: usize, s: Seq<usize>, v: usize)
    ensures
        layers::times(seq![x] + s, v) == layers::times(s, v) + if x == v {
            1nat
        } else {
            0nat
        },
    decreases s.len(),
{
    let all = seq![x] + s;
    if s.len() == 0 {
        assert(all =~= Seq::<usize>::empty().push(x));
        layers::lemma_times_push(Seq::empty(), x, v);
    } else {
        assert(all.drop_last() =~= seq![x] + s.drop_last());
        lemma_times_prepend(x, s.drop_last(), v);
    }
}

/// Taking one more edge adds one naming of its target, in its source's list.
proof fn lemma_waits_one_more(edges: Seq<(usize, usize)>, n: nat, v: usize, m: nat)
    requires
        edges.len() > 0,
        m <= n <= usize::MAX,
    ensures
        layers::waits(successors(edges, n), Set::empty(), v, m) == layers::waits(
            successors(edges.drop_last(), n),
            Set::empty(),
            v,
            m,
        ) + if edges.last().0 < m && edges.last().1 == v {
            1nat
        } else {
            0nat
        },
    decreases m,
{
    if m > 0 {
        lemma_waits_one_more(edges, n, v, (m - 1) as nat);
        let d = (m - 1) as usize;
        let front = edges.drop_last();
        assert(successors(edges, n)[m - 1] == targets(edges, d));
        assert(successors(front, n)[m - 1] == targets(front, d));
        if edges.last().0 == d {
            lemma_times_prepend(edges.last().1, targets(front, d), v);
        }
    }
}

proof fn lemma_waits_of_nothing(n: nat, v: usize, m: nat)
    requires
        m <= n <= usize::MAX,
    ensures
        layers::waits(successors(Seq::empty(), n), Set::empty(), v, m) == 0,
    decreases m,
{
    if m > 0 {
        lemma_waits_of_nothing(n, v, (m - 1) as nat);
        let d = (m - 1) as usize;
        assert(successors(Seq::empty(), n)[m - 1] == targets(Seq::empty(), d));
    }
}

/// A node is named as often as edges reach it.
proof fn lemma_waits_count_sources(edges: Seq<(usize, usize)>, n: nat, v: usize)
    requires
        edges_in_range(edges, n),
        n <= usize::MAX,
    ensures
        layers::waits(successors(edges, n), Set::empty(), v, n) == sources(edges, v).len(),
    decreases edges.len(),
{
    if edges.len() == 0 {
        assert(edges =~= Seq::<(usize, usize)>::empty());
        lemma_waits_of_nothing(n, v, n);
    } else {
        let front = edges.drop_last();
        assert(edges[edges.len() - 1] == edges.last());
        assert forall|e: int| 0 <= e < front.len() implies (#[trigger] front[e]).0 < n && front[e].1
            < n by {
            assert(front[e] == edges[e]);
        }
        lemma_waits_count_sources(front, n, v);
        lemma_waits_one_more(edges, n, v, n);
    }
}

pub open spec fn cycle_message(emitted: nat, n: nat) -> Seq<char> {
    "dependency graph contains a cycle: emitted "@ + text::decimal(emitted) + " of "@
        + text::decimal(n) + " nodes"@
}

/// The ids, each as a key of one text.
pub open spec fn id_keys(ids: Seq<Seq<char>>) -> Seq<Seq<Seq<char>>> {
    ids.map_values(|id: Seq<char>| seq![id])
}

/// Computes the wavefront phases.
///
/// Each inner vector is one phase: a set of nodes that can compile in parallel,
/// listed by package id for stable output. It is an error if a node waits for
/// itself, directly or through others.
pub fn phases(dag: &Dag) -> (r: Result<Vec<Vec<usize>>, String>)
    requires
        dag.wf(),
    ensures
        match r {
            Ok(ph) => {
                &&& !layers::has_cycle(dag.waits_for())
                &&& layers::is_layering(dag.waits_for(), layers::lists(ph@))
                &&& layers::in_order(dag.dependents(), id_keys(dag.ids()), layers::lists(ph@))
            },
            Err(e) => {
                &&& layers::has_cycle(dag.waits_for())
                &&& e@ == cycle_message(
                    layers::reachable(dag.waits_for()).len(),
                    dag.ids().len(),
                )
            },
        },
{
    let n = node_count(&dag.graph);
    let ghost edges = dag.edges();
    let ghost ids = dag.ids();
    let mut indeg: Vec<usize> = Vec::new();
    let mut out: Vec<Vec<usize>> = Vec::new();
    let mut keys: Vec<Vec<Vec<char>>> = Vec::new();
    let mut v: usize = 0;
    while v < n
        invariant
            v <= n,
            n == dag.ids().len(),
            dag.wf(),
            edges == dag.edges(),
            ids == dag.ids(),
            indeg@.len() == v,
            out@.len() == v,
            keys@.len() == v,
            forall|x: int| 0 <= x < v ==> (#[trigger] indeg@[x]) as nat == sources(
                edges,
                x as usize,
            ).len(),
            forall|x: int| 0 <= x < v ==> (#[trigger] out@[x])@ == targets(edges, x as usize),
            forall|x: int| 0 <= x < v ==> order::row_view((#[trigger] keys@[x])@) == seq![ids[x]],
        decreases n - v,
    {
        indeg.push(neighbors(&dag.graph, v, true).len());
        out.push(neighbors(&dag.graph, v, false));
        let mut key: Vec<Vec<char>> = Vec::new();
        key.push(text::chars_of(dag.id_of(v)));
        assert(order::row_view(key@) =~= seq![ids[v as int]]);
        keys.push(key);
        v += 1;
    }
    proof {
        assert(layers::lists(out@) =~= dag.dependents());
        assert(order::table_view(keys@) =~= id_keys(ids));
        assert forall|i: int, t: int|
            0 <= i < out@.len() && 0 <= t < layers::lists(out@)[i].len() implies #[trigger] layers::lists(
            out@,
        )[i][t] < out@.len() by {
            lemma_targets_in_range(edges, n as nat, i as usize);
            assert(targets(edges, i as usize)[t] < n);
        }
        assert forall|x: int| 0 <= x < out@.len() implies (#[trigger] indeg@[x]) as nat
            == layers::waits(layers::lists(out@), Set::empty(), x as usize, out@.len()) by {
            lemma_waits_count_sources(edges, n as nat, x as usize);
        }
    }
    let peeled = layers::peel(indeg, &out, &keys);
    if peeled.emitted != n {
        let mut m = "dependency graph contains a cycle: emitted ".to_owned();
        m.append(text::decimal_text(peeled.emitted).as_str());
        m.append(" of ");
        m.append(text::decimal_text(n).as_str());
        m.append(" nodes");
        return Err(m);
    }
    Ok(peeled.phases)
}

/// `keys` holds for each resolved package its name.
pub open spec fn names_by_node(meta: Metadata, keys: Seq<Seq<Seq<char>>>) -> bool {
    &&& keys.len() == meta.resolve.nodes@.len()
    &&& forall|v: int, k: int|
        0 <= v < keys.len() && #[trigger] metadata::is_package_of(
            meta.packages@,
            resolved_ids(meta)[v],
            k,
        ) ==> #[trigger] keys[v] == seq![meta.packages@[k].name@]
}

/// `packages` are those of the nodes, listed by name; where names are the same, in
/// the order of the nodes.
pub open spec fn lists_packages(
    meta: Metadata,
    nodes: Seq<usize>,
    packages: Seq<Package>,
) -> bool {
    exists|keys: Seq<Seq<Seq<char>>>, ys: Seq<usize>|
        names_by_node(meta, keys) && #[trigger] order::stably_sorted(keys, nodes, ys)
            && packages.len() == ys.len() && forall|i: int, k: int|
            0 <= i < ys.len() && #[trigger] metadata::is_package_of(
                meta.packages@,
                resolved_ids(meta)[ys[i] as int],
                k,
            ) ==> #[trigger] packages[i]@ == meta.packages@[k]@
}

/// Every resolved id has a package.
pub open spec fn packages_known(meta: Metadata) -> bool {
    forall|v: int|
        0 <= v < meta.resolve.nodes@.len() ==> metadata::has_package(
            meta.packages@,
            #[trigger] resolved_ids(meta)[v],
        )
}

/// Builds the graph and computes the phases in one go, as packages.
pub fn build_phases(meta: &Metadata) -> (r: Vec<Vec<Package>>)
    requires
        fits(*meta),
        all_known(*meta),
        !layers::has_cycle(meta_deps(*meta)),
        packages_known(*meta),
    ensures
        exists|ph: Seq<Seq<usize>>| #[trigger]
            layers::is_layering(meta_deps(*meta), ph) && layers::in_order(
                meta_dependents(*meta),
                id_keys(resolved_ids(*meta)),
                ph,
            ) && r@.len() == ph.len() && forall|p: int|
                0 <= p < ph.len() ==> lists_packages(*meta, ph[p], (#[trigger] r@[p])@),
{
    let built = build(meta);
    proof {
        if built is Err {
            let m = choose|m: int| #[trigger] first_unknown(*meta, m);
            assert(resolved_ids(*meta).contains(all_links(*meta)[m].0));
        }
    }
    let dag = built.unwrap();
    let ph = phases(&dag).unwrap();
    let n: usize = meta.resolve.nodes.len();
    let ghost ids = resolved_ids(*meta);
    let ghost pv = layers::lists(ph@);
    let mut package_of: Vec<usize> = Vec::new();
    let mut keys: Vec<Vec<Vec<char>>> = Vec::new();
    let mut v: usize = 0;
    while v < n
        invariant
            v <= n,
            n == meta.resolve.nodes@.len(),
            ids == resolved_ids(*meta),
            packages_known(*meta),
            package_of@.len() == v,
            keys@.len() == v,
            forall|x: int|
                0 <= x < v ==> metadata::is_package_of(
                    meta.packages@,
                    ids[x],
                    (#[trigger] package_of@[x]) as int,
                ),
            forall|x: int|
                0 <= x < v ==> order::row_view((#[trigger] keys@[x])@) == seq![
                    meta.packages@[package_of@[x] as int].name@,
                ],
        decreases n - v,
    {
        assert(metadata::has_package(meta.packages@, ids[v as int]));
        let k: usize = metadata::find_package(
            &meta.packages,
            meta.resolve.nodes[v].id.as_str(),
        ).unwrap();
        let mut key: Vec<Vec<char>> = Vec::new();
        key.push(text::chars_of(meta.packages[k].name.as_str()));
        assert(order::row_view(key@) =~= seq![meta.packages@[k as int].name@]);
        package_of.push(k);
        keys.push(key);
        v += 1;
    }
    let ghost kv = order::table_view(keys@);
    proof {
        assert forall|x: int, k: int|
            0 <= x < kv.len() && #[trigger] metadata::is_package_of(
                meta.packages@,
                ids[x],
                k,
            ) implies #[trigger] kv[x] == seq![meta.packages@[k].name@] by {
            let k2 = package_of@[x] as int;
            assert(metadata::is_package_of(meta.packages@, ids[x], k2));
            assert(k == k2);
            assert(kv[x] == order::row_view(keys@[x]@));
        }
        assert(names_by_node(*meta, kv));
        layers::lemma_layering_lists_once(dag.waits_for(), pv);
    }
    let mut r: Vec<Vec<Package>> = Vec::new();
    let mut p: usize = 0;
    while p < ph.len()
        invariant
            p <= ph@.len(),
            n == meta.resolve.nodes@.len(),
            ids == resolved_ids(*meta),
            pv == layers::lists(ph@),
            kv == order::table_view(keys@),
            keys@.len() == n,
            package_of@.len() == n,
            names_by_node(*meta, kv),
            layers::listed_once(pv, n as nat),
            forall|q: int| 0 <= q < pv.len() ==> (#[trigger] pv[q]).no_duplicates(),
            forall|x: int|
                0 <= x < n ==> metadata::is_package_of(
                    meta.packages@,
                    ids[x],
                    (#[trigger] package_of@[x]) as int,
                ),
            r@.len() == p,
            forall|q: int| 0 <= q < p ==> lists_packages(*meta, pv[q], (#[trigger] r@[q])@),
        decreases ph@.len() - p,
    {
        let ghost nodes = pv[p as int];
        assert(nodes == ph@[p as int]@);
        assert forall|i: int| 0 <= i < nodes.len() implies #[trigger] nodes[i] < n by {
            assert(pv[p as int].contains(nodes[i]));
        }
        let ys = order::sort_positions(&ph[p], &keys);
        let mut packages: Vec<Package> = Vec::new();
        let mut i: usize = 0;
        assert forall|j: int| 0 <= j < ys@.len() implies #[trigger] ys@[j] < n by {
            assert(ys@.contains(ys@[j]));
            assert(nodes.contains(ys@[j]));
        }
        while i < ys.len()
            invariant
                i <= ys@.len(),
                n == meta.resolve.nodes@.len(),
                ids == resolved_ids(*meta),
                package_of@.len() == n,
                forall|x: int|
                    0 <= x < n ==> metadata::is_package_of(
                        meta.packages@,
                        ids[x],
                        (#[trigger] package_of@[x]) as int,
                    ),
                forall|j: int| 0 <= j < ys@.len() ==> #[trigger] ys@[j] < n,
                packages@.len() == i,
                forall|j: int|
                    0 <= j < i ==> (#[trigger] packages@[j])@
                        == meta.packages@[package_of@[ys@[j] as int] as int]@,
            decreases ys@.len() - i,
        {
            let v: usize = ys[i];
            assert(metadata::is_package_of(meta.packages@, ids[v as int], package_of@[v as int] as int));
            packages.push(meta.packages[package_of[v]].copied());
            i += 1;
        }
        proof {
            assert forall|j: int, k: int|
                0 <= j < ys@.len() && #[trigger] metadata::is_package_of(
                    meta.packages@,
                    ids[ys@[j] as int],
                    k,
                ) implies #[trigger] packages@[j]@ == meta.packages@[k]@ by {
                let k2 = package_of@[ys@[j] as int] as int;
                assert(metadata::is_package_of(meta.packages@, ids[ys@[j] as int], k2));
                assert(k == k2);
            }
            assert(order::stably_sorted(kv, nodes, ys@));
            assert(lists_packages(*meta, nodes, packages@));
        }
        r.push(packages);
        p += 1;
    }
    r
}

proof fn lemma_targets_hold(edges: Seq<(usize, usize)>, e: int)
    requires
        0 <= e < edges.len(),
    ensures
        targets(edges, edges[e].0).contains(edges[e].1),
    decreases edges.len(),
{
    let (d, n) = edges[e];
    let front = edges.drop_last();
    if e == edges.len() - 1 {
        assert(targets(edges, d)[0] == n);
    } else {
        lemma_targets_hold(front, e);
        let rest = targets(front, d);
        let t = choose|t: int| 0 <= t < rest.len() && rest[t] == n;
        if edges.last().0 == d {
            assert(targets(edges, d)[t + 1] == n);
        } else {
            assert(targets(edges, d)[t] == n);
        }
    }
}

/// A package compiles in a strictly later phase than each of its compile
/// dependencies.
pub proof fn law_dependencies_compile_earlier(
    meta: Metadata,
    ph: Seq<Seq<usize>>,
    link: int,
    p: int,
    q: int,
)
    requires
        layers::is_layering(meta_deps(meta), ph),
        meta.resolve.nodes@.len() <= usize::MAX,
        all_known(meta),
        0 <= link < all_links(meta).len(),
        0 <= p < ph.len(),
        0 <= q < ph.len(),
        ph[p].contains(edge_of(meta, all_links(meta)[link]).0),
        ph[q].contains(edge_of(meta, all_links(meta)[link]).1),
    ensures
        p < q,
{
    let edges = meta_edges(meta);
    let deps = meta_deps(meta);
    let (d, v) = edges[link];
    lemma_targets_hold(edges, link);
    lemma_last_place(resolved_ids(meta), all_links(meta)[link].0);
    assert(resolved_ids(meta).contains(all_links(meta)[link].0));
    assert(meta_dependents(meta)[d as int].contains(v));
    assert(deps[v as int].contains(d as int));
    assert(layers::settled(deps, d as int, q as nat));
    if q <= p {
        layers::lemma_settled_monotone(deps, d as int, q as nat, p as nat);
    }
}

/// Every resolved package is in some phase exactly if no package depends on itself,
/// directly or through others.
pub proof fn law_every_package_has_a_phase_iff_acyclic(meta: Metadata, ph: Seq<Seq<usize>>)
    requires
        layers::is_layering(meta_deps(meta), ph),
        meta.resolve.nodes@.len() <= usize::MAX,
    ensures
        (forall|v: usize|
            v < meta.resolve.nodes@.len() ==> #[trigger] layers::is_listed(ph, v))
            <==> !layers::has_cycle(meta_deps(meta)),
{
    layers::law_all_listed_iff_acyclic(meta_deps(meta), ph);
}

} // verus!
