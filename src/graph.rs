//! The graph engine that stores atoms as nodes and bonds as edges.
//!
//! Nodes are addressed by the index of their `NodeIndex`; an edge by the pair
//! of its end nodes, smaller index first.
use vstd::prelude::*;
use gchemol_graph::{NodeIndex, NxGraph};
use crate::atom::{Atom, Bond};

verus! {

#[verifier::external_type_specification]
#[verifier::external_body]
#[verifier::reject_recursive_types(N)]
#[verifier::reject_recursive_types(E)]
pub struct ExNxGraph<N, E>(NxGraph<N, E>) where N: Default, E: Default;

/// The atoms of a graph, by node index.
pub uninterp spec fn graph_nodes(g: NxGraph<Atom, Bond>) -> Map<usize, Atom>;

/// The bonds of a graph, by the pair of their end nodes, smaller index first.
pub uninterp spec fn graph_edges(g: NxGraph<Atom, Bond>) -> Map<(usize, usize), Bond>;

/// Whether each edge of the graph is recorded under its pair of end nodes in
/// the graph's own pair index, and no two edges join the same pair. Edges
/// that enter through `NxGraph::add_edge` keep this.
pub uninterp spec fn graph_pairs_indexed(g: NxGraph<Atom, Bond>) -> bool;

/// The edges of a graph, as end nodes and bond, in the order in which the
/// graph lists them.
pub uninterp spec fn graph_edge_order(g: NxGraph<Atom, Bond>) -> Seq<(usize, usize, Bond)>;

/// The key of the edge between `u` and `v`.
pub open spec fn pair(u: usize, v: usize) -> (usize, usize) {
    if u <= v { (u, v) } else { (v, u) }
}

pub open spec fn no_nodes() -> Map<usize, Atom> {
    Map::empty()
}

pub open spec fn no_edges() -> Map<(usize, usize), Bond> {
    Map::empty()
}

/// Edge indices are 32 bits wide: fewer edges than this can be held.
pub const MAX_EDGES: usize = 0xFFFF_FFFF;

/// Node indices are 32 bits wide: this many nodes can be held at most.
pub const MAX_NODES: usize = 0xFFFF_FFFE;

/// Relies on `NxGraph::new`: a graph without nodes or edges.
#[verifier::external_body]
pub fn new_graph() -> (r: NxGraph<Atom, Bond>)
    ensures
        graph_nodes(r) == no_nodes(),
        graph_edges(r) == no_edges(),
        graph_pairs_indexed(r),
{
    NxGraph::new()
}

/// Relies on `NxGraph::number_of_nodes`: the number of nodes.
#[verifier::external_body]
pub fn node_count(g: &NxGraph<Atom, Bond>) -> (r: usize)
    ensures
        r == graph_nodes(*g).len(),
{
    g.number_of_nodes()
}

/// Relies on `NxGraph::number_of_edges`: the number of edges, one for each
/// joined pair where no pair is joined twice.
#[verifier::external_body]
pub fn edge_count(g: &NxGraph<Atom, Bond>) -> (r: usize)
    requires
        graph_pairs_indexed(*g),
    ensures
        r == graph_edges(*g).len(),
{
    g.number_of_edges()
}

/// Relies on `NxGraph::add_node`: a new node under an index that no live node
/// has, below the 32-bit limit (the underlying graph panics at that limit).
#[verifier::external_body]
pub fn add_node(g: &mut NxGraph<Atom, Bond>, a: Atom) -> (r: usize)
    requires
        graph_nodes(*old(g)).len() < MAX_NODES,
    ensures
        !graph_nodes(*old(g)).contains_key(r),
        r < 0xFFFF_FFFF,
        graph_nodes(*final(g)) == graph_nodes(*old(g)).insert(r, a),
        graph_edges(*final(g)) == graph_edges(*old(g)),
        graph_pairs_indexed(*final(g)) == graph_pairs_indexed(*old(g)),
{
    g.add_node(a).index()
}

/// Relies on `NxGraph::remove_node`: the node goes, and with it every edge
/// that touches it; the pair index is left alone, so a consistent one stays
/// consistent.
#[verifier::external_body]
pub fn remove_node(g: &mut NxGraph<Atom, Bond>, n: usize) -> (r: Option<Atom>)
    requires
        graph_nodes(*old(g)).contains_key(n),
        graph_pairs_indexed(*old(g)),
    ensures
        r == Some(graph_nodes(*old(g))[n]),
        graph_nodes(*final(g)) == graph_nodes(*old(g)).remove(n),
        graph_edges(*final(g)) == graph_edges(*old(g)).restrict(
            graph_edges(*old(g)).dom().filter(|k: (usize, usize)| k.0 != n && k.1 != n),
        ),
        graph_pairs_indexed(*final(g)),
{
    g.remove_node(NodeIndex::new(n))
}

/// Relies on `NxGraph::add_edge`: adds the edge between `u` and `v`, or
/// replaces the value of the one that is there (`update_edge` of petgraph).
/// The underlying graph panics on a self-loop, on a missing node, and on a
/// new edge once the 32-bit edge indices are used up.
#[verifier::external_body]
pub fn add_edge(g: &mut NxGraph<Atom, Bond>, u: usize, v: usize, b: Bond)
    requires
        u != v,
        graph_edges(*old(g)).contains_key(pair(u, v)) || graph_edges(*old(g)).len() < MAX_EDGES,
        graph_nodes(*old(g)).contains_key(u),
        graph_nodes(*old(g)).contains_key(v),
        graph_pairs_indexed(*old(g)),
    ensures
        graph_nodes(*final(g)) == graph_nodes(*old(g)),
        graph_edges(*final(g)) == graph_edges(*old(g)).insert(pair(u, v), b),
        graph_pairs_indexed(*final(g)),
{
    g.add_edge(NodeIndex::new(u), NodeIndex::new(v), b)
}

/// Relies on `NxGraph::has_edge`: whether `u` and `v` are joined.
#[verifier::external_body]
pub fn has_edge(g: &NxGraph<Atom, Bond>, u: usize, v: usize) -> (r: bool)
    requires
        graph_pairs_indexed(*g),
        graph_nodes(*g).contains_key(u),
        graph_nodes(*g).contains_key(v),
    ensures
        r == graph_edges(*g).contains_key(pair(u, v)),
{
    g.has_edge(NodeIndex::new(u), NodeIndex::new(v))
}

/// Relies on `NxGraph::remove_edge`: the edge found under the pair in the
/// pair index goes.
#[verifier::external_body]
pub fn remove_edge(g: &mut NxGraph<Atom, Bond>, u: usize, v: usize) -> (r: Option<Bond>)
    requires
        graph_pairs_indexed(*old(g)),
        graph_edges(*old(g)).contains_key(pair(u, v)),
    ensures
        r == Some(graph_edges(*old(g))[pair(u, v)]),
        graph_nodes(*final(g)) == graph_nodes(*old(g)),
        graph_edges(*final(g)) == graph_edges(*old(g)).remove(pair(u, v)),
        graph_pairs_indexed(*final(g)),
{
    g.remove_edge(NodeIndex::new(u), NodeIndex::new(v))
}

/// Relies on `NxGraph::clear`: no node or edge stays.
#[verifier::external_body]
pub fn clear_graph(g: &mut NxGraph<Atom, Bond>)
    ensures
        graph_nodes(*final(g)) == no_nodes(),
        graph_edges(*final(g)) == no_edges(),
        graph_pairs_indexed(*final(g)),
{
    g.clear()
}

/// Relies on `NxGraph`'s `Index<NodeIndex>`: the atom of a node.
#[verifier::external_body]
pub fn node_ref(g: &NxGraph<Atom, Bond>, n: usize) -> (r: &Atom)
    requires
        graph_nodes(*g).contains_key(n),
    ensures
        *r == graph_nodes(*g)[n],
{
    &g[NodeIndex::new(n)]
}

/// Relies on `NxGraph`'s `IndexMut<NodeIndex>`: write access to the atom of a node.
#[verifier::external_body]
pub fn node_mut(g: &mut NxGraph<Atom, Bond>, n: usize) -> (r: &mut Atom)
    requires
        graph_nodes(*old(g)).contains_key(n),
    ensures
        *r == graph_nodes(*old(g))[n],
        graph_nodes(*final(g)) == graph_nodes(*old(g)).insert(n, *final(r)),
        graph_edges(*final(g)) == graph_edges(*old(g)),
        graph_pairs_indexed(*final(g)) == graph_pairs_indexed(*old(g)),
{
    &mut g[NodeIndex::new(n)]
}

/// Relies on `NxGraph`'s `Index<(NodeIndex, NodeIndex)>`: the bond between two
/// nodes, found through the pair index.
#[verifier::external_body]
pub fn edge_ref(g: &NxGraph<Atom, Bond>, u: usize, v: usize) -> (r: &Bond)
    requires
        graph_pairs_indexed(*g),
        graph_edges(*g).contains_key(pair(u, v)),
    ensures
        *r == graph_edges(*g)[pair(u, v)],
{
    &g[(NodeIndex::new(u), NodeIndex::new(v))]
}

/// Relies on `NxGraph`'s `IndexMut<(NodeIndex, NodeIndex)>`: write access to
/// the bond between two nodes, found through the pair index.
#[verifier::external_body]
pub fn edge_mut(g: &mut NxGraph<Atom, Bond>, u: usize, v: usize) -> (r: &mut Bond)
    requires
        graph_pairs_indexed(*old(g)),
        graph_edges(*old(g)).contains_key(pair(u, v)),
    ensures
        *r == graph_edges(*old(g))[pair(u, v)],
        graph_nodes(*final(g)) == graph_nodes(*old(g)),
        graph_edges(*final(g)) == graph_edges(*old(g)).insert(pair(u, v), *final(r)),
        graph_pairs_indexed(*final(g)),
{
    &mut g[(NodeIndex::new(u), NodeIndex::new(v))]
}

/// Relies on `NxGraph::node_indices` (petgraph's `StableGraph::node_indices`):
/// the indices of the live nodes, ascending.
#[verifier::external_body]
pub fn node_list(g: &NxGraph<Atom, Bond>) -> (r: Vec<usize>)
    ensures
        forall|i: int, j: int| 0 <= i < j < r@.len() ==> r@[i] < r@[j],
        forall|n: usize| r@.contains(n) <==> graph_nodes(*g).contains_key(n),
{
    g.node_indices().map(|n| n.index()).collect()
}

/// Relies on `NxGraph::edges`: each edge once, as its two end nodes and its
/// bond, in the graph's own order, which depends on the graph alone.
#[verifier::external_body]
pub fn edge_list(g: &NxGraph<Atom, Bond>) -> (r: Vec<(usize, usize, Bond)>)
    requires
        graph_pairs_indexed(*g),
    ensures
        r@ == graph_edge_order(*g),
        r@.len() == graph_edges(*g).len(),
        forall|i: int| #![trigger r@[i]] 0 <= i < r@.len() ==>
            graph_edges(*g).contains_key(pair(r@[i].0, r@[i].1))
            && graph_edges(*g)[pair(r@[i].0, r@[i].1)] == r@[i].2,
        forall|i: int, j: int| 0 <= i < j < r@.len() ==>
            pair(r@[i].0, r@[i].1) != pair(r@[j].0, r@[j].1),
        forall|k: (usize, usize)| graph_edges(*g).contains_key(k) ==>
            exists|i: int| 0 <= i < r@.len() && #[trigger] pair(r@[i].0, r@[i].1) == k,
{
    g.edges().map(|(u, v, b)| (u.index(), v.index(), *b)).collect()
}

} // verus!
