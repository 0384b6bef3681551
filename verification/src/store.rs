//! Trusted boundary around the petgraph arena that backs the trie.
//!
//! The trie keeps its nodes and edges in a `petgraph::stable_graph::StableGraph`.
//! Verus cannot look inside that type, so this module gives the graph's
//! contents two names — `graph_nodes`, the map from live node index to the
//! optional value stored there, and `graph_edges`, the set of
//! (source, target, key part) triples — and wraps each graph operation the
//! trie calls in a function whose contract states, over those names, what the
//! operation does.

use vstd::prelude::*;

use petgraph::stable_graph::StableGraph;
use petgraph::Directed;

verus! {

#[verifier::external_type_specification]
#[verifier::external_body]
pub struct ExDirected(Directed);

#[verifier::external_type_specification]
#[verifier::external_body]
#[verifier::reject_recursive_types(N)]
#[verifier::reject_recursive_types(E)]
#[verifier::reject_recursive_types(Ty)]
#[verifier::reject_recursive_types(Ix)]
pub struct ExStableGraph<N, E, Ty, Ix>(StableGraph<N, E, Ty, Ix>);

/// The live nodes of the arena: node index to the value stored there, if any.
pub uninterp spec fn graph_nodes(g: StableGraph<Option<String>, char, Directed, usize>) -> Map<int, Option<Seq<char>>>;

/// The live edges of the arena: (source, target, key part) triples.
pub uninterp spec fn graph_edges(g: StableGraph<Option<String>, char, Directed, usize>) -> Set<(int, int, char)>;

/// The contents of a node weight, seen abstractly.
pub open spec fn weight_view(w: Option<String>) -> Option<Seq<char>> {
    match w {
        Some(s) => Some(s@),
        None => None,
    }
}

/// The node map of a graph without nodes.
pub open spec fn no_nodes() -> Map<int, Option<Seq<char>>> {
    Map::empty()
}

/// The edge set of a graph without edges.
pub open spec fn no_edges() -> Set<(int, int, char)> {
    Set::empty()
}

/// Relies on StableGraph::default: a graph with no nodes and no edges.
#[verifier::external_body]
pub(crate) fn sg_empty() -> (r: StableGraph<Option<String>, char, Directed, usize>)
    ensures
        graph_nodes(r) == no_nodes(),
        graph_edges(r) == no_edges(),
{
    StableGraph::default()
}

/// Relies on StableGraph::add_node: stores the weight at an index that was not
/// live before, and touches no edge; it panics only when the graph is at the
/// maximum number of nodes for its index type.
#[verifier::external_body]
pub(crate) fn sg_add_node(
    g: &mut StableGraph<Option<String>, char, Directed, usize>,
    w: Option<String>,
) -> (r: usize)
    requires
        graph_nodes(*old(g)).dom().len() < usize::MAX,
    ensures
        !graph_nodes(*old(g)).dom().contains(r as int),
        graph_nodes(*final(g)) == graph_nodes(*old(g)).insert(r as int, weight_view(w)),
        graph_edges(*final(g)) == graph_edges(*old(g)),
{
    g.add_node(w).index()
}

/// Relies on StableGraph::add_edge: adds exactly the given edge and touches no
/// node; it panics only when an endpoint is not a live node.
#[verifier::external_body]
pub(crate) fn sg_add_edge(
    g: &mut StableGraph<Option<String>, char, Directed, usize>,
    a: usize,
    b: usize,
    c: char,
)
    requires
        graph_nodes(*old(g)).dom().contains(a as int),
        graph_nodes(*old(g)).dom().contains(b as int),
    ensures
        graph_nodes(*final(g)) == graph_nodes(*old(g)),
        graph_edges(*final(g)) == graph_edges(*old(g)).insert((a as int, b as int, c)),
{
    g.add_edge(
        petgraph::graph::NodeIndex::new(a),
        petgraph::graph::NodeIndex::new(b),
        c,
    );
}

/// Relies on StableGraph::edges: yields exactly the outgoing edges of the
/// given node (none when the node is not live), each as target and key part.
#[verifier::external_body]
pub(crate) fn sg_out_edges(
    g: &StableGraph<Option<String>, char, Directed, usize>,
    a: usize,
) -> (r: Vec<(usize, char)>)
    ensures
        forall|i: int|
            0 <= i < r@.len() ==> graph_edges(*g).contains((a as int, #[trigger] r@[i].0 as int, r@[i].1)),
        forall|t: usize, c: char|
            #[trigger] graph_edges(*g).contains((a as int, t as int, c)) ==> exists|i: int|
                0 <= i < r@.len() && r@[i] == (t, c),
{
    g.edges(petgraph::graph::NodeIndex::new(a))
        .map(|e| (petgraph::visit::EdgeRef::target(&e).index(), *petgraph::visit::EdgeRef::weight(&e)))
        .collect()
}

/// Relies on StableGraph::node_count: the number of live nodes.
#[verifier::external_body]
pub(crate) fn sg_node_count(g: &StableGraph<Option<String>, char, Directed, usize>) -> (r: usize)
    ensures
        r as nat == graph_nodes(*g).dom().len(),
{
    g.node_count()
}

/// Relies on StableGraph::node_weight: the value stored at a live node.
#[verifier::external_body]
pub(crate) fn sg_node_value<'a>(
    g: &'a StableGraph<Option<String>, char, Directed, usize>,
    a: usize,
) -> (r: Option<&'a String>)
    ensures
        match r {
            Some(v) => graph_nodes(*g).dom().contains(a as int)
                && graph_nodes(*g)[a as int] == Some(v@),
            None => !graph_nodes(*g).dom().contains(a as int)
                || graph_nodes(*g)[a as int] is None,
        },
{
    match g.node_weight(petgraph::graph::NodeIndex::new(a)) {
        Some(w) => w.as_ref(),
        None => None,
    }
}

/// Relies on StableGraph::node_weight_mut: replaces the weight stored at a
/// live node with the given one and hands back the previous weight.
#[verifier::external_body]
pub(crate) fn sg_swap_node_value(
    g: &mut StableGraph<Option<String>, char, Directed, usize>,
    a: usize,
    w: Option<String>,
) -> (r: Option<String>)
    ensures
        graph_nodes(*old(g)).dom().contains(a as int) ==> {
            &&& graph_nodes(*final(g)) == graph_nodes(*old(g)).insert(a as int, weight_view(w))
            &&& weight_view(r) == graph_nodes(*old(g))[a as int]
            &&& graph_edges(*final(g)) == graph_edges(*old(g))
        },
        !graph_nodes(*old(g)).dom().contains(a as int) ==> {
            &&& graph_nodes(*final(g)) == graph_nodes(*old(g))
            &&& graph_edges(*final(g)) == graph_edges(*old(g))
            &&& r is None
        },
{
    match g.node_weight_mut(petgraph::graph::NodeIndex::new(a)) {
        Some(slot) => core::mem::replace(slot, w),
        None => None,
    }
}

} // verus!
