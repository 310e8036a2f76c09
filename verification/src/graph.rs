//! The directed graph and the few operations the engine reads it through.

use vstd::prelude::*;

verus! {

/// `petgraph::graph::Graph`, opaque to the verifier.
#[verifier::external_type_specification]
#[verifier::external_body]
#[verifier::reject_recursive_types(N)]
#[verifier::reject_recursive_types(E)]
#[verifier::reject_recursive_types(Ty)]
#[verifier::reject_recursive_types(Ix)]
pub struct ExGraph<N, E, Ty, Ix>(petgraph::graph::Graph<N, E, Ty, Ix>);

/// `petgraph::Directed`, the marker of directed graphs.
#[verifier::external_type_specification]
#[verifier::external_body]
pub struct ExDirected(petgraph::Directed);

/// Outgoing targets of every node of `g`, node by node, in the order in which
/// `Graph::edges` walks them. Parallel edges occur as often as they were added.
pub uninterp spec fn adjacency(g: petgraph::graph::Graph<String, i32, petgraph::Directed, u32>) -> Seq<Seq<int>>;

/// Name of every node of `g`, by node index.
pub uninterp spec fn labels(g: petgraph::graph::Graph<String, i32, petgraph::Directed, u32>) -> Seq<Seq<char>>;

/// `Graph::node_count`: the number of nodes, which is the length of the
/// adjacency. Nodes are indexed densely from zero.
#[verifier::external_body]
pub(crate) fn node_count(g: &petgraph::graph::Graph<String, i32, petgraph::Directed, u32>) -> (n: usize)
    ensures
        n == adjacency(*g).len(),
        labels(*g).len() == n,
{
    g.node_count()
}

/// `Graph::edges` followed by `EdgeRef::target` on each edge: the targets of
/// the edges that leave node `v`, in the iterator's order. An edge can only
/// be added between existing nodes, so every target is a node index.
#[verifier::external_body]
pub(crate) fn out_targets(g: &petgraph::graph::Graph<String, i32, petgraph::Directed, u32>, v: usize) -> (targets: Vec<usize>)
    requires
        v < adjacency(*g).len(),
    ensures
        targets@.len() == adjacency(*g)[v as int].len(),
        forall|j: int| 0 <= j < targets@.len() ==> #[trigger] targets@[j] == adjacency(*g)[v as int][j],
        forall|j: int| 0 <= j < targets@.len() ==> (#[trigger] targets@[j]) < adjacency(*g).len(),
{
    let mut targets: Vec<usize> = Vec::new();
    for edge in g.edges(petgraph::graph::NodeIndex::new(v)) {
        targets.push(petgraph::visit::EdgeRef::target(&edge).index());
    }
    targets
}

/// `Graph`'s `Index<NodeIndex>` and `String::clone`: a copy of the name that
/// node `v` carries.
#[verifier::external_body]
pub(crate) fn node_label(g: &petgraph::graph::Graph<String, i32, petgraph::Directed, u32>, v: usize) -> (name: String)
    requires
        v < labels(*g).len(),
    ensures
        name@ == labels(*g)[v as int],
{
    g[petgraph::graph::NodeIndex::new(v)].clone()
}

} // verus!
