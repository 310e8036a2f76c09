//! Walks and hop distances in an adjacency, and the shortest-path call.

use vstd::prelude::*;
use crate::graph::adjacency;

verus! {

/// `p` is a non-empty sequence of nodes of `adj`, each joined to the next by
/// an edge.
pub open spec fn is_walk(adj: Seq<Seq<int>>, p: Seq<int>) -> bool {
    &&& p.len() > 0
    &&& forall|i: int| 0 <= i < p.len() ==> 0 <= #[trigger] p[i] < adj.len()
    &&& forall|i: int| 0 <= i < p.len() - 1 ==> adj[#[trigger] p[i]].contains(p[i + 1])
}

/// Some walk of exactly `hops` edges leads from `s` to `v`.
pub open spec fn walk_between(adj: Seq<Seq<int>>, s: int, v: int, hops: nat) -> bool {
    exists|p: Seq<int>| #[trigger]
        is_walk(adj, p) && p.len() == hops + 1 && p[0] == s && p[p.len() - 1] == v
}

/// Some walk leads from `s` to `v`.
pub open spec fn reachable(adj: Seq<Seq<int>>, s: int, v: int) -> bool {
    exists|hops: nat| walk_between(adj, s, v, hops)
}

/// `hops` is the least number of edges on a walk from `s` to `v`.
pub open spec fn hop_distance(adj: Seq<Seq<int>>, s: int, v: int, hops: nat) -> bool {
    &&& walk_between(adj, s, v, hops)
    &&& forall|fewer: nat| fewer < hops ==> !walk_between(adj, s, v, fewer)
}

/// `entries` lists, once each and in no particular order, the nodes that `s`
/// reaches, each with its hop distance from `s`.
pub open spec fn is_distance_table(adj: Seq<Seq<int>>, s: int, entries: Seq<(usize, u64)>) -> bool {
    &&& forall|i: int, j: int|
        0 <= i < j < entries.len() ==> (#[trigger] entries[i]).0 != (#[trigger] entries[j]).0
    &&& forall|i: int|
        0 <= i < entries.len() ==> hop_distance(
            adj,
            s,
            (#[trigger] entries[i]).0 as int,
            entries[i].1 as nat,
        )
    &&& forall|v: int|
        reachable(adj, s, v) ==> exists|i: int|
            0 <= i < entries.len() && (#[trigger] entries[i]).0 == v
}

/// What following an edge costs: one hop, whatever label the edge carries.
pub fn hop_cost(label: i32) -> (cost: u64)
    ensures
        cost == 1,
{
    1
}

/// `petgraph::algo::dijkstra` from `source` with no goal and `hop_cost` as
/// the cost of an edge, which is one for every edge: the map from each node
/// that `source` reaches along outgoing edges to the length of a shortest
/// path to it, handed out as pairs of node index and length. A map holds
/// each key once; in which order the pairs come is left open.
#[verifier::external_body]
pub(crate) fn hop_distances(
    g: &petgraph::graph::Graph<String, i32, petgraph::Directed, u32>,
    source: usize,
) -> (entries: Vec<(usize, u64)>)
    requires
        source < adjacency(*g).len(),
    ensures
        is_distance_table(adjacency(*g), source as int, entries@),
{
    let scores = petgraph::algo::dijkstra(g, petgraph::graph::NodeIndex::new(source), None, |edge| {
        hop_cost(*edge.weight())
    });
    let mut entries: Vec<(usize, u64)> = Vec::new();
    for (node, hops) in scores {
        entries.push((node.index(), hops));
    }
    entries
}

/// A node reaches itself in zero hops.
pub proof fn lemma_self_distance(adj: Seq<Seq<int>>, s: int)
    requires
        0 <= s < adj.len(),
    ensures
        hop_distance(adj, s, s, 0),
        reachable(adj, s, s),
{
    let p = seq![s];
    assert(is_walk(adj, p) && p.len() == 0 + 1 && p[0] == s && p[p.len() - 1] == s);
    assert(walk_between(adj, s, s, 0));
}

/// A node without outgoing edges reaches no node but itself.
pub proof fn lemma_no_way_out(adj: Seq<Seq<int>>, s: int, v: int)
    requires
        0 <= s < adj.len(),
        adj[s].len() == 0,
        reachable(adj, s, v),
    ensures
        v == s,
{
    let hops = choose|hops: nat| walk_between(adj, s, v, hops);
    let p = choose|p: Seq<int>| #[trigger]
        is_walk(adj, p) && p.len() == hops + 1 && p[0] == s && p[p.len() - 1] == v;
    if p.len() > 1 {
        assert(adj[p[0int]].contains(p[0int + 1]));
    }
}

/// A node without incoming edges is reached by no node but itself.
pub proof fn lemma_no_way_in(adj: Seq<Seq<int>>, s: int, v: int)
    requires
        forall|u: int| 0 <= u < adj.len() ==> !(#[trigger] adj[u]).contains(v),
        reachable(adj, s, v),
    ensures
        v == s,
{
    let hops = choose|hops: nat| walk_between(adj, s, v, hops);
    let p = choose|p: Seq<int>| #[trigger]
        is_walk(adj, p) && p.len() == hops + 1 && p[0] == s && p[p.len() - 1] == v;
    if p.len() > 1 {
        let i = p.len() - 2;
        assert(adj[p[i]].contains(p[i + 1]));
    }
}

} // verus!
