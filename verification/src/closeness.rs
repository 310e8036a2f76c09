//! Closeness centrality: how near a node is to the nodes it reaches.

use vstd::prelude::*;
use crate::graph::{adjacency, labels, node_count, node_label};
use crate::paths::{
    hop_distance, hop_distances, is_distance_table, lemma_no_way_out, lemma_self_distance, reachable,
    walk_between,
};

verus! {

/// The two terms of a closeness score. The score is `reached_others` divided
/// by `total_hops`, and zero where `total_hops` is zero.
#[derive(Clone, Copy, Debug, PartialEq, Eq)]
pub struct Closeness {
    /// Number of nodes reached, the node itself not counted.
    pub reached_others: usize,
    /// Sum of the hop distances to the nodes reached.
    pub total_hops: u128,
}

impl Closeness {
    /// The score is zero.
    pub open spec fn spec_is_zero(self) -> bool {
        self.total_hops == 0
    }

    /// These are the terms of a table of hop distances: one less than it
    /// has entries, and the sum of its distances.
    pub open spec fn tallies(self, entries: Seq<(usize, u64)>) -> bool {
        self.reached_others == entries.len() - 1 && self.total_hops == sum_hops(entries)
    }

    /// These are the closeness terms of node `v` of `adj`: some table of the
    /// hop distances from `v` has them, and so has every such table.
    pub open spec fn is_closeness_of(self, adj: Seq<Seq<int>>, v: int) -> bool {
        &&& exists|entries: Seq<(usize, u64)>| #[trigger]
            is_distance_table(adj, v, entries) && self.tallies(entries)
        &&& forall|entries: Seq<(usize, u64)>| #[trigger]
            is_distance_table(adj, v, entries) ==> self.tallies(entries)
    }

    /// Whether the score is zero.
    #[verifier::when_used_as_spec(spec_is_zero)]
    pub fn is_zero(self) -> (zero: bool)
        ensures
            zero == self.spec_is_zero(),
    {
        self.total_hops == 0
    }
}

/// Sum of the distances in a list of pairs of node and distance.
pub open spec fn sum_hops(entries: Seq<(usize, u64)>) -> nat
    decreases entries.len(),
{
    if entries.len() == 0 {
        0
    } else {
        sum_hops(entries.drop_last()) + entries.last().1 as nat
    }
}

/// The sum is at most the largest distance times the number of entries, and
/// it is zero exactly where every distance is zero.
proof fn lemma_sum_hops(entries: Seq<(usize, u64)>)
    ensures
        sum_hops(entries) <= entries.len() * 0xffff_ffff_ffff_ffff,
        sum_hops(entries) == 0 <==> (forall|i: int| 0 <= i < entries.len() ==> (#[trigger] entries[i]).1 == 0),
    decreases entries.len(),
{
    if entries.len() > 0 {
        let front = entries.drop_last();
        lemma_sum_hops(front);
        assert(forall|i: int| 0 <= i < front.len() ==> front[i] == entries[i]);
        if sum_hops(entries) == 0 {
            assert forall|i: int| 0 <= i < entries.len() implies (#[trigger] entries[i]).1 == 0 by {
                if i < front.len() {
                    assert(front[i].1 == 0);
                }
            }
        }
        assert(entries.len() * 0xffff_ffff_ffff_ffff == front.len() * 0xffff_ffff_ffff_ffff
            + 0xffff_ffff_ffff_ffff) by (nonlinear_arith)
            requires
                entries.len() == front.len() + 1,
        ;
    }
}

/// The closeness terms of a node from the table of its hop distances: how
/// many entries there are beside the node's own, and what the distances add
/// up to.
pub fn closeness_terms(entries: &Vec<(usize, u64)>) -> (score: Closeness)
    ensures
        score.reached_others == if entries@.len() == 0 { 0 } else { entries@.len() - 1 },
        score.total_hops == sum_hops(entries@),
{
    let mut total: u128 = 0;
    let mut i: usize = 0;
    while i < entries.len()
        invariant
            i <= entries@.len(),
            total == sum_hops(entries@.take(i as int)),
        decreases entries@.len() - i,
    {
        proof {
            lemma_sum_hops(entries@.take(i as int));
            assert(i * 0xffff_ffff_ffff_ffff <= 0xffff_ffff_ffff_ffff * 0xffff_ffff_ffff_ffff)
                by (nonlinear_arith)
                requires
                    i <= 0xffff_ffff_ffff_ffff,
            ;
            assert(entries@.take(i + 1).drop_last() == entries@.take(i as int));
        }
        total = total + entries[i].1 as u128;
        i += 1;
    }
    proof {
        assert(entries@.take(i as int) == entries@);
    }
    let reached_others: usize = if entries.len() == 0 { 0 } else { entries.len() - 1 };
    Closeness { reached_others, total_hops: total }
}

/// In the table of the distances from `s`, the distances add up to zero
/// exactly where `s` reaches no node but itself, and exactly where the table
/// holds one entry.
pub proof fn lemma_zero_iff_alone(adj: Seq<Seq<int>>, s: int, entries: Seq<(usize, u64)>)
    requires
        0 <= s < adj.len(),
        is_distance_table(adj, s, entries),
    ensures
        entries.len() >= 1,
        sum_hops(entries) == 0 <==> (forall|v: int| reachable(adj, s, v) ==> v == s),
        sum_hops(entries) == 0 <==> entries.len() == 1,
{
    lemma_sum_hops(entries);
    lemma_self_distance(adj, s);
    let own = choose|i: int| 0 <= i < entries.len() && (#[trigger] entries[i]).0 == s;
    assert(entries[own].1 == 0) by {
        assert(hop_distance(adj, s, entries[own].0 as int, entries[own].1 as nat));
        if entries[own].1 > 0 {
            assert(!walk_between(adj, s, s, 0));
        }
    }
    if sum_hops(entries) == 0 {
        assert forall|v: int| reachable(adj, s, v) implies v == s by {
            let i = choose|i: int| 0 <= i < entries.len() && (#[trigger] entries[i]).0 == v;
            assert(entries[i].1 == 0);
            assert(hop_distance(adj, s, entries[i].0 as int, entries[i].1 as nat));
        }
    }
    if forall|v: int| reachable(adj, s, v) ==> v == s {
        assert forall|i: int| 0 <= i < entries.len() implies (#[trigger] entries[i]).0 == s by {
            assert(hop_distance(adj, s, entries[i].0 as int, entries[i].1 as nat));
            assert(walk_between(adj, s, entries[i].0 as int, entries[i].1 as nat));
            assert(reachable(adj, s, entries[i].0 as int));
        }
        assert(entries.len() == 1) by {
            if entries.len() > 1 {
                assert(entries[0].0 == s);
                assert(entries[1].0 == s);
            }
        }
    }
    if entries.len() == 1 {
        assert(own == 0);
        assert forall|i: int| 0 <= i < entries.len() implies (#[trigger] entries[i]).1 == 0 by {}
    }
}

/// `a` and `b` list the same pairs, each in its own order, and neither lists
/// a node twice.
pub open spec fn same_entries(a: Seq<(usize, u64)>, b: Seq<(usize, u64)>) -> bool {
    &&& forall|i: int, j: int| 0 <= i < j < a.len() ==> (#[trigger] a[i]).0 != (#[trigger] a[j]).0
    &&& forall|i: int, j: int| 0 <= i < j < b.len() ==> (#[trigger] b[i]).0 != (#[trigger] b[j]).0
    &&& forall|i: int| 0 <= i < a.len() ==> b.contains(#[trigger] a[i])
    &&& forall|j: int| 0 <= j < b.len() ==> a.contains(#[trigger] b[j])
}

/// Taking one entry out of a list takes its distance out of the sum.
proof fn lemma_sum_hops_remove(entries: Seq<(usize, u64)>, j: int)
    requires
        0 <= j < entries.len(),
    ensures
        sum_hops(entries) == sum_hops(entries.remove(j)) + entries[j].1,
    decreases entries.len(),
{
    if j == entries.len() - 1 {
        assert(entries.remove(j) == entries.drop_last());
    } else {
        lemma_sum_hops_remove(entries.drop_last(), j);
        assert(entries.remove(j).drop_last() == entries.drop_last().remove(j));
        assert(entries.remove(j).last() == entries.last());
    }
}

/// Lists of the same pairs are equally long and add up to the same sum, in
/// whatever order each lists them.
pub proof fn lemma_sum_hops_any_order(a: Seq<(usize, u64)>, b: Seq<(usize, u64)>)
    requires
        same_entries(a, b),
    ensures
        a.len() == b.len(),
        sum_hops(a) == sum_hops(b),
    decreases a.len(),
{
    if a.len() == 0 {
        if b.len() > 0 {
            assert(a.contains(b[0]));
        }
    } else {
        let x = a.last();
        let front = a.drop_last();
        assert(b.contains(a[a.len() - 1]));
        let j = choose|j: int| 0 <= j < b.len() && b[j] == x;
        let rest = b.remove(j);
        assert(same_entries(front, rest)) by {
            assert forall|i: int, k: int| 0 <= i < k < rest.len() implies (#[trigger] rest[i]).0 != (
            #[trigger] rest[k]).0 by {
                let bi = if i < j { i } else { i + 1 };
                let bk = if k < j { k } else { k + 1 };
                assert(b[bi].0 != b[bk].0);
            }
            assert forall|i: int| 0 <= i < front.len() implies rest.contains(#[trigger] front[i]) by {
                assert(b.contains(a[i]));
                let m = choose|m: int| 0 <= m < b.len() && b[m] == a[i];
                assert(a[i].0 != a[a.len() - 1].0);
                if m < j {
                    assert(rest[m] == a[i]);
                } else {
                    assert(rest[m - 1] == a[i]);
                }
            }
            assert forall|k: int| 0 <= k < rest.len() implies front.contains(#[trigger] rest[k]) by {
                let bk = if k < j { k } else { k + 1 };
                assert(a.contains(b[bk]));
                let m = choose|m: int| 0 <= m < a.len() && a[m] == b[bk];
                if m == a.len() - 1 {
                    if bk < j {
                        assert(b[bk].0 != b[j].0);
                    } else {
                        assert(b[j].0 != b[bk].0);
                    }
                }
                assert(front[m] == rest[k]);
            }
        }
        lemma_sum_hops_any_order(front, rest);
        lemma_sum_hops_remove(b, j);
    }
}

/// A hop distance is unique: the least number of edges is one number.
pub proof fn lemma_hop_distance_unique(adj: Seq<Seq<int>>, s: int, v: int, d1: nat, d2: nat)
    requires
        hop_distance(adj, s, v, d1),
        hop_distance(adj, s, v, d2),
    ensures
        d1 == d2,
{
    if d1 < d2 {
        assert(walk_between(adj, s, v, d1));
    } else if d2 < d1 {
        assert(walk_between(adj, s, v, d2));
    }
}

/// Two tables of the hop distances from one source list the same pairs, so
/// they are equally long and add up to the same sum.
pub proof fn lemma_tables_agree(adj: Seq<Seq<int>>, s: int, a: Seq<(usize, u64)>, b: Seq<(usize, u64)>)
    requires
        is_distance_table(adj, s, a),
        is_distance_table(adj, s, b),
    ensures
        same_entries(a, b),
        a.len() == b.len(),
        sum_hops(a) == sum_hops(b),
{
    lemma_table_is_listed(adj, s, a, b);
    lemma_table_is_listed(adj, s, b, a);
    lemma_sum_hops_any_order(a, b);
}

/// Every pair of one table of hop distances stands in any other table for
/// the same source.
proof fn lemma_table_is_listed(adj: Seq<Seq<int>>, s: int, a: Seq<(usize, u64)>, b: Seq<(usize, u64)>)
    requires
        is_distance_table(adj, s, a),
        is_distance_table(adj, s, b),
    ensures
        forall|i: int| 0 <= i < a.len() ==> b.contains(#[trigger] a[i]),
{
    assert forall|i: int| 0 <= i < a.len() implies b.contains(#[trigger] a[i]) by {
        let v = a[i].0 as int;
        assert(hop_distance(adj, s, v, a[i].1 as nat));
        assert(walk_between(adj, s, v, a[i].1 as nat));
        assert(reachable(adj, s, v));
        let j = choose|j: int| 0 <= j < b.len() && (#[trigger] b[j]).0 == v;
        assert(hop_distance(adj, s, b[j].0 as int, b[j].1 as nat));
        lemma_hop_distance_unique(adj, s, v, a[i].1 as nat, b[j].1 as nat);
        assert(b[j] == a[i]);
    }
}

/// A node without outgoing edges has closeness zero, whatever else the graph
/// holds.
pub proof fn lemma_dead_end_scores_zero(adj: Seq<Seq<int>>, v: int, score: Closeness)
    requires
        0 <= v < adj.len(),
        adj[v].len() == 0,
        score.is_closeness_of(adj, v),
    ensures
        score.is_zero(),
        score.reached_others == 0,
{
    let entries = choose|entries: Seq<(usize, u64)>| #[trigger]
        is_distance_table(adj, v, entries) && score.tallies(entries);
    lemma_zero_iff_alone(adj, v, entries);
    assert forall|u: int| reachable(adj, v, u) implies u == v by {
        lemma_no_way_out(adj, v, u);
    }
}

/// The closeness of node `v`: `None` where the graph has no node `v`. The
/// terms count the nodes that `v` reaches beside itself, and add up their hop
/// distances, over some table of those distances. The score is zero exactly
/// where `v` reaches no node but itself.
pub fn closeness_of(
    g: &petgraph::graph::Graph<String, i32, petgraph::Directed, u32>,
    v: usize,
) -> (score: Option<Closeness>)
    ensures
        score is Some <==> v < adjacency(*g).len(),
        score is Some ==> score->0.is_closeness_of(adjacency(*g), v as int),
        score is Some ==> (score->0.is_zero() <==> (forall|u: int|
            reachable(adjacency(*g), v as int, u) ==> u == v)),
        score is Some ==> (score->0.is_zero() <==> score->0.reached_others == 0),
{
    if v >= node_count(g) {
        return None;
    }
    let entries = hop_distances(g, v);
    proof {
        lemma_zero_iff_alone(adjacency(*g), v as int, entries@);
        assert forall|other: Seq<(usize, u64)>| #[trigger]
            is_distance_table(adjacency(*g), v as int, other) implies other.len() == entries@.len()
            && sum_hops(other) == sum_hops(entries@) by {
            lemma_tables_agree(adjacency(*g), v as int, other, entries@);
        }
    }
    let score = closeness_terms(&entries);
    assert(score.tallies(entries@));
    Some(score)
}

/// The closeness of every node, by node index, each with the node's name.
pub fn compute_closeness_centrality(
    g: &petgraph::graph::Graph<String, i32, petgraph::Directed, u32>,
) -> (scores: Vec<(String, Closeness)>)
    ensures
        scores@.len() == adjacency(*g).len(),
        forall|v: int|
            0 <= v < scores@.len() ==> {
                &&& (#[trigger] scores@[v]).0@ == labels(*g)[v]
                &&& scores@[v].1.is_closeness_of(adjacency(*g), v)
                &&& scores@[v].1.is_zero() <==> (forall|u: int|
                    reachable(adjacency(*g), v, u) ==> u == v)
            },
{
    let n = node_count(g);
    let mut scores: Vec<(String, Closeness)> = Vec::new();
    let mut v: usize = 0;
    while v < n
        invariant
            v <= n,
            n == adjacency(*g).len(),
            n == labels(*g).len(),
            scores@.len() == v,
            forall|u: int|
                0 <= u < scores@.len() ==> {
                    &&& (#[trigger] scores@[u]).0@ == labels(*g)[u]
                    &&& scores@[u].1.is_closeness_of(adjacency(*g), u)
                    &&& scores@[u].1.is_zero() <==> (forall|x: int|
                        reachable(adjacency(*g), u, x) ==> x == u)
                },
        decreases n - v,
    {
        let name = node_label(g, v);
        let score = closeness_of(g, v);
        match score {
            Some(terms) => {
                scores.push((name, terms));
            },
            None => {
                assert(false);
            },
        }
        v += 1;
    }
    scores
}

} // verus!
