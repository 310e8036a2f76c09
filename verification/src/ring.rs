//! Directed cycles: every node of one has the same closeness.

use vstd::prelude::*;
use crate::closeness::{sum_hops, Closeness};
use crate::counts::{is_path_count, sum_counts};
use crate::paths::{hop_distance, is_distance_table, is_walk, reachable, walk_between};
use crate::traversal::{
    edges_counted, finished, hops, lemma_distances_are_shortest, lemma_traversal_matches_table,
    occurrences, seen, tight_edge,
};

verus! {

/// The node after `i` on a ring of `k` nodes.
pub open spec fn ring_next(k: nat, i: int) -> int {
    if i + 1 == k {
        0
    } else {
        i + 1
    }
}

/// The node `d` steps after `s` on a ring of `k` nodes, for `d` up to `k`.
pub open spec fn ring_step(k: nat, s: int, d: int) -> int {
    if s + d < k {
        s + d
    } else {
        s + d - k
    }
}

/// `adj` is a directed cycle: one edge leaves every node, to the next node
/// of the ring.
pub open spec fn is_ring(adj: Seq<Seq<int>>) -> bool {
    &&& adj.len() >= 1
    &&& forall|i: int| 0 <= i < adj.len() ==> #[trigger] adj[i] == seq![ring_next(adj.len(), i)]
}

/// The walk of `d` edges from `s` round the ring.
pub open spec fn ring_walk(k: nat, s: int, d: nat) -> Seq<int> {
    Seq::new(d + 1, |i: int| ring_step(k, s, i))
}

/// The table of hop distances from `s` on a ring of `k` nodes: the node `d`
/// steps on lies `d` hops away.
pub open spec fn ring_table(k: nat, s: int) -> Seq<(usize, u64)> {
    Seq::new(k, |d: int| (ring_step(k, s, d) as usize, d as u64))
}

/// Round the ring, `d` edges from `s`, is a walk.
proof fn lemma_ring_walk(adj: Seq<Seq<int>>, s: int, d: nat)
    requires
        is_ring(adj),
        0 <= s < adj.len(),
        d < adj.len(),
    ensures
        walk_between(adj, s, ring_step(adj.len(), s, d as int), d),
{
    let k = adj.len();
    let p = ring_walk(k, s, d);
    assert forall|i: int| 0 <= i < p.len() - 1 implies adj[#[trigger] p[i]].contains(p[i + 1]) by {
        let here = ring_step(k, s, i);
        assert(adj[here] == seq![ring_next(k, here)]);
        assert(adj[here][0] == p[i + 1]);
    }
    assert(is_walk(adj, p) && p.len() == d + 1 && p[0] == s && p[p.len() - 1] == ring_step(k, s, d as int));
}

/// A walk on the ring goes round it: after `i` edges, fewer than the ring
/// has nodes, it stands `i` steps after its start.
proof fn lemma_walk_goes_round(adj: Seq<Seq<int>>, p: Seq<int>, i: int)
    requires
        is_ring(adj),
        is_walk(adj, p),
        0 <= i < p.len(),
        i < adj.len(),
    ensures
        p[i] == ring_step(adj.len(), p[0], i),
    decreases i,
{
    if i > 0 {
        lemma_walk_goes_round(adj, p, i - 1);
        let here = p[i - 1];
        assert(adj[here].contains(p[i - 1 + 1]));
        assert(adj[here] == seq![ring_next(adj.len(), here)]);
        let j = choose|j: int| 0 <= j < adj[here].len() && adj[here][j] == p[i];
        assert(j == 0);
    } else {
        assert(0 <= p[0] < adj.len());
    }
}

/// On a ring of `k` nodes, the node `d` steps after `s` lies `d` hops from
/// `s`, for every `d` below `k`.
pub proof fn lemma_ring_distance(adj: Seq<Seq<int>>, s: int, d: nat)
    requires
        is_ring(adj),
        0 <= s < adj.len(),
        d < adj.len(),
    ensures
        hop_distance(adj, s, ring_step(adj.len(), s, d as int), d),
{
    let k = adj.len();
    let v = ring_step(k, s, d as int);
    lemma_ring_walk(adj, s, d);
    assert forall|fewer: nat| fewer < d implies !walk_between(adj, s, v, fewer) by {
        if walk_between(adj, s, v, fewer) {
            let p = choose|p: Seq<int>| #[trigger]
                is_walk(adj, p) && p.len() == fewer + 1 && p[0] == s && p[p.len() - 1] == v;
            lemma_walk_goes_round(adj, p, fewer as int);
        }
    }
}

/// The ring table is a table of the hop distances from `s`.
pub proof fn lemma_ring_table(adj: Seq<Seq<int>>, s: int)
    requires
        is_ring(adj),
        0 <= s < adj.len() <= usize::MAX,
    ensures
        is_distance_table(adj, s, ring_table(adj.len(), s)),
{
    let k = adj.len();
    let entries = ring_table(k, s);
    assert forall|i: int| 0 <= i < entries.len() implies hop_distance(
        adj,
        s,
        (#[trigger] entries[i]).0 as int,
        entries[i].1 as nat,
    ) by {
        lemma_ring_distance(adj, s, i as nat);
    }
    assert forall|v: int| reachable(adj, s, v) implies exists|i: int|
        0 <= i < entries.len() && (#[trigger] entries[i]).0 == v by {
        let hops = choose|hops: nat| walk_between(adj, s, v, hops);
        let p = choose|p: Seq<int>| #[trigger]
            is_walk(adj, p) && p.len() == hops + 1 && p[0] == s && p[p.len() - 1] == v;
        assert(0 <= p[p.len() - 1] < k);
        let d = if v >= s {
            v - s
        } else {
            v - s + k
        };
        assert(entries[d].0 == v);
    }
}

/// The distances of the first `m` entries of the ring table add up to
/// `m * (m - 1) / 2`.
proof fn lemma_ring_sum(k: nat, s: int, m: nat)
    requires
        m <= k <= usize::MAX,
    ensures
        2 * sum_hops(ring_table(k, s).take(m as int)) == m * (m - 1),
    decreases m,
{
    let front = ring_table(k, s).take(m as int);
    if m > 0 {
        let shorter = ring_table(k, s).take(m - 1);
        lemma_ring_sum(k, s, (m - 1) as nat);
        assert(front.len() == m);
        assert(front.drop_last() == shorter);
        assert(front.last() == ring_table(k, s)[m - 1]);
        assert(front.last().1 == m - 1);
        assert(sum_hops(front) == sum_hops(shorter) + (m - 1));
        assert(m * (m - 1) == (m - 1) * (m - 2) + 2 * (m - 1)) by (nonlinear_arith);
    } else {
        assert(front.len() == 0);
        assert(sum_hops(front) == 0);
        assert(m * (m - 1) == 0) by (nonlinear_arith)
            requires
                m == 0,
        ;
    }
}

/// On a directed cycle of `k` nodes every node has the same closeness: it
/// reaches the `k - 1` others, over distances that add up to
/// `k * (k - 1) / 2`.
pub proof fn lemma_ring_closeness(adj: Seq<Seq<int>>, v: int, score: Closeness)
    requires
        is_ring(adj),
        0 <= v < adj.len() <= usize::MAX,
        score.is_closeness_of(adj, v),
    ensures
        score.reached_others == adj.len() - 1,
        2 * score.total_hops == adj.len() * (adj.len() - 1),
{
    let k = adj.len();
    lemma_ring_table(adj, v);
    lemma_ring_sum(k, v, k);
    assert(ring_table(k, v).take(k as int) == ring_table(k, v));
    assert(score.tallies(ring_table(k, v)));
}

/// Closeness on a directed cycle is the same at every node.
pub proof fn lemma_ring_is_symmetric(adj: Seq<Seq<int>>, v: int, w: int, at_v: Closeness, at_w: Closeness)
    requires
        is_ring(adj),
        adj.len() <= usize::MAX,
        0 <= v < adj.len(),
        0 <= w < adj.len(),
        at_v.is_closeness_of(adj, v),
        at_w.is_closeness_of(adj, w),
    ensures
        at_v == at_w,
{
    lemma_ring_closeness(adj, v, at_v);
    lemma_ring_closeness(adj, w, at_w);
}

/// On a ring, the node that lies `d` hops from `s` is the node `d` steps
/// after `s`.
proof fn lemma_ring_node_at(adj: Seq<Seq<int>>, s: int, v: int, d: nat)
    requires
        is_ring(adj),
        0 <= s < adj.len(),
        d < adj.len(),
        hop_distance(adj, s, v, d),
    ensures
        v == ring_step(adj.len(), s, d as int),
{
    let p = choose|p: Seq<int>| #[trigger]
        is_walk(adj, p) && p.len() == d + 1 && p[0] == s && p[p.len() - 1] == v;
    lemma_walk_goes_round(adj, p, d as int);
}

/// A traversal of a ring finishes the node at position `i` at distance `i`.
proof fn lemma_ring_order(
    adj: Seq<Seq<int>>,
    source: int,
    dist: Seq<Option<usize>>,
    preds: Seq<Seq<usize>>,
    order: Seq<usize>,
    i: int,
)
    requires
        is_ring(adj),
        finished(adj, source, dist, preds, order),
        order.len() == adj.len(),
        0 <= i < order.len(),
    ensures
        hops(dist, order[i] as int) == i,
        order[i] == ring_step(adj.len(), source, i),
    decreases i,
{
    lemma_distances_are_shortest(adj, source, dist, preds, order);
    assert(seen(dist, order[i] as int) && hops(dist, order[i] as int) <= i);
    if i > 0 {
        lemma_ring_order(adj, source, dist, preds, order, i - 1);
        assert(hops(dist, order[i - 1] as int) <= hops(dist, order[i] as int));
        if hops(dist, order[i] as int) == i - 1 {
            assert(hop_distance(adj, source, order[i] as int, (i - 1) as nat));
            lemma_ring_node_at(adj, source, order[i] as int, (i - 1) as nat);
            assert(order[i - 1] != order[i]);
        }
    }
    assert(hop_distance(adj, source, order[i] as int, i as nat));
    lemma_ring_node_at(adj, source, order[i] as int, i as nat);
}

/// A row that holds nothing but `x` holds it as often as the row is long.
proof fn lemma_occurrences_all(row: Seq<usize>, x: usize)
    requires
        forall|k: int| 0 <= k < row.len() ==> row[k] == x,
    ensures
        occurrences(row, x) == row.len(),
    decreases row.len(),
{
    if row.len() > 0 {
        let front = row.drop_last();
        assert forall|k: int| 0 <= k < front.len() implies front[k] == x by {
            assert(front[k] == row[k]);
        }
        lemma_occurrences_all(front, x);
        assert(row[row.len() - 1] == x);
    }
}

/// A traversal of a directed cycle of `k` nodes looks the same from every
/// source, but for the rotation: it finishes all `k` nodes, the node `d`
/// steps after the source at position `d` and at distance `d`, with the node
/// before it on the ring as its one predecessor.
pub proof fn lemma_ring_traversal(
    adj: Seq<Seq<int>>,
    source: int,
    dist: Seq<Option<usize>>,
    preds: Seq<Seq<usize>>,
    order: Seq<usize>,
    d: int,
)
    requires
        is_ring(adj),
        finished(adj, source, dist, preds, order),
        0 <= d < adj.len(),
    ensures
        order.len() == adj.len(),
        order[d] == ring_step(adj.len(), source, d),
        dist[order[d] as int] == Some(d as usize),
        d >= 1 ==> preds[order[d] as int] == seq![order[d - 1]],
{
    let k = adj.len();
    lemma_ring_table(adj, source);
    lemma_traversal_matches_table(adj, source, dist, preds, order, ring_table(k, source));
    lemma_ring_order(adj, source, dist, preds, order, d);
    if d >= 1 {
        lemma_ring_order(adj, source, dist, preds, order, d - 1);
        let w = order[d] as int;
        let v = order[d - 1];
        let row = preds[w];
        assert(adj[v as int] == seq![ring_next(k, v as int)]);
        assert(adj[v as int][0] == w);
        assert forall|i: int| 0 <= i < row.len() implies row[i] == v by {
            let u = row[i] as int;
            assert(tight_edge(adj, dist, u, w));
            assert(adj[u] == seq![ring_next(k, u)]);
            let j = choose|j: int| 0 <= j < adj[u].len() && adj[u][j] == w;
            assert(ring_next(k, u) == w);
        }
        lemma_occurrences_all(row, v);
        assert(edges_counted(adj, dist, preds, v as int, w, adj[v as int].len() as int));
        assert(adj[v as int].take(1) == adj[v as int]);
        assert(adj[v as int].drop_last().len() == 0);
        assert(occurrences(adj[v as int], w) == 1) by {
            assert(occurrences(adj[v as int].drop_last(), w) == 0);
        }
        assert(row.len() == 1);
        assert(row =~= seq![v]);
    }
}

/// On a directed cycle one shortest path leads to every node, from every
/// source.
pub proof fn lemma_ring_counts(
    adj: Seq<Seq<int>>,
    source: int,
    dist: Seq<Option<usize>>,
    preds: Seq<Seq<usize>>,
    order: Seq<usize>,
    counts: Seq<u128>,
    d: int,
)
    requires
        is_ring(adj),
        finished(adj, source, dist, preds, order),
        is_path_count(source, preds, counts),
        0 <= d < adj.len(),
    ensures
        counts[ring_step(adj.len(), source, d)] == 1,
    decreases d,
{
    lemma_ring_traversal(adj, source, dist, preds, order, d);
    if d >= 1 {
        lemma_ring_traversal(adj, source, dist, preds, order, d - 1);
        lemma_ring_counts(adj, source, dist, preds, order, counts, d - 1);
        let w = order[d] as int;
        let row = preds[w];
        assert(order[d - 1] != order[d]);
        assert(order[0] != order[d]);
        assert(counts[w] as nat == sum_counts(row, counts));
        assert(row.drop_last().len() == 0);
        assert(sum_counts(row.drop_last(), counts) == 0);
    } else {
        assert(counts[source] as nat == 1);
    }
}

} // verus!
