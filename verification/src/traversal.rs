//! Breadth-first traversal from one source: hop distances, the predecessors
//! on shortest paths, and the order in which nodes are finished.

use vstd::prelude::*;
use vstd::set_lib::{lemma_int_range, lemma_len_subset, set_int_range};
use crate::graph::{adjacency, node_count, out_targets};
use crate::paths::{hop_distance, is_distance_table, is_walk, lemma_no_way_in, reachable, walk_between};

verus! {

/// What one breadth-first traversal leaves behind.
#[derive(Debug)]
pub struct Traversal {
    /// The node the traversal started from.
    pub source: usize,
    /// Hop distance from the source, by node index; `None` for a node that
    /// the source does not reach.
    pub distance: Vec<Option<usize>>,
    /// For each node, the nodes that precede it on a shortest path from the
    /// source, once for every such edge.
    pub predecessors: Vec<Vec<usize>>,
    /// The nodes reached, in the order in which they were finished.
    pub order: Vec<usize>,
}

/// The rows of a list of lists, as sequences.
pub open spec fn rows(lists: Seq<Vec<usize>>) -> Seq<Seq<usize>> {
    Seq::new(lists.len(), |w: int| lists[w]@)
}

/// Node `v` has a distance.
pub open spec fn seen(dist: Seq<Option<usize>>, v: int) -> bool {
    0 <= v < dist.len() && dist[v] is Some
}

/// The distance of a node that has one.
pub open spec fn hops(dist: Seq<Option<usize>>, v: int) -> int {
    dist[v]->0 as int
}

/// `order` lists the nodes that have a distance, once each, by distance, and
/// no node lies further from the source than it stands from the front.
pub open spec fn discovery_order(dist: Seq<Option<usize>>, order: Seq<usize>) -> bool {
    &&& forall|i: int|
        0 <= i < order.len() ==> seen(dist, (#[trigger] order[i]) as int) && hops(
            dist,
            order[i] as int,
        ) <= i
    &&& forall|i: int, j: int|
        0 <= i < j < order.len() ==> (#[trigger] order[i]) != (#[trigger] order[j])
    &&& forall|i: int, j: int|
        0 <= i <= j < order.len() ==> hops(dist, (#[trigger] order[i]) as int) <= hops(
            dist,
            (#[trigger] order[j]) as int,
        )
    &&& forall|v: int| #[trigger]
        seen(dist, v) ==> exists|i: int| 0 <= i < order.len() && (#[trigger] order[i]) == v
}

/// The `j`-th edge out of `v` has been followed: its target has a distance,
/// at most one more than that of `v`, and where it is exactly one more the
/// target lists `v` among its predecessors.
pub open spec fn edge_settled(
    adj: Seq<Seq<int>>,
    dist: Seq<Option<usize>>,
    preds: Seq<Seq<usize>>,
    v: int,
    j: int,
) -> bool {
    let w = adj[v][j];
    &&& seen(dist, w)
    &&& hops(dist, w) <= hops(dist, v) + 1
    &&& hops(dist, w) == hops(dist, v) + 1 ==> preds[w].contains(v as usize)
}

/// The first `upto` edges out of `v` have been followed.
pub open spec fn edges_settled(
    adj: Seq<Seq<int>>,
    dist: Seq<Option<usize>>,
    preds: Seq<Seq<usize>>,
    v: int,
    upto: int,
) -> bool {
    forall|j: int| 0 <= j < upto ==> #[trigger] edge_settled(adj, dist, preds, v, j)
}

/// An edge leads from `v` to `w`, and `w` lies one hop further from the
/// source than `v`.
pub open spec fn tight_edge(adj: Seq<Seq<int>>, dist: Seq<Option<usize>>, v: int, w: int) -> bool {
    &&& seen(dist, v)
    &&& seen(dist, w)
    &&& v < adj.len()
    &&& hops(dist, w) == hops(dist, v) + 1
    &&& adj[v].contains(w)
}

/// Every listed predecessor stands at the start of a tight edge.
pub open spec fn predecessors_tight(
    adj: Seq<Seq<int>>,
    dist: Seq<Option<usize>>,
    preds: Seq<Seq<usize>>,
) -> bool {
    forall|w: int, k: int|
        0 <= w < preds.len() && 0 <= k < preds[w].len() ==> tight_edge(
            adj,
            dist,
            (#[trigger] preds[w][k]) as int,
            w,
        )
}

/// How often `x` stands in `row`.
pub open spec fn occurrences<T>(row: Seq<T>, x: T) -> nat
    decreases row.len(),
{
    if row.len() == 0 {
        0
    } else {
        occurrences(row.drop_last(), x) + if row.last() == x {
            1nat
        } else {
            0nat
        }
    }
}

/// `w` lists `v` among its predecessors once for every one of the first
/// `upto` edges out of `v` that leads to `w`, where `w` lies a hop beyond
/// `v`, and not at all where it does not.
pub open spec fn edges_counted(
    adj: Seq<Seq<int>>,
    dist: Seq<Option<usize>>,
    preds: Seq<Seq<usize>>,
    v: int,
    w: int,
    upto: int,
) -> bool {
    occurrences(preds[w], v as usize) == if seen(dist, v) && seen(dist, w) && hops(dist, w) == hops(
        dist,
        v,
    ) + 1 {
        occurrences(adj[v].take(upto), w)
    } else {
        0
    }
}

/// Every node with a distance, but for the source, has a predecessor.
pub open spec fn predecessors_present(
    source: int,
    dist: Seq<Option<usize>>,
    preds: Seq<Seq<usize>>,
) -> bool {
    forall|w: int| #[trigger] seen(dist, w) && w != source ==> preds[w].len() > 0
}

/// `x` stands at index `e` of `row`, and nowhere before.
pub open spec fn first_at(row: Seq<int>, x: int, e: int) -> bool {
    &&& 0 <= e < row.len()
    &&& row[e] == x
    &&& forall|earlier: int| 0 <= earlier < e ==> row[earlier] != x
}

/// The node at position `i` of the order was found from the node at
/// position `a`, along that node's edge number `e`: the node at `a` is its
/// first predecessor, and `e` is the first edge from there to it.
pub open spec fn found_from(
    adj: Seq<Seq<int>>,
    preds: Seq<Seq<usize>>,
    order: Seq<usize>,
    i: int,
    a: int,
    e: int,
) -> bool {
    &&& 0 <= a < i < order.len()
    &&& preds[order[i] as int].len() > 0
    &&& preds[order[i] as int][0] == order[a]
    &&& first_at(adj[order[a] as int], order[i] as int, e)
}

/// The node at position `i` of the order was found from an earlier one.
pub open spec fn was_found(adj: Seq<Seq<int>>, preds: Seq<Seq<usize>>, order: Seq<usize>, i: int) -> bool {
    exists|a: int, e: int| #[trigger] found_from(adj, preds, order, i, a, e)
}

/// Every node of the order but the first was found from an earlier one, and
/// the nodes stand in the order in which they were found: by the position
/// of the node they were found from, then by the number of the edge.
pub open spec fn found_in_order(adj: Seq<Seq<int>>, preds: Seq<Seq<usize>>, order: Seq<usize>) -> bool {
    &&& forall|i: int| 1 <= i < order.len() ==> #[trigger] was_found(adj, preds, order, i)
    &&& forall|i: int, j: int, ai: int, ei: int, aj: int, ej: int|
        i < j && #[trigger] found_from(adj, preds, order, i, ai, ei) && #[trigger] found_from(
            adj,
            preds,
            order,
            j,
            aj,
            ej,
        ) ==> ai < aj || (ai == aj && ei < ej)
}

/// The `k`-th predecessor of `w` stands at position `i` of the order.
pub open spec fn listed_at(preds: Seq<Seq<usize>>, order: Seq<usize>, w: int, k: int, i: int) -> bool {
    &&& 0 <= w < preds.len()
    &&& 0 <= k < preds[w].len()
    &&& 0 <= i < order.len()
    &&& order[i] == preds[w][k]
}

/// Every list of predecessors names its nodes in the order in which they
/// stand in `order`.
pub open spec fn predecessors_in_order(preds: Seq<Seq<usize>>, order: Seq<usize>) -> bool {
    forall|w: int, k1: int, k2: int, i1: int, i2: int|
        k1 < k2 && #[trigger] listed_at(preds, order, w, k1, i1) && #[trigger] listed_at(
            preds,
            order,
            w,
            k2,
            i2,
        ) ==> i1 <= i2
}

/// What holds while the edges out of `order[head]` are followed, the first
/// `upto` of them being done.
pub open spec fn exploring(
    adj: Seq<Seq<int>>,
    source: int,
    dist: Seq<Option<usize>>,
    preds: Seq<Seq<usize>>,
    order: Seq<usize>,
    head: int,
    upto: int,
) -> bool {
    &&& 0 <= source < adj.len() <= usize::MAX
    &&& dist.len() == adj.len()
    &&& preds.len() == adj.len()
    &&& dist[source] == Some(0usize)
    &&& 0 <= head < order.len()
    &&& order[0] == source
    &&& discovery_order(dist, order)
    &&& 0 <= upto <= adj[order[head] as int].len()
    &&& forall|i: int|
        0 <= i < order.len() ==> hops(dist, (#[trigger] order[i]) as int) <= hops(
            dist,
            order[head] as int,
        ) + 1
    &&& forall|i: int|
        0 <= i < head ==> edges_settled(
            adj,
            dist,
            preds,
            (#[trigger] order[i]) as int,
            adj[order[i] as int].len() as int,
        )
    &&& edges_settled(adj, dist, preds, order[head] as int, upto)
    &&& predecessors_tight(adj, dist, preds)
    &&& predecessors_present(source, dist, preds)
    &&& forall|i: int, w: int|
        0 <= i < head && 0 <= w < adj.len() ==> #[trigger] edges_counted(
            adj,
            dist,
            preds,
            order[i] as int,
            w,
            adj[order[i] as int].len() as int,
        )
    &&& forall|w: int|
        0 <= w < adj.len() ==> #[trigger] edges_counted(adj, dist, preds, order[head] as int, w, upto)
    &&& forall|i: int, w: int|
        head < i < order.len() && 0 <= w < adj.len() ==> #[trigger] occurrences(preds[w], order[i]) == 0
    &&& found_in_order(adj, preds, order)
    &&& forall|i: int, a: int, e: int| #[trigger]
        found_from(adj, preds, order, i, a, e) ==> a < head || (a == head && e < upto)
    &&& predecessors_in_order(preds, order)
    &&& forall|w: int, k: int, i: int| #[trigger] listed_at(preds, order, w, k, i) ==> i <= head
}

/// What holds once the edges out of every node in `order` have been
/// followed.
pub open spec fn finished(
    adj: Seq<Seq<int>>,
    source: int,
    dist: Seq<Option<usize>>,
    preds: Seq<Seq<usize>>,
    order: Seq<usize>,
) -> bool {
    &&& 0 <= source < adj.len() <= usize::MAX
    &&& dist.len() == adj.len()
    &&& preds.len() == adj.len()
    &&& dist[source] == Some(0usize)
    &&& order.len() > 0
    &&& order[0] == source
    &&& discovery_order(dist, order)
    &&& forall|v: int| #[trigger]
        seen(dist, v) ==> edges_settled(adj, dist, preds, v, adj[v].len() as int)
    &&& predecessors_tight(adj, dist, preds)
    &&& predecessors_present(source, dist, preds)
    &&& forall|v: int, w: int|
        0 <= v < adj.len() && 0 <= w < adj.len() ==> #[trigger] edges_counted(
            adj,
            dist,
            preds,
            v,
            w,
            adj[v].len() as int,
        )
    &&& found_in_order(adj, preds, order)
    &&& predecessors_in_order(preds, order)
}

/// `dist` holds, by node index, the hop distance from `source` of every node
/// that `source` reaches, and nothing for the others.
pub open spec fn is_hop_map(adj: Seq<Seq<int>>, source: int, dist: Seq<Option<usize>>) -> bool {
    &&& dist.len() == adj.len()
    &&& forall|v: int, d: nat|
        (seen(dist, v) && hops(dist, v) == d) <==> #[trigger] hop_distance(adj, source, v, d)
}

impl Traversal {
    /// The predecessor lists, as sequences.
    pub open spec fn predecessor_rows(self) -> Seq<Seq<usize>> {
        rows(self.predecessors@)
    }

    /// This is a breadth-first traversal of `adj` from `self.source`: the
    /// source has distance zero and comes first in the order; the order
    /// lists the nodes with a distance once each, nearest first, and among
    /// equally near ones in the order in which they were found; every edge
    /// out of such a node leads to one at most a hop further; the
    /// predecessors of a node are the starts of the tight edges into it,
    /// once for every such edge and in the order in which they stand in the
    /// order, and only the source has none.
    pub open spec fn is_bfs_of(self, adj: Seq<Seq<int>>) -> bool {
        finished(adj, self.source as int, self.distance@, self.predecessor_rows(), self.order@)
    }
}

/// Distinct numbers below `n` are at most `n` many.
proof fn lemma_distinct_bounded(order: Seq<usize>, n: nat)
    requires
        forall|i: int| 0 <= i < order.len() ==> (#[trigger] order[i]) < n,
        forall|i: int, j: int|
            0 <= i < j < order.len() ==> (#[trigger] order[i]) != (#[trigger] order[j]),
    ensures
        order.len() <= n,
{
    let ints = order.map_values(|x: usize| x as int);
    assert(ints.no_duplicates()) by {
        assert forall|i: int, j: int|
            0 <= i < ints.len() && 0 <= j < ints.len() && i != j implies ints[i] != ints[j] by {
            if i < j {
                assert(order[i] != order[j]);
            } else {
                assert(order[j] != order[i]);
            }
        }
    }
    ints.unique_seq_to_set();
    lemma_int_range(0, n as int);
    assert(ints.to_set().subset_of(set_int_range(0, n as int))) by {
        assert forall|x: int| ints.to_set().contains(x) implies set_int_range(
            0,
            n as int,
        ).contains(x) by {
            let i = choose|i: int| 0 <= i < ints.len() && ints[i] == x;
            assert(order[i] < n);
        }
    }
    lemma_len_subset(ints.to_set(), set_int_range(0, n as int));
}

/// Appending `y` to a row adds one occurrence of `y` and none of anything
/// else.
pub(crate) proof fn lemma_occurrences_push<T>(row: Seq<T>, y: T, x: T)
    ensures
        occurrences(row.push(y), x) == occurrences(row, x) + if y == x {
            1nat
        } else {
            0nat
        },
{
    assert(row.push(y).drop_last() == row);
}

/// What stands nowhere in a row occurs zero times in it.
proof fn lemma_occurrences_absent<T>(row: Seq<T>, x: T)
    requires
        forall|k: int| 0 <= k < row.len() ==> row[k] != x,
    ensures
        occurrences(row, x) == 0,
    decreases row.len(),
{
    if row.len() > 0 {
        let front = row.drop_last();
        assert forall|k: int| 0 <= k < front.len() implies front[k] != x by {
            assert(front[k] == row[k]);
        }
        lemma_occurrences_absent(front, x);
        assert(row[row.len() - 1] != x);
    }
}

/// Following one more edge keeps the traversal in order. The edge leads from
/// `order[head]` to `w`. Where `w` had no distance it gets one, a hop beyond
/// `order[head]`, and joins the order; where it then lies exactly a hop
/// beyond, `order[head]` joins its predecessors.
proof fn lemma_follow_edge(
    adj: Seq<Seq<int>>,
    source: int,
    dist: Seq<Option<usize>>,
    preds: Seq<Seq<usize>>,
    order: Seq<usize>,
    head: int,
    upto: int,
    dist2: Seq<Option<usize>>,
    preds2: Seq<Seq<usize>>,
    order2: Seq<usize>,
)
    requires
        exploring(adj, source, dist, preds, order, head, upto),
        upto < adj[order[head] as int].len(),
        0 <= adj[order[head] as int][upto] < adj.len(),
        ({
            let v = order[head];
            let w = adj[v as int][upto];
            let next = hops(dist, v as int) + 1;
            if dist[w] is None {
                &&& next <= usize::MAX
                &&& dist2 == dist.update(w, Some(next as usize))
                &&& order2 == order.push(w as usize)
                &&& preds2 == preds.update(w, preds[w].push(v))
            } else if hops(dist, w) == next {
                &&& dist2 == dist
                &&& order2 == order
                &&& preds2 == preds.update(w, preds[w].push(v))
            } else {
                &&& dist2 == dist
                &&& order2 == order
                &&& preds2 == preds
            }
        }),
    ensures
        exploring(adj, source, dist2, preds2, order2, head, upto + 1),
{
    let v = order[head];
    let w = adj[v as int][upto];
    let next = hops(dist, v as int) + 1;
    assert(0 <= w < adj.len());
    assert(seen(dist, v as int));
    // Nodes that had a distance keep it.
    assert forall|x: int| seen(dist, x) implies seen(dist2, x) && hops(dist2, x) == hops(dist, x) by {}
    // The target has a distance now, within a hop of `v`.
    assert(seen(dist2, w) && hops(dist2, w) <= next) by {
        if dist[w] is Some {
            assert(seen(dist, w));
            let i = choose|i: int| 0 <= i < order.len() && (#[trigger] order[i]) == w;
            assert(hops(dist, order[i] as int) <= next);
        }
    }
    // Lists only grow.
    assert forall|x: int, p: usize| 0 <= x < preds.len() && preds[x].contains(p) implies preds2[x].contains(p) by {
        let k = choose|k: int| 0 <= k < preds[x].len() && preds[x][k] == p;
        if preds2[x] != preds[x] {
            assert(preds2[x] == preds[x].push(v));
            assert(preds2[x][k] == p);
        }
    }
    assert(discovery_order(dist2, order2)) by {
        if dist[w] is None {
            assert(!seen(dist, w));
            assert forall|i: int| 0 <= i < order2.len() implies seen(dist2, (#[trigger] order2[i]) as int)
                && hops(dist2, order2[i] as int) <= i by {
                if i < order.len() {
                    assert(seen(dist, order[i] as int));
                } else {
                    assert(hops(dist, order[head] as int) <= head);
                }
            }
            assert forall|i: int, j: int| 0 <= i < j < order2.len() implies (#[trigger] order2[i]) != (
            #[trigger] order2[j]) by {
                assert(seen(dist, order[i] as int));
                if j < order.len() {
                    assert(order[i] != order[j]);
                }
            }
            assert forall|i: int, j: int| 0 <= i <= j < order2.len() implies hops(
                dist2,
                (#[trigger] order2[i]) as int,
            ) <= hops(dist2, (#[trigger] order2[j]) as int) by {
                if j < order.len() {
                    assert(seen(dist, order[i] as int));
                    assert(seen(dist, order[j] as int));
                    assert(hops(dist, order[i] as int) <= hops(dist, order[j] as int));
                } else if i < order.len() {
                    assert(seen(dist, order[i] as int));
                    assert(hops(dist, order[i] as int) <= next);
                }
            }
            assert forall|x: int| #[trigger] seen(dist2, x) implies exists|i: int|
                0 <= i < order2.len() && (#[trigger] order2[i]) == x by {
                if x == w {
                    assert(order2[order.len() as int] == x);
                } else {
                    assert(seen(dist, x));
                    let i = choose|i: int| 0 <= i < order.len() && (#[trigger] order[i]) == x;
                    assert(order2[i] == x);
                }
            }
        }
    }
    assert forall|i: int| 0 <= i < order2.len() implies hops(dist2, (#[trigger] order2[i]) as int)
        <= hops(dist2, order2[head] as int) + 1 by {
        if i < order.len() {
            assert(seen(dist, order[i] as int));
            assert(hops(dist, order[i] as int) <= next);
        }
    }
    // Edges followed before stay settled.
    assert forall|x: int, j: int| seen(dist, x) && edge_settled(adj, dist, preds, x, j) implies edge_settled(
        adj,
        dist2,
        preds2,
        x,
        j,
    ) by {
        let t = adj[x][j];
        assert(seen(dist, t));
        if hops(dist, t) == hops(dist, x) + 1 {
            assert(preds[t].contains(x as usize));
        }
    }
    assert forall|i: int| 0 <= i < head implies edges_settled(
        adj,
        dist2,
        preds2,
        (#[trigger] order2[i]) as int,
        adj[order2[i] as int].len() as int,
    ) by {
        let x = order[i] as int;
        assert(seen(dist, x));
        assert(edges_settled(adj, dist, preds, x, adj[x].len() as int));
        assert forall|j: int| 0 <= j < adj[x].len() implies #[trigger] edge_settled(adj, dist2, preds2, x, j) by {
            assert(edge_settled(adj, dist, preds, x, j));
        }
    }
    assert(edges_settled(adj, dist2, preds2, order2[head] as int, upto + 1)) by {
        assert forall|j: int| 0 <= j < upto + 1 implies #[trigger] edge_settled(
            adj,
            dist2,
            preds2,
            v as int,
            j,
        ) by {
            if j < upto {
                assert(edge_settled(adj, dist, preds, v as int, j));
            } else {
                if hops(dist2, w) == next {
                    assert(preds2[w] == preds[w].push(v));
                    assert(preds2[w][preds[w].len() as int] == v);
                }
            }
        }
    }
    assert(predecessors_tight(adj, dist2, preds2)) by {
        assert forall|x: int, k: int| 0 <= x < preds2.len() && 0 <= k < preds2[x].len() implies tight_edge(
            adj,
            dist2,
            (#[trigger] preds2[x][k]) as int,
            x,
        ) by {
            if k < preds[x].len() {
                assert(preds2[x][k] == preds[x][k]);
                assert(tight_edge(adj, dist, preds[x][k] as int, x));
            } else {
                assert(x == w && preds2[x][k] == v);
                assert(adj[v as int][upto] == w);
            }
        }
    }
    assert(predecessors_present(source, dist2, preds2)) by {
        assert forall|x: int| #[trigger] seen(dist2, x) && x != source implies preds2[x].len() > 0 by {
            if seen(dist, x) {
                assert(preds[x].len() > 0);
            }
        }
    }
    let pushed = !(dist2 == dist && preds2 == preds);
    // How often a node other than `v` is listed does not change.
    assert forall|x: usize, t: int| 0 <= t < adj.len() && x != v implies occurrences(preds2[t], x)
        == occurrences(preds[t], x) by {
        if preds2[t] != preds[t] {
            lemma_occurrences_push(preds[t], v, x);
        }
    }
    // A node without a distance is not the target of an edge followed before.
    assert forall|i: int| 0 <= i < head && dist[w] is None implies occurrences(
        adj[(#[trigger] order[i]) as int],
        w,
    ) == 0 by {
        let x = order[i] as int;
        assert(edges_settled(adj, dist, preds, x, adj[x].len() as int));
        assert forall|k: int| 0 <= k < adj[x].len() implies adj[x][k] != w by {
            assert(edge_settled(adj, dist, preds, x, k));
        }
        lemma_occurrences_absent(adj[x], w);
    }
    assert forall|i: int, t: int| 0 <= i < head && 0 <= t < adj.len() implies #[trigger] edges_counted(
        adj,
        dist2,
        preds2,
        order2[i] as int,
        t,
        adj[order2[i] as int].len() as int,
    ) by {
        let x = order[i];
        assert(order[i] != order[head]);
        assert(seen(dist, x as int));
        assert(edges_counted(adj, dist, preds, x as int, t, adj[x as int].len() as int));
        assert(occurrences(preds2[t], x) == occurrences(preds[t], x));
        assert(adj[x as int].take(adj[x as int].len() as int) == adj[x as int]);
        if t == w && dist[w] is None {
            assert(occurrences(adj[order[i] as int], w) == 0);
        }
    }
    let row = adj[v as int];
    assert(row.take(upto + 1) == row.take(upto).push(w));
    assert forall|t: int| 0 <= t < adj.len() implies #[trigger] edges_counted(
        adj,
        dist2,
        preds2,
        order2[head] as int,
        t,
        upto + 1,
    ) by {
        assert(edges_counted(adj, dist, preds, v as int, t, upto));
        lemma_occurrences_push(row.take(upto), w, t);
        if t == w {
            if preds2[w] != preds[w] {
                lemma_occurrences_push(preds[w], v, v);
            }
            if dist[w] is None {
                assert forall|k: int| 0 <= k < row.take(upto).len() implies row.take(upto)[k] != w by {
                    assert(edge_settled(adj, dist, preds, v as int, k));
                }
                lemma_occurrences_absent(row.take(upto), w);
            }
        } else {
            assert(preds2[t] == preds[t]);
        }
    }
    assert forall|i: int, t: int| head < i < order2.len() && 0 <= t < adj.len() implies #[trigger] occurrences(
        preds2[t],
        order2[i],
    ) == 0 by {
        if i < order.len() {
            assert(order[head] != order[i]);
            assert(occurrences(preds[t], order[i]) == 0);
        } else {
            assert(order2[i] == w && dist[w] is None);
            assert forall|k: int| 0 <= k < preds[t].len() implies preds[t][k] != w as usize by {
                assert(tight_edge(adj, dist, preds[t][k] as int, t));
            }
            lemma_occurrences_absent(preds[t], w as usize);
            assert(seen(dist, v as int));
        }
    }
    // A list that had a first predecessor keeps it.
    assert forall|t: int| 0 <= t < preds.len() && preds[t].len() > 0 implies preds2[t].len() > 0 && preds2[t][0]
        == preds[t][0] by {}
    assert(dist[w] is None ==> preds[w].len() == 0) by {
        if preds[w].len() > 0 {
            assert(tight_edge(adj, dist, preds[w][0] as int, w));
        }
    }
    // What was found before was found the same way.
    assert forall|i: int, a: int, e: int| i < order.len() && #[trigger] found_from(
        adj,
        preds2,
        order2,
        i,
        a,
        e,
    ) implies found_from(adj, preds, order, i, a, e) by {
        assert(order2[i] == order[i] && order2[a] == order[a]);
        assert(seen(dist, order[i] as int));
        if order[i] as int != source {
            assert(preds[order[i] as int].len() > 0);
        } else {
            assert(preds2[source].len() > 0);
            assert(tight_edge(adj, dist2, preds2[source][0] as int, source));
        }
    }
    assert forall|i: int, a: int, e: int| i < order.len() && #[trigger] found_from(adj, preds, order, i, a, e)
        implies found_from(adj, preds2, order2, i, a, e) by {
        assert(order2[i] == order[i] && order2[a] == order[a]);
    }
    // The node that joins the order was found from `v` along this edge.
    assert forall|a: int, e: int| order2.len() > order.len() && #[trigger] found_from(
        adj,
        preds2,
        order2,
        order.len() as int,
        a,
        e,
    ) implies a == head && e == upto by {
        assert(preds2[w][0] == v);
        assert(order2[a] == order[a]);
        if a < head {
            assert(order[a] != order[head]);
        } else if a > head {
            assert(order[head] != order[a]);
        }
        if e < upto {
            assert(edge_settled(adj, dist, preds, v as int, e));
        }
    }
    assert(found_in_order(adj, preds2, order2)) by {
        assert forall|i: int| 1 <= i < order2.len() implies #[trigger] was_found(adj, preds2, order2, i) by {
            if i < order.len() {
                assert(was_found(adj, preds, order, i));
                let (a, e) = choose|a: int, e: int| #[trigger] found_from(adj, preds, order, i, a, e);
                assert(found_from(adj, preds2, order2, i, a, e));
            } else {
                assert(preds2[w][0] == v);
                assert forall|earlier: int| 0 <= earlier < upto implies row[earlier] != w by {
                    assert(edge_settled(adj, dist, preds, v as int, earlier));
                }
                assert(found_from(adj, preds2, order2, i, head, upto));
            }
        }
        assert forall|i: int, j: int, ai: int, ei: int, aj: int, ej: int|
            i < j && #[trigger] found_from(adj, preds2, order2, i, ai, ei) && #[trigger] found_from(
                adj,
                preds2,
                order2,
                j,
                aj,
                ej,
            ) implies ai < aj || (ai == aj && ei < ej) by {
            assert(found_from(adj, preds, order, i, ai, ei));
            if j < order.len() {
                assert(found_from(adj, preds, order, j, aj, ej));
            }
        }
    }
    assert forall|i: int, a: int, e: int| #[trigger] found_from(adj, preds2, order2, i, a, e) implies a < head
        || (a == head && e < upto + 1) by {
        if i < order.len() {
            assert(found_from(adj, preds, order, i, a, e));
        }
    }
    // Where a predecessor stands in the order.
    assert forall|t: int, k: int, i: int| #[trigger] listed_at(preds2, order2, t, k, i) implies (if k
        < preds[t].len() {
        listed_at(preds, order, t, k, i)
    } else {
        t == w && i == head
    }) by {
        if k < preds[t].len() {
            assert(preds2[t][k] == preds[t][k]);
            assert(tight_edge(adj, dist, preds[t][k] as int, t));
            if i >= order.len() {
                assert(order2[i] == w && dist[w] is None);
            }
        } else {
            assert(preds2[t][k] == v);
            if i < head {
                assert(order2[i] != order2[head]);
            } else if i > head {
                assert(order2[head] != order2[i]);
            }
        }
    }
    assert forall|t: int, k: int, i: int| #[trigger] listed_at(preds2, order2, t, k, i) implies i <= head by {
        if k < preds[t].len() {
            assert(listed_at(preds, order, t, k, i));
        }
    }
    assert(predecessors_in_order(preds2, order2)) by {
        assert forall|t: int, k1: int, k2: int, i1: int, i2: int|
            k1 < k2 && #[trigger] listed_at(preds2, order2, t, k1, i1) && #[trigger] listed_at(
                preds2,
                order2,
                t,
                k2,
                i2,
            ) implies i1 <= i2 by {
            assert(listed_at(preds, order, t, k1, i1));
            if k2 < preds[t].len() {
                assert(listed_at(preds, order, t, k2, i2));
            }
        }
    }
}

/// Once every edge out of `order[head]` is followed, the traversal goes on
/// with the next node of the order, or is finished where there is none.
proof fn lemma_next_node(
    adj: Seq<Seq<int>>,
    source: int,
    dist: Seq<Option<usize>>,
    preds: Seq<Seq<usize>>,
    order: Seq<usize>,
    head: int,
)
    requires
        exploring(adj, source, dist, preds, order, head, adj[order[head] as int].len() as int),
    ensures
        head + 1 < order.len() ==> exploring(adj, source, dist, preds, order, head + 1, 0),
        head + 1 == order.len() ==> finished(adj, source, dist, preds, order),
{
    let last = order[head] as int;
    assert(adj[last].take(adj[last].len() as int) == adj[last]);
    assert forall|i: int, w: int| 0 <= i < head + 1 && 0 <= w < adj.len() implies #[trigger] edges_counted(
        adj,
        dist,
        preds,
        order[i] as int,
        w,
        adj[order[i] as int].len() as int,
    ) by {
        if i == head {
            assert(edges_counted(adj, dist, preds, last, w, adj[last].len() as int));
        }
    }
    if head + 1 < order.len() {
        assert forall|i: int| 0 <= i < order.len() implies hops(dist, (#[trigger] order[i]) as int)
            <= hops(dist, order[head + 1] as int) + 1 by {
            assert(hops(dist, order[head] as int) <= hops(dist, order[head + 1] as int));
        }
        let coming = order[head + 1] as int;
        assert forall|w: int| 0 <= w < adj.len() implies #[trigger] edges_counted(
            adj,
            dist,
            preds,
            coming,
            w,
            0,
        ) by {
            assert(occurrences(preds[w], order[head + 1]) == 0);
            assert(adj[coming].take(0).len() == 0);
        }
    } else {
        assert forall|v: int| #[trigger] seen(dist, v) implies edges_settled(
            adj,
            dist,
            preds,
            v,
            adj[v].len() as int,
        ) by {
            let i = choose|i: int| 0 <= i < order.len() && (#[trigger] order[i]) == v;
            if i < head {
                assert(edges_settled(adj, dist, preds, order[i] as int, adj[order[i] as int].len() as int));
            }
        }
        assert forall|v: int, w: int| 0 <= v < adj.len() && 0 <= w < adj.len() implies #[trigger] edges_counted(
            adj,
            dist,
            preds,
            v,
            w,
            adj[v].len() as int,
        ) by {
            if seen(dist, v) {
                let i = choose|i: int| 0 <= i < order.len() && (#[trigger] order[i]) == v;
                assert(edges_counted(adj, dist, preds, order[i] as int, w, adj[order[i] as int].len() as int));
            } else {
                assert forall|k: int| 0 <= k < preds[w].len() implies preds[w][k] != v as usize by {
                    assert(tight_edge(adj, dist, preds[w][k] as int, w));
                }
                lemma_occurrences_absent(preds[w], v as usize);
            }
        }
    }
}

/// Along a walk from the source, the node after `i` edges has a distance of
/// at most `i`.
proof fn lemma_walk_is_no_shorter(
    adj: Seq<Seq<int>>,
    source: int,
    dist: Seq<Option<usize>>,
    preds: Seq<Seq<usize>>,
    order: Seq<usize>,
    p: Seq<int>,
    i: int,
)
    requires
        finished(adj, source, dist, preds, order),
        is_walk(adj, p),
        p[0] == source,
        0 <= i < p.len(),
    ensures
        seen(dist, p[i]),
        hops(dist, p[i]) <= i,
    decreases i,
{
    if i > 0 {
        lemma_walk_is_no_shorter(adj, source, dist, preds, order, p, i - 1);
        let u = p[i - 1];
        assert(adj[u].contains(p[i - 1 + 1]));
        let j = choose|j: int| 0 <= j < adj[u].len() && adj[u][j] == p[i];
        assert(seen(dist, u));
        assert(edges_settled(adj, dist, preds, u, adj[u].len() as int));
        assert(edge_settled(adj, dist, preds, u, j));
    }
}

/// A node with distance `d` ends a walk of `d` edges from the source.
proof fn lemma_distance_is_walked(
    adj: Seq<Seq<int>>,
    source: int,
    dist: Seq<Option<usize>>,
    preds: Seq<Seq<usize>>,
    order: Seq<usize>,
    v: int,
    d: nat,
)
    requires
        finished(adj, source, dist, preds, order),
        seen(dist, v),
        hops(dist, v) == d,
    ensures
        walk_between(adj, source, v, d),
    decreases d,
{
    if v == source {
        let p = seq![source];
        assert(is_walk(adj, p) && p.len() == d + 1 && p[0] == source && p[p.len() - 1] == v);
    } else {
        assert(preds[v].len() > 0);
        let u = preds[v][0] as int;
        assert(tight_edge(adj, dist, u, v));
        lemma_distance_is_walked(adj, source, dist, preds, order, u, (d - 1) as nat);
        let q = choose|q: Seq<int>| #[trigger]
            is_walk(adj, q) && q.len() == (d - 1) as nat + 1 && q[0] == source && q[q.len() - 1] == u;
        let p = q.push(v);
        assert(is_walk(adj, p)) by {
            assert forall|i: int| 0 <= i < p.len() - 1 implies adj[#[trigger] p[i]].contains(p[i + 1]) by {
                if i < q.len() - 1 {
                    assert(adj[q[i]].contains(q[i + 1]));
                }
            }
        }
        assert(is_walk(adj, p) && p.len() == d + 1 && p[0] == source && p[p.len() - 1] == v);
    }
}

/// The distances of a finished traversal are the hop distances from the
/// source: a node has distance `d` exactly where a shortest walk from the
/// source to it has `d` edges, and it has a distance exactly where the
/// source reaches it.
pub proof fn lemma_distances_are_shortest(
    adj: Seq<Seq<int>>,
    source: int,
    dist: Seq<Option<usize>>,
    preds: Seq<Seq<usize>>,
    order: Seq<usize>,
)
    requires
        finished(adj, source, dist, preds, order),
    ensures
        forall|v: int, d: nat|
            (seen(dist, v) && hops(dist, v) == d) <==> #[trigger] hop_distance(adj, source, v, d),
        forall|v: int| seen(dist, v) <==> #[trigger] reachable(adj, source, v),
{
    assert forall|v: int, d: nat| seen(dist, v) && hops(dist, v) == d implies #[trigger] hop_distance(
        adj,
        source,
        v,
        d,
    ) by {
        lemma_distance_is_walked(adj, source, dist, preds, order, v, d);
        assert forall|fewer: nat| fewer < d implies !walk_between(adj, source, v, fewer) by {
            if walk_between(adj, source, v, fewer) {
                let p = choose|p: Seq<int>| #[trigger]
                    is_walk(adj, p) && p.len() == fewer + 1 && p[0] == source && p[p.len() - 1] == v;
                lemma_walk_is_no_shorter(adj, source, dist, preds, order, p, fewer as int);
            }
        }
    }
    assert forall|v: int, d: nat| #[trigger] walk_between(adj, source, v, d) implies seen(dist, v) && hops(
        dist,
        v,
    ) <= d by {
        let p = choose|p: Seq<int>| #[trigger]
            is_walk(adj, p) && p.len() == d + 1 && p[0] == source && p[p.len() - 1] == v;
        lemma_walk_is_no_shorter(adj, source, dist, preds, order, p, d as int);
    }
    assert forall|v: int, d: nat| #[trigger] hop_distance(adj, source, v, d) implies seen(dist, v) && hops(
        dist,
        v,
    ) == d by {
        assert(walk_between(adj, source, v, d));
        let found = hops(dist, v) as nat;
        assert(hop_distance(adj, source, v, found));
        if found < d {
            assert(walk_between(adj, source, v, found));
        }
    }
    assert forall|v: int| seen(dist, v) implies #[trigger] reachable(adj, source, v) by {
        assert(hop_distance(adj, source, v, hops(dist, v) as nat));
        assert(walk_between(adj, source, v, hops(dist, v) as nat));
    }
    assert forall|v: int| #[trigger] reachable(adj, source, v) implies seen(dist, v) by {
        let d = choose|d: nat| walk_between(adj, source, v, d);
        assert(walk_between(adj, source, v, d));
    }
}

/// A node without incoming edges takes no part in a traversal from another
/// node: it has no distance, stands nowhere in the order, and is listed as
/// nobody's predecessor.
pub proof fn lemma_outsider_takes_no_part(
    adj: Seq<Seq<int>>,
    source: int,
    dist: Seq<Option<usize>>,
    preds: Seq<Seq<usize>>,
    order: Seq<usize>,
    v: int,
)
    requires
        finished(adj, source, dist, preds, order),
        0 <= v < adj.len(),
        v != source,
        forall|u: int| 0 <= u < adj.len() ==> !(#[trigger] adj[u]).contains(v),
    ensures
        !seen(dist, v),
        preds[v].len() == 0,
        forall|i: int| 0 <= i < order.len() ==> (#[trigger] order[i]) != v,
        forall|w: int, k: int| 0 <= w < preds.len() && 0 <= k < preds[w].len() ==> (#[trigger] preds[w][k]) != v,
{
    lemma_distances_are_shortest(adj, source, dist, preds, order);
    if seen(dist, v) {
        assert(reachable(adj, source, v));
        lemma_no_way_in(adj, source, v);
    }
    if preds[v].len() > 0 {
        assert(tight_edge(adj, dist, preds[v][0] as int, v));
    }
    assert forall|w: int, k: int| 0 <= w < preds.len() && 0 <= k < preds[w].len() implies (#[trigger] preds[w][k])
        != v by {
        assert(tight_edge(adj, dist, preds[w][k] as int, w));
    }
}

/// A finished traversal and a table of hop distances from the same source
/// agree: the table lists exactly the nodes that have a distance, each with
/// that distance.
pub proof fn lemma_traversal_matches_table(
    adj: Seq<Seq<int>>,
    source: int,
    dist: Seq<Option<usize>>,
    preds: Seq<Seq<usize>>,
    order: Seq<usize>,
    entries: Seq<(usize, u64)>,
)
    requires
        finished(adj, source, dist, preds, order),
        is_distance_table(adj, source, entries),
    ensures
        forall|i: int|
            0 <= i < entries.len() ==> dist[(#[trigger] entries[i]).0 as int] == Some(
                entries[i].1 as usize,
            ),
        forall|v: int| #[trigger]
            seen(dist, v) ==> exists|i: int| 0 <= i < entries.len() && (#[trigger] entries[i]).0 == v,
        entries.len() == order.len(),
{
    lemma_distances_are_shortest(adj, source, dist, preds, order);
    assert forall|i: int| 0 <= i < entries.len() implies dist[(#[trigger] entries[i]).0 as int] == Some(
        entries[i].1 as usize,
    ) by {
        assert(hop_distance(adj, source, entries[i].0 as int, entries[i].1 as nat));
    }
    assert forall|v: int| #[trigger] seen(dist, v) implies exists|i: int|
        0 <= i < entries.len() && (#[trigger] entries[i]).0 == v by {
        assert(reachable(adj, source, v));
    }
    let keys = entries.map_values(|e: (usize, u64)| e.0);
    assert(keys.no_duplicates()) by {
        assert forall|i: int, j: int| 0 <= i < keys.len() && 0 <= j < keys.len() && i != j implies keys[i]
            != keys[j] by {
            if i < j {
                assert(entries[i].0 != entries[j].0);
            } else {
                assert(entries[j].0 != entries[i].0);
            }
        }
    }
    assert(order.no_duplicates()) by {
        assert forall|i: int, j: int| 0 <= i < order.len() && 0 <= j < order.len() && i != j implies order[i]
            != order[j] by {
            if i < j {
                assert(order[i] != order[j]);
            } else {
                assert(order[j] != order[i]);
            }
        }
    }
    keys.unique_seq_to_set();
    order.unique_seq_to_set();
    assert(keys.to_set() =~= order.to_set()) by {
        assert forall|x: usize| keys.to_set().contains(x) implies order.to_set().contains(x) by {
            let i = choose|i: int| 0 <= i < keys.len() && keys[i] == x;
            assert(dist[entries[i].0 as int] is Some);
            assert(seen(dist, x as int));
            let k = choose|k: int| 0 <= k < order.len() && (#[trigger] order[k]) == x as int;
            assert(order[k] == x);
        }
        assert forall|x: usize| order.to_set().contains(x) implies keys.to_set().contains(x) by {
            let k = choose|k: int| 0 <= k < order.len() && order[k] == x;
            assert(seen(dist, order[k] as int));
            let i = choose|i: int| 0 <= i < entries.len() && (#[trigger] entries[i]).0 == x as int;
            assert(keys[i] == x);
        }
    }
}

/// Breadth-first traversal of `g` from `source`, every edge counting one
/// hop: `None` where the graph has no node `source`. The distances found are
/// the hop distances from `source`.
pub fn traverse(
    g: &petgraph::graph::Graph<String, i32, petgraph::Directed, u32>,
    source: usize,
) -> (found: Option<Traversal>)
    ensures
        found is Some <==> source < adjacency(*g).len(),
        found is Some ==> found->0.source == source && found->0.is_bfs_of(adjacency(*g)),
        found is Some ==> is_hop_map(adjacency(*g), source as int, found->0.distance@),
{
    let n = node_count(g);
    if source >= n {
        return None;
    }
    let ghost adj = adjacency(*g);
    let mut dist: Vec<Option<usize>> = Vec::new();
    let mut preds: Vec<Vec<usize>> = Vec::new();
    let mut i: usize = 0;
    while i < n
        invariant
            i <= n,
            dist@.len() == i,
            preds@.len() == i,
            forall|k: int| 0 <= k < i ==> (#[trigger] dist@[k]) is None,
            forall|k: int| 0 <= k < i ==> (#[trigger] preds@[k])@.len() == 0,
        decreases n - i,
    {
        dist.push(None);
        preds.push(Vec::new());
        i += 1;
    }
    dist.set(source, Some(0));
    let mut order: Vec<usize> = Vec::new();
    order.push(source);
    let mut head: usize = 0;
    proof {
        assert forall|v: int| #[trigger] seen(dist@, v) implies v == source by {}
        assert(order@[0] == source);
        assert forall|w: int, x: usize| 0 <= w < n implies #[trigger] occurrences(rows(preds@)[w], x) == 0 by {
            assert(rows(preds@)[w].len() == 0);
        }
        assert forall|w: int| 0 <= w < adj.len() implies #[trigger] edges_counted(
            adj,
            dist@,
            rows(preds@),
            order@[0] as int,
            w,
            0,
        ) by {
            assert(occurrences(rows(preds@)[w], source) == 0);
            assert(adj[source as int].take(0).len() == 0);
        }
        assert forall|i: int, a: int, e: int| !#[trigger] found_from(adj, rows(preds@), order@, i, a, e) by {}
        assert forall|w: int, k: int, i: int| !#[trigger] listed_at(rows(preds@), order@, w, k, i) by {}
        assert(exploring(adj, source as int, dist@, rows(preds@), order@, 0, 0));
    }
    while head < order.len()
        invariant
            adj == adjacency(*g),
            n == adj.len(),
            source < n,
            head <= order@.len(),
            head < order@.len() ==> exploring(adj, source as int, dist@, rows(preds@), order@, head as int, 0),
            head == order@.len() ==> finished(adj, source as int, dist@, rows(preds@), order@),
        decreases n - head,
    {
        proof {
            lemma_distinct_bounded(order@, n as nat);
        }
        let v = order[head];
        let dv: usize = match dist[v] {
            Some(d) => d,
            None => 0,
        };
        let targets = out_targets(g, v);
        let mut j: usize = 0;
        while j < targets.len()
            invariant
                adj == adjacency(*g),
                n == adj.len(),
                head < order@.len(),
                order@[head as int] == v,
                dist@[v as int] == Some(dv),
                targets@.len() == adj[v as int].len(),
                forall|k: int| 0 <= k < targets@.len() ==> #[trigger] targets@[k] == adj[v as int][k],
                forall|k: int| 0 <= k < targets@.len() ==> (#[trigger] targets@[k]) < n,
                j <= targets@.len(),
                exploring(adj, source as int, dist@, rows(preds@), order@, head as int, j as int),
            decreases targets@.len() - j,
        {
            let w = targets[j];
            let ghost dist0 = dist@;
            let ghost preds0 = rows(preds@);
            let ghost order0 = order@;
            proof {
                lemma_distinct_bounded(order@, n as nat);
                assert(hops(dist@, order@[head as int] as int) <= head);
            }
            let tight = match dist[w] {
                None => {
                    dist.set(w, Some(dv + 1));
                    order.push(w);
                    true
                },
                Some(dw) => dw == dv + 1,
            };
            if tight {
                preds[w].push(v);
            }
            proof {
                if tight {
                    assert(rows(preds@) =~= preds0.update(w as int, preds0[w as int].push(v)));
                } else {
                    assert(rows(preds@) =~= preds0);
                }
                lemma_follow_edge(
                    adj,
                    source as int,
                    dist0,
                    preds0,
                    order0,
                    head as int,
                    j as int,
                    dist@,
                    rows(preds@),
                    order@,
                );
            }
            j += 1;
        }
        proof {
            lemma_next_node(adj, source as int, dist@, rows(preds@), order@, head as int);
            lemma_distinct_bounded(order@, n as nat);
        }
        head += 1;
    }
    proof {
        lemma_distances_are_shortest(adj, source as int, dist@, rows(preds@), order@);
    }
    Some(Traversal { source, distance: dist, predecessors: preds, order })
}

} // verus!
