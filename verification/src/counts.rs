//! The number of shortest paths from the source of a traversal to each node.

use vstd::prelude::*;
use crate::graph::adjacency;
use crate::paths::hop_distance;
use crate::traversal::{
    discovery_order, edges_counted, finished, hops, lemma_occurrences_push,
    is_hop_map, occurrences, predecessors_present, seen, tight_edge, traverse, Traversal,
};

verus! {

/// The counts of the nodes in `row`, added up.
pub open spec fn sum_counts(row: Seq<usize>, counts: Seq<u128>) -> nat
    decreases row.len(),
{
    if row.len() == 0 {
        0
    } else {
        sum_counts(row.drop_last(), counts) + counts[row.last() as int] as nat
    }
}

/// `counts` are path counts for the predecessor lists `preds`: the source
/// counts one, and every other node counts the sum over its predecessors.
pub open spec fn is_path_count(source: int, preds: Seq<Seq<usize>>, counts: Seq<u128>) -> bool {
    &&& counts.len() == preds.len()
    &&& forall|w: int|
        0 <= w < counts.len() ==> #[trigger] counts[w] as nat == if w == source {
            1
        } else {
            sum_counts(preds[w], counts)
        }
}

/// The lists of predecessors lead one hop back each, over nodes listed in
/// `order` nearest first.
pub open spec fn layered(
    source: int,
    dist: Seq<Option<usize>>,
    preds: Seq<Seq<usize>>,
    order: Seq<usize>,
) -> bool {
    &&& 0 <= source < dist.len()
    &&& preds.len() == dist.len()
    &&& dist[source] == Some(0usize)
    &&& discovery_order(dist, order)
    &&& forall|w: int, k: int|
        0 <= w < preds.len() && 0 <= k < preds[w].len() ==> {
            let v = (#[trigger] preds[w][k]) as int;
            seen(dist, v) && seen(dist, w) && hops(dist, w) == hops(dist, v) + 1
        }
    &&& predecessors_present(source, dist, preds)
}

/// `a` and `b` hold the same counts for the first `upto` nodes of `order`.
pub open spec fn agree_on(a: Seq<u128>, b: Seq<u128>, order: Seq<usize>, upto: int) -> bool {
    forall|p: int| 0 <= p < upto ==> a[(#[trigger] order[p]) as int] == b[order[p] as int]
}

/// Node `v` is among the first `upto` nodes of `order`.
pub open spec fn comes_before(order: Seq<usize>, upto: int, v: usize) -> bool {
    exists|p: int| 0 <= p < upto <= order.len() && (#[trigger] order[p]) == v
}

impl Traversal {
    /// The predecessor lists lead one hop back each, and the order lists
    /// the nodes with a distance nearest first.
    pub open spec fn is_layered(self) -> bool {
        layered(self.source as int, self.distance@, self.predecessor_rows(), self.order@)
    }
}

/// A finished traversal is layered.
pub proof fn lemma_finished_is_layered(
    adj: Seq<Seq<int>>,
    source: int,
    dist: Seq<Option<usize>>,
    preds: Seq<Seq<usize>>,
    order: Seq<usize>,
)
    requires
        finished(adj, source, dist, preds, order),
    ensures
        layered(source, dist, preds, order),
{
    assert forall|w: int, k: int| 0 <= w < preds.len() && 0 <= k < preds[w].len() implies {
        let v = (#[trigger] preds[w][k]) as int;
        seen(dist, v) && seen(dist, w) && hops(dist, w) == hops(dist, v) + 1
    } by {
        assert(tight_edge(adj, dist, preds[w][k] as int, w));
    }
}

/// A sum depends only on the counts of the nodes in the row.
proof fn lemma_sum_counts_agree(row: Seq<usize>, a: Seq<u128>, b: Seq<u128>)
    requires
        forall|k: int| 0 <= k < row.len() ==> a[(#[trigger] row[k]) as int] == b[row[k] as int],
    ensures
        sum_counts(row, a) == sum_counts(row, b),
    decreases row.len(),
{
    if row.len() > 0 {
        let front = row.drop_last();
        assert forall|k: int| 0 <= k < front.len() implies a[(#[trigger] front[k]) as int] == b[front[k] as int] by {
            assert(front[k] == row[k]);
        }
        lemma_sum_counts_agree(front, a, b);
        assert(a[row[row.len() - 1] as int] == b[row[row.len() - 1] as int]);
    }
}

/// The sum over the first `k + 1` nodes of a row is the sum over the first
/// `k` and the count of the next; and no sum over a front of the row exceeds
/// the sum over the whole row.
proof fn lemma_sum_counts_front(row: Seq<usize>, counts: Seq<u128>, k: int)
    requires
        0 <= k <= row.len(),
    ensures
        k < row.len() ==> sum_counts(row.take(k + 1), counts) == sum_counts(row.take(k), counts)
            + counts[row[k] as int] as nat,
        sum_counts(row.take(k), counts) <= sum_counts(row, counts),
    decreases row.len() - k,
{
    if k < row.len() {
        assert(row.take(k + 1).drop_last() == row.take(k));
        lemma_sum_counts_front(row, counts, k + 1);
    } else {
        assert(row.take(k) == row);
    }
}

/// A non-empty row of nodes that each count at least one sums to at least
/// one.
proof fn lemma_sum_counts_positive(row: Seq<usize>, counts: Seq<u128>)
    requires
        row.len() > 0,
        forall|k: int| 0 <= k < row.len() ==> counts[(#[trigger] row[k]) as int] >= 1,
    ensures
        sum_counts(row, counts) >= 1,
{
    assert(counts[row[row.len() - 1] as int] >= 1);
}

/// The predecessors of the `i`-th node of the order stand before it in the
/// order, so none of them is that node or a later one.
proof fn lemma_predecessor_comes_first(
    source: int,
    dist: Seq<Option<usize>>,
    preds: Seq<Seq<usize>>,
    order: Seq<usize>,
    i: int,
    k: int,
) -> (p: int)
    requires
        layered(source, dist, preds, order),
        0 <= i < order.len(),
        0 <= k < preds[order[i] as int].len(),
    ensures
        0 <= p < i,
        order[p] == preds[order[i] as int][k],
{
    let w = order[i] as int;
    assert(seen(dist, w));
    let v = preds[w][k] as int;
    assert(seen(dist, v) && hops(dist, w) == hops(dist, v) + 1);
    let p = choose|p: int| 0 <= p < order.len() && (#[trigger] order[p]) == v;
    if p >= i {
        assert(hops(dist, order[i] as int) <= hops(dist, order[p] as int));
    }
    p
}

/// A node without a distance has no predecessor, and is not the source.
proof fn lemma_unseen_has_no_predecessor(
    source: int,
    dist: Seq<Option<usize>>,
    preds: Seq<Seq<usize>>,
    order: Seq<usize>,
    w: int,
)
    requires
        layered(source, dist, preds, order),
        0 <= w < preds.len(),
        !seen(dist, w),
    ensures
        preds[w].len() == 0,
        w != source,
{
    if preds[w].len() > 0 {
        let v = preds[w][0] as int;
        assert(seen(dist, v) && seen(dist, w));
    }
}

/// The number of shortest paths from the source of `t` to every node, by
/// node index: one for the source, and for every other node the sum over
/// its predecessors, which is zero for a node without a distance and at
/// least one for a node with one. `None` where some count does not fit the
/// integer type, and only there.
pub fn path_counts(t: &Traversal) -> (found: Option<Vec<u128>>)
    requires
        t.is_layered(),
    ensures
        found is Some ==> is_path_count(t.source as int, t.predecessor_rows(), found->0@),
        found is Some ==> forall|w: int|
            0 <= w < found->0@.len() ==> (seen(t.distance@, w) <==> (#[trigger] found->0@[w]) >= 1),
        found is None <==> forall|c: Seq<u128>|
            !#[trigger] is_path_count(t.source as int, t.predecessor_rows(), c),
{
    let n = t.distance.len();
    let ghost source = t.source as int;
    let ghost dist = t.distance@;
    let ghost preds = t.predecessor_rows();
    let ghost order = t.order@;
    let mut counts: Vec<u128> = Vec::new();
    let mut f: usize = 0;
    while f < n
        invariant
            f <= n,
            counts@.len() == f,
            forall|w: int| 0 <= w < f ==> (#[trigger] counts@[w]) == 0,
        decreases n - f,
    {
        counts.push(0);
        f += 1;
    }
    let mut i: usize = 0;
    while i < t.order.len()
        invariant
            source == t.source,
            dist == t.distance@,
            preds == t.predecessor_rows(),
            order == t.order@,
            layered(source, dist, preds, order),
            n == dist.len(),
            counts@.len() == n,
            i <= order.len(),
            forall|p: int|
                0 <= p < i ==> counts@[(#[trigger] order[p]) as int] as nat == if order[p] == source {
                    1
                } else {
                    sum_counts(preds[order[p] as int], counts@)
                },
            forall|p: int| 0 <= p < i ==> counts@[(#[trigger] order[p]) as int] >= 1,
            forall|p: int| i <= p < order.len() ==> counts@[(#[trigger] order[p]) as int] == 0,
            forall|w: int| 0 <= w < n && !seen(dist, w) ==> (#[trigger] counts@[w]) == 0,
            forall|c: Seq<u128>| #[trigger]
                is_path_count(source, preds, c) ==> agree_on(c, counts@, order, i as int),
        decreases order.len() - i,
    {
        let w = t.order[i];
        let ghost row = preds[w as int];
        let ghost before = counts@;
        assert(seen(dist, order[i as int] as int));
        assert forall|k: int| 0 <= k < row.len() implies counts@[(#[trigger] row[k]) as int] >= 1 && row[k] < n
            && comes_before(order, i as int, row[k]) by {
            let p = lemma_predecessor_comes_first(source, dist, preds, order, i as int, k);
            assert(counts@[order[p] as int] >= 1);
            assert(seen(dist, order[p] as int));
        }
        let mut total: u128 = 1;
        if w != t.source {
            total = 0;
            let mut k: usize = 0;
            assert(t.predecessors@[w as int]@ == row);
            while k < t.predecessors[w].len()
                invariant
                    w < t.predecessors@.len(),
                    row == t.predecessors@[w as int]@,
                    row == preds[w as int],
                    source == t.source,
                    w != source,
                    preds == t.predecessor_rows(),
                    order == t.order@,
                    0 <= w < n,
                    counts@.len() == n,
                    preds.len() == n,
                    k <= row.len(),
                    total as nat == sum_counts(row.take(k as int), counts@),
                    forall|x: int| 0 <= x < row.len() ==> (#[trigger] row[x]) < n,
                    forall|x: int| 0 <= x < row.len() ==> comes_before(order, i as int, #[trigger] row[x]),
                    forall|x: int| 0 <= x < row.len() ==> counts@[(#[trigger] row[x]) as int] >= 1,
                    forall|c: Seq<u128>| #[trigger]
                        is_path_count(source, preds, c) ==> agree_on(c, counts@, order, i as int),
                decreases row.len() - k,
            {
                let v = t.predecessors[w][k];
                proof {
                    lemma_sum_counts_front(row, counts@, k as int);
                }
                match total.checked_add(counts[v]) {
                    Some(more) => {
                        total = more;
                    },
                    None => {
                        proof {
                            assert forall|c: Seq<u128>| !#[trigger] is_path_count(source, preds, c) by {
                                if is_path_count(source, preds, c) {
                                    assert(agree_on(c, counts@, order, i as int));
                                    assert forall|x: int| 0 <= x < row.len() implies c[(#[trigger] row[x]) as int]
                                        == counts@[row[x] as int] by {
                                        assert(comes_before(order, i as int, row[x]));
                                        let p = choose|p: int| 0 <= p < i <= order.len() && (#[trigger] order[p]) == row[x];
                                        assert(c[order[p] as int] == counts@[order[p] as int]);
                                    }
                                    lemma_sum_counts_agree(row, c, counts@);
                                    lemma_sum_counts_front(row, counts@, k as int + 1);
                                    assert(c[w as int] as nat == sum_counts(preds[w as int], c));
                                }
                            }
                        }
                        return None;
                    },
                }
                k += 1;
            }
            proof {
                assert(row.take(k as int) == row);
                lemma_sum_counts_positive(row, counts@);
            }
        }
        counts.set(w, total);
        proof {
            // Rows of the nodes up to this one hold no node at or after it.
            assert forall|p: int| 0 <= p <= i implies sum_counts(preds[(#[trigger] order[p]) as int], counts@)
                == sum_counts(preds[order[p] as int], before) by {
                let r = preds[order[p] as int];
                assert forall|x: int| 0 <= x < r.len() implies counts@[(#[trigger] r[x]) as int] == before[r[x] as int] by {
                    let q = lemma_predecessor_comes_first(source, dist, preds, order, p, x);
                    assert(order[q] != order[i as int]);
                }
                lemma_sum_counts_agree(r, counts@, before);
            }
            assert forall|p: int| 0 <= p < i + 1 implies counts@[(#[trigger] order[p]) as int] as nat == if order[p]
                == source {
                1
            } else {
                sum_counts(preds[order[p] as int], counts@)
            } by {
                if p < i {
                    assert(order[p] != order[i as int]);
                    assert(before[order[p] as int] as nat == if order[p] == source {
                        1
                    } else {
                        sum_counts(preds[order[p] as int], before)
                    });
                }
            }
            assert forall|p: int| 0 <= p < i + 1 implies counts@[(#[trigger] order[p]) as int] >= 1 by {
                if p < i {
                    assert(order[p] != order[i as int]);
                    assert(before[order[p] as int] >= 1);
                }
            }
            assert forall|p: int| i + 1 <= p < order.len() implies counts@[(#[trigger] order[p]) as int] == 0 by {
                assert(order[i as int] != order[p]);
            }
            assert forall|c: Seq<u128>| #[trigger] is_path_count(source, preds, c) implies agree_on(
                c,
                counts@,
                order,
                i as int + 1,
            ) by {
                assert(agree_on(c, before, order, i as int));
                assert forall|p: int| 0 <= p < i + 1 implies c[(#[trigger] order[p]) as int] == counts@[order[p] as int] by {
                    if p < i {
                        assert(order[p] != order[i as int]);
                        assert(c[order[p] as int] == before[order[p] as int]);
                    } else {
                        assert forall|x: int| 0 <= x < row.len() implies c[(#[trigger] row[x]) as int]
                            == before[row[x] as int] by {
                            assert(comes_before(order, i as int, row[x]));
                            let q = choose|q: int| 0 <= q < i <= order.len() && (#[trigger] order[q]) == row[x];
                            assert(c[order[q] as int] == before[order[q] as int]);
                        }
                        lemma_sum_counts_agree(row, c, before);
                        assert(c[w as int] as nat == if w == source {
                            1
                        } else {
                            sum_counts(preds[w as int], c)
                        });
                    }
                }
            }
        }
        i += 1;
    }
    proof {
        assert forall|w: int| 0 <= w < counts@.len() implies #[trigger] counts@[w] as nat == if w == source {
            1
        } else {
            sum_counts(preds[w], counts@)
        } by {
            if seen(dist, w) {
                let p = choose|p: int| 0 <= p < order.len() && (#[trigger] order[p]) == w;
                assert(counts@[order[p] as int] as nat == if order[p] == source {
                    1
                } else {
                    sum_counts(preds[order[p] as int], counts@)
                });
            } else {
                lemma_unseen_has_no_predecessor(source, dist, preds, order, w);
            }
        }
        assert forall|w: int| 0 <= w < counts@.len() implies (seen(dist, w) <==> (#[trigger] counts@[w]) >= 1) by {
            if seen(dist, w) {
                let p = choose|p: int| 0 <= p < order.len() && (#[trigger] order[p]) == w;
                assert(counts@[order[p] as int] >= 1);
            }
        }
        assert(is_path_count(source, preds, counts@));
    }
    Some(counts)
}

/// An edge from `v` to `w` would lead one hop further from the source.
pub open spec fn steps_on(dist: Seq<Option<usize>>, v: int, w: int) -> bool {
    seen(dist, v) && seen(dist, w) && hops(dist, w) == hops(dist, v) + 1
}

/// The number of shortest paths from `source` to `w`, where `dist` holds the
/// hop distances from `source`: one to the source itself, none to a node
/// without a distance, and to any other node the paths to the nodes one hop
/// nearer, each counted once for every edge that leads on from it to `w`.
pub open spec fn shortest_paths(adj: Seq<Seq<int>>, dist: Seq<Option<usize>>, source: int, w: int) -> nat
    decreases hops(dist, w), adj.len() + 1,
{
    if w == source {
        1
    } else if !seen(dist, w) {
        0
    } else {
        inflow(adj, dist, source, w, adj.len())
    }
}

/// The shortest paths to `w` whose last edge leaves one of the first `upto`
/// nodes.
pub open spec fn inflow(adj: Seq<Seq<int>>, dist: Seq<Option<usize>>, source: int, w: int, upto: nat) -> nat
    decreases hops(dist, w), upto,
{
    if upto == 0 {
        0
    } else {
        let v = (upto - 1) as int;
        inflow(adj, dist, source, w, (upto - 1) as nat) + if steps_on(dist, v, w) {
            occurrences(adj[v], w) * shortest_paths(adj, dist, source, v)
        } else {
            0
        }
    }
}

/// The counts of the first `upto` nodes, each taken as often as the node
/// stands in `row`, added up.
pub open spec fn grouped(row: Seq<usize>, counts: Seq<u128>, upto: nat) -> nat
    decreases upto,
{
    if upto == 0 {
        0
    } else {
        grouped(row, counts, (upto - 1) as nat) + occurrences(row, (upto - 1) as usize) * counts[upto
            - 1] as nat
    }
}

/// Appending a node to a row adds its count to the grouped sum, where the
/// node is among those summed over.
proof fn lemma_grouped_push(row: Seq<usize>, y: usize, counts: Seq<u128>, upto: nat)
    requires
        upto <= usize::MAX + 1,
    ensures
        grouped(row.push(y), counts, upto) == grouped(row, counts, upto) + if y < upto {
            counts[y as int] as nat
        } else {
            0
        },
    decreases upto,
{
    if upto > 0 {
        let v = (upto - 1) as usize;
        lemma_grouped_push(row, y, counts, (upto - 1) as nat);
        lemma_occurrences_push(row, y, v);
        let a = occurrences(row, v);
        let c = counts[upto - 1] as nat;
        assert((a + 1) * c == a * c + c) by (nonlinear_arith);
    }
}

/// Adding up the counts along a row, or node by node with the number of
/// times each node stands in the row, comes to the same.
proof fn lemma_sum_counts_grouped(row: Seq<usize>, counts: Seq<u128>, n: nat)
    requires
        n <= usize::MAX,
        forall|k: int| 0 <= k < row.len() ==> (#[trigger] row[k]) < n,
    ensures
        sum_counts(row, counts) == grouped(row, counts, n),
    decreases row.len(),
{
    if row.len() == 0 {
        lemma_grouped_empty(row, counts, n);
    } else {
        let front = row.drop_last();
        assert(row == front.push(row.last()));
        assert forall|k: int| 0 <= k < front.len() implies (#[trigger] front[k]) < n by {
            assert(front[k] == row[k]);
        }
        lemma_sum_counts_grouped(front, counts, n);
        lemma_grouped_push(front, row.last(), counts, n);
        assert(row[row.len() - 1] < n);
    }
}

/// The grouped sum over an empty row is zero.
proof fn lemma_grouped_empty(row: Seq<usize>, counts: Seq<u128>, upto: nat)
    requires
        row.len() == 0,
    ensures
        grouped(row, counts, upto) == 0,
    decreases upto,
{
    if upto > 0 {
        lemma_grouped_empty(row, counts, (upto - 1) as nat);
        assert(occurrences(row, (upto - 1) as usize) == 0);
        assert(0 * (counts[upto - 1] as nat) == 0) by (nonlinear_arith);
    }
}

/// Grouped by node, the predecessors of `w` add up to the inflow of `w`,
/// where the count of every node one hop nearer is its number of shortest
/// paths.
proof fn lemma_grouped_is_inflow(
    adj: Seq<Seq<int>>,
    source: int,
    dist: Seq<Option<usize>>,
    preds: Seq<Seq<usize>>,
    order: Seq<usize>,
    counts: Seq<u128>,
    w: int,
    upto: nat,
)
    requires
        finished(adj, source, dist, preds, order),
        0 <= w < adj.len(),
        upto <= adj.len(),
        forall|v: int|
            0 <= v < adj.len() && steps_on(dist, v, w) ==> counts[v] as nat == #[trigger] shortest_paths(
                adj,
                dist,
                source,
                v,
            ),
    ensures
        grouped(preds[w], counts, upto) == inflow(adj, dist, source, w, upto),
    decreases upto,
{
    if upto > 0 {
        let v = (upto - 1) as int;
        lemma_grouped_is_inflow(adj, source, dist, preds, order, counts, w, (upto - 1) as nat);
        assert(edges_counted(adj, dist, preds, v, w, adj[v].len() as int));
        assert(adj[v].take(adj[v].len() as int) == adj[v]);
        if steps_on(dist, v, w) {
            assert(counts[v] as nat == shortest_paths(adj, dist, source, v));
        } else {
            assert(occurrences(preds[w], v as usize) == 0);
            assert(0 * (counts[v] as nat) == 0) by (nonlinear_arith);
        }
    }
}

/// Path counts for the predecessor lists of a finished traversal are the
/// numbers of shortest paths from the source.
pub proof fn lemma_counts_are_paths(
    adj: Seq<Seq<int>>,
    source: int,
    dist: Seq<Option<usize>>,
    preds: Seq<Seq<usize>>,
    order: Seq<usize>,
    counts: Seq<u128>,
    w: int,
)
    requires
        finished(adj, source, dist, preds, order),
        is_path_count(source, preds, counts),
        0 <= w < adj.len(),
    ensures
        counts[w] as nat == shortest_paths(adj, dist, source, w),
    decreases hops(dist, w),
{
    if w != source {
        assert(counts[w] as nat == sum_counts(preds[w], counts));
        assert forall|k: int| 0 <= k < preds[w].len() implies (#[trigger] preds[w][k]) < adj.len() by {
            assert(tight_edge(adj, dist, preds[w][k] as int, w));
        }
        if !seen(dist, w) {
            if preds[w].len() > 0 {
                assert(tight_edge(adj, dist, preds[w][0] as int, w));
            }
        } else {
            assert forall|v: int| 0 <= v < adj.len() && steps_on(dist, v, w) implies counts[v] as nat
                == #[trigger] shortest_paths(adj, dist, source, v) by {
                lemma_counts_are_paths(adj, source, dist, preds, order, counts, v);
            }
            lemma_sum_counts_grouped(preds[w], counts, adj.len());
            lemma_grouped_is_inflow(adj, source, dist, preds, order, counts, w, adj.len());
        }
    }
}

/// Where every node has a number of shortest paths that fits the integer
/// type, those numbers are path counts for the predecessor lists of a
/// finished traversal.
pub proof fn lemma_paths_are_counts(
    adj: Seq<Seq<int>>,
    source: int,
    dist: Seq<Option<usize>>,
    preds: Seq<Seq<usize>>,
    order: Seq<usize>,
) -> (counts: Seq<u128>)
    requires
        finished(adj, source, dist, preds, order),
        forall|w: int| 0 <= w < adj.len() ==> #[trigger] shortest_paths(adj, dist, source, w) <= u128::MAX,
    ensures
        is_path_count(source, preds, counts),
{
    let counts = Seq::new(adj.len(), |w: int| shortest_paths(adj, dist, source, w) as u128);
    assert forall|w: int| 0 <= w < counts.len() implies #[trigger] counts[w] as nat == if w == source {
        1
    } else {
        sum_counts(preds[w], counts)
    } by {
        if w != source {
            assert forall|k: int| 0 <= k < preds[w].len() implies (#[trigger] preds[w][k]) < adj.len() by {
                assert(tight_edge(adj, dist, preds[w][k] as int, w));
            }
            lemma_sum_counts_grouped(preds[w], counts, adj.len());
            if !seen(dist, w) {
                if preds[w].len() > 0 {
                    assert(tight_edge(adj, dist, preds[w][0] as int, w));
                }
                lemma_grouped_empty(preds[w], counts, adj.len());
            } else {
                assert forall|v: int| 0 <= v < adj.len() && steps_on(dist, v, w) implies counts[v] as nat
                    == #[trigger] shortest_paths(adj, dist, source, v) by {}
                lemma_grouped_is_inflow(adj, source, dist, preds, order, counts, w, adj.len());
            }
        }
    }
    counts
}

/// What a source's shortest paths look like: the traversal, and the number
/// of shortest paths to each node.
#[derive(Debug)]
pub struct ShortestPaths {
    /// Distances, predecessors and finishing order.
    pub traversal: Traversal,
    /// Number of shortest paths from the source, by node index.
    pub path_counts: Vec<u128>,
}

/// Why a source could not be explored.
#[derive(Clone, Copy, Debug, PartialEq, Eq)]
pub enum ExploreError {
    /// The graph has no node with the index given as source.
    UnknownNode,
    /// Some node has more shortest paths than the integer type can count.
    PathCountOverflow,
}

impl ShortestPaths {
    /// These are shortest paths of `adj` from `source`: a breadth-first
    /// traversal from there, with path counts for its predecessor lists.
    pub open spec fn describes(self, adj: Seq<Seq<int>>, source: int) -> bool {
        &&& self.traversal.source == source
        &&& self.traversal.is_bfs_of(adj)
        &&& is_path_count(source, self.traversal.predecessor_rows(), self.path_counts@)
    }
}

/// Some node has more shortest paths from `source` than the integer type of
/// the counts can hold.
pub open spec fn too_many_paths(adj: Seq<Seq<int>>, source: int) -> bool {
    exists|dist: Seq<Option<usize>>, w: int|
        is_hop_map(adj, source, dist) && 0 <= w < adj.len() && #[trigger] shortest_paths(
            adj,
            dist,
            source,
            w,
        ) > u128::MAX
}

/// The hop distances from a source are one map.
pub proof fn lemma_hop_map_unique(
    adj: Seq<Seq<int>>,
    source: int,
    a: Seq<Option<usize>>,
    b: Seq<Option<usize>>,
)
    requires
        is_hop_map(adj, source, a),
        is_hop_map(adj, source, b),
    ensures
        a == b,
{
    assert forall|v: int| 0 <= v < a.len() implies a[v] == b[v] by {
        if a[v] is Some {
            assert(seen(a, v));
            assert(hop_distance(adj, source, v, hops(a, v) as nat));
        }
        if b[v] is Some {
            assert(seen(b, v));
            assert(hop_distance(adj, source, v, hops(b, v) as nat));
        }
    }
    assert(a =~= b);
}

/// Explores `g` from `source`: the breadth-first traversal and the path
/// counts that go with it. The source must be a node of the graph, and no
/// node may have more shortest paths than the counts can hold; the error
/// says which of the two failed. Distances are hop distances, and the count
/// of a node is the number of shortest paths to it.
pub fn explore(
    g: &petgraph::graph::Graph<String, i32, petgraph::Directed, u32>,
    source: usize,
) -> (found: Result<ShortestPaths, ExploreError>)
    ensures
        found == Err::<ShortestPaths, ExploreError>(ExploreError::UnknownNode) <==> source >= adjacency(
            *g,
        ).len(),
        found == Err::<ShortestPaths, ExploreError>(ExploreError::PathCountOverflow) <==> source
            < adjacency(*g).len() && too_many_paths(adjacency(*g), source as int),
        found is Ok ==> found->Ok_0.describes(adjacency(*g), source as int),
        found is Ok ==> is_hop_map(adjacency(*g), source as int, found->Ok_0.traversal.distance@),
        found is Ok ==> forall|w: int|
            0 <= w < adjacency(*g).len() ==> (#[trigger] found->Ok_0.path_counts@[w]) as nat
                == shortest_paths(adjacency(*g), found->Ok_0.traversal.distance@, source as int, w),
{
    let ghost adj = adjacency(*g);
    match traverse(g, source) {
        None => {
            let gone: Result<ShortestPaths, ExploreError> = Err(ExploreError::UnknownNode);
            gone
        },
        Some(traversal) => {
            let ghost dist = traversal.distance@;
            let ghost preds = traversal.predecessor_rows();
            let ghost order = traversal.order@;
            proof {
                lemma_finished_is_layered(adj, source as int, dist, preds, order);
                assert(is_hop_map(adj, source as int, dist));
            }
            match path_counts(&traversal) {
                Some(counts) => {
                    proof {
                        assert forall|w: int| 0 <= w < adj.len() implies (#[trigger] counts@[w]) as nat
                            == shortest_paths(adj, dist, source as int, w) by {
                            lemma_counts_are_paths(adj, source as int, dist, preds, order, counts@, w);
                        }
                        if too_many_paths(adj, source as int) {
                            let (other, w) = choose|other: Seq<Option<usize>>, w: int|
                                is_hop_map(adj, source as int, other) && 0 <= w < adj.len()
                                    && #[trigger] shortest_paths(adj, other, source as int, w) > u128::MAX;
                            lemma_hop_map_unique(adj, source as int, other, dist);
                            assert(counts@[w] as nat == shortest_paths(adj, dist, source as int, w));
                        }
                    }
                    Ok(ShortestPaths { traversal, path_counts: counts })
                },
                None => {
                    proof {
                        if forall|w: int|
                            0 <= w < adj.len() ==> #[trigger] shortest_paths(adj, dist, source as int, w)
                                <= u128::MAX {
                            let fitting = lemma_paths_are_counts(adj, source as int, dist, preds, order);
                            assert(is_path_count(source as int, preds, fitting));
                        }
                        let w = choose|w: int|
                            0 <= w < adj.len() && #[trigger] shortest_paths(adj, dist, source as int, w)
                                > u128::MAX;
                        assert(is_hop_map(adj, source as int, dist) && 0 <= w < adj.len() && shortest_paths(
                            adj,
                            dist,
                            source as int,
                            w,
                        ) > u128::MAX);
                    }
                    Err(ExploreError::PathCountOverflow)
                },
            }
        },
    }
}

} // verus!
