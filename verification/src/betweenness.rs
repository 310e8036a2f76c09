//! Betweenness centrality: the integer side of the dependency accumulation.

use vstd::prelude::*;

verus! {

/// The number that accumulated dependencies of a directed graph of `nodes`
/// nodes are divided by: `(nodes - 1) * (nodes - 2)`.
pub open spec fn pair_count(nodes: nat) -> int {
    (nodes - 1) * (nodes - 2)
}

/// The divisor that normalises accumulated dependencies, or `None` for a
/// graph of fewer than three nodes, where every score is zero and nothing is
/// divided.
pub fn normalization_divisor(nodes: usize) -> (divisor: Option<u128>)
    ensures
        divisor is None <==> nodes <= 2,
        divisor is Some ==> divisor->0 == pair_count(nodes as nat) && divisor->0 > 0,
{
    if nodes <= 2 {
        None
    } else {
        let a: u128 = (nodes - 1) as u128;
        let b: u128 = (nodes - 2) as u128;
        assert(0 < a * b <= 0xffff_ffff_ffff_ffff * 0xffff_ffff_ffff_ffff) by (nonlinear_arith)
            requires
                0 < b < a <= 0xffff_ffff_ffff_ffff,
        ;
        Some(a * b)
    }
}

} // verus!
