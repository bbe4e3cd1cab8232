//! The logical demand graph: a complete directed graph without
//! self-loops whose edge weights are drawn from the seeded stream in a
//! fixed enumeration order (outer loop over sources, inner over targets).
use vstd::prelude::*;

use crate::graph::{Edge, Graph};
use crate::rng::{draw, stream, XorShift};
use vstd::arithmetic::div_mod::{lemma_fundamental_div_mod, lemma_fundamental_div_mod_converse};

verus! {

/// Source of the `k`-th edge of the fixed enumeration over `n` nodes.
pub open spec fn pair_src(n: int, k: int) -> int {
    k / (n - 1)
}

/// Target of the `k`-th edge of the fixed enumeration over `n` nodes.
pub open spec fn pair_dst(n: int, k: int) -> int {
    let s = k / (n - 1);
    let j = k % (n - 1);
    if j < s {
        j
    } else {
        j + 1
    }
}

/// Position of the demand from `s` to `t` in the fixed enumeration.
pub open spec fn demand_index(n: int, s: int, t: int) -> int {
    s * (n - 1) + if t < s {
        t
    } else {
        t - 1
    }
}

/// The edges form the complete demand graph over `n` nodes: one edge per
/// ordered pair of distinct nodes, in enumeration order, each weight a
/// 32-bit load value.
pub open spec fn complete_demands(es: Seq<Edge>, n: int) -> bool {
    &&& es.len() == n * (n - 1)
    &&& forall|k: int|
        0 <= k < es.len() ==> (#[trigger] es[k]).src == pair_src(n, k) && es[k].dst == pair_dst(
            n,
            k,
        ) && es[k].weight <= u32::MAX
}

/// `demand_index` really is the inverse of the pair enumeration: the edge
/// of an ordered pair of distinct nodes sits at that position.
pub proof fn lemma_demand_index(n: int, s: int, t: int)
    requires
        2 <= n,
        0 <= s < n,
        0 <= t < n,
        s != t,
    ensures
        0 <= demand_index(n, s, t) < n * (n - 1),
        pair_src(n, demand_index(n, s, t)) == s,
        pair_dst(n, demand_index(n, s, t)) == t,
{
    let j = if t < s {
        t
    } else {
        t - 1
    };
    let k = demand_index(n, s, t);
    assert(0 <= j < n - 1);
    assert(k == s * (n - 1) + j);
    lemma_fundamental_div_mod_converse(k, n - 1, s, j);
    assert(0 <= k && k < n * (n - 1)) by (nonlinear_arith)
        requires
            k == s * (n - 1) + j,
            0 <= j < n - 1,
            0 <= s < n,
    ;
}

/// Every enumeration position holds a valid ordered pair of distinct
/// nodes, and the enumeration has no repeated pair.
pub proof fn lemma_pair_at(n: int, k: int)
    requires
        2 <= n,
        0 <= k < n * (n - 1),
    ensures
        0 <= pair_src(n, k) < n,
        0 <= pair_dst(n, k) < n,
        pair_src(n, k) != pair_dst(n, k),
        demand_index(n, pair_src(n, k), pair_dst(n, k)) == k,
{
    lemma_fundamental_div_mod(k, n - 1);
    let s = k / (n - 1);
    let j = k % (n - 1);
    assert(0 <= j < n - 1);
    assert(0 <= s < n) by (nonlinear_arith)
        requires
            k == (n - 1) * s + j,
            0 <= j < n - 1,
            0 <= k < n * (n - 1),
    ;
}

/// The demand edges a given generator state determines: the whole run is
/// a pure function of the seed.
pub open spec fn demand_edges(n: int, s0: XorShift) -> Seq<Edge> {
    Seq::new(
        (n * (n - 1)) as nat,
        |k: int|
            Edge {
                src: pair_src(n, k) as usize,
                dst: pair_dst(n, k) as usize,
                weight: draw(s0, k as nat) as u64,
            },
    )
}

/// Builds the complete logical demand graph over `n` nodes, drawing one
/// weight per ordered pair from the stream, in enumeration order.
pub fn create_logical_topology(n: usize, rng: &mut XorShift) -> (g: Graph)
    ensures
        g.n == n,
        g.wf(),
        complete_demands(g.edges@, n as int),
        g.edges@ == demand_edges(n as int, *old(rng)),
        forall|k: int|
            0 <= k < g.edges@.len() ==> (#[trigger] g.edges@[k]).weight == draw(
                *old(rng),
                k as nat,
            ) as u64,
        *final (rng) == stream(*old(rng), g.edges@.len() as nat),
{
    let ghost s0 = *rng;
    let mut g = Graph::new(n);
    let mut from: usize = 0;
    while from < n
        invariant
            g.n == n,
            g.wf(),
            from <= n,
            g.edges@.len() == from * (n - 1),
            forall|k: int|
                0 <= k < g.edges@.len() ==> (#[trigger] g.edges@[k]).src == pair_src(n as int, k)
                    && g.edges@[k].dst == pair_dst(n as int, k) && g.edges@[k].weight <= u32::MAX
                    && g.edges@[k].weight == draw(s0, k as nat) as u64,
            *rng == stream(s0, g.edges@.len() as nat),
        decreases n - from,
    {
        let mut to: usize = 0;
        while to < n
            invariant
                g.n == n,
                g.wf(),
                from < n,
                to <= n,
                g.edges@.len() == from * (n - 1) + if to <= from {
                    to as int
                } else {
                    to - 1
                },
                forall|k: int|
                    0 <= k < g.edges@.len() ==> (#[trigger] g.edges@[k]).src == pair_src(
                        n as int,
                        k,
                    ) && g.edges@[k].dst == pair_dst(n as int, k) && g.edges@[k].weight
                        <= u32::MAX && g.edges@[k].weight == draw(s0, k as nat) as u64,
                *rng == stream(s0, g.edges@.len() as nat),
            decreases n - to,
        {
            if to != from {
                let w = rng.next_u32();
                proof {
                    let k = g.edges@.len() as int;
                    let j = if (to as int) < (from as int) {
                        to as int
                    } else {
                        to - 1
                    };
                    assert(k == from * (n - 1) + j);
                    lemma_fundamental_div_mod_converse(k, n - 1, from as int, j);
                    crate::rng::lemma_stream_snoc(s0, k as nat);
                }
                g.add_edge(from, to, w as u64);
            }
            to = to + 1;
        }
        proof {
            assert((from + 1) * (n - 1) == from * (n - 1) + (n - 1)) by (nonlinear_arith);
        }
        from = from + 1;
    }
    proof {
        assert(n * (n - 1) == g.edges@.len());
        assert(g.edges@ =~= demand_edges(n as int, s0)) by {
            assert forall|k: int|
                0 <= k < g.edges@.len() implies g.edges@[k] == demand_edges(n as int, s0)[k] by {
                assert(n as int >= 2) by (nonlinear_arith)
                    requires
                        0 <= k < (n as int) * (n as int - 1),
                        0 <= n as int,
                ;
                lemma_pair_at(n as int, k);
            }
        }
    }
    g
}

} // verus!
