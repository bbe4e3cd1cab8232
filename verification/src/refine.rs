//! Load-splitting refinement: repeatedly pick the hottest link, find the
//! cheapest alternate path around it, and shift half of the gap between
//! the hottest link and the hottest link of that detour onto the detour.
//!
//! One step redistributes load exactly: the split link loses `overflow`,
//! each of the `hops` detour links gains `overflow`, so the total load
//! grows by `(hops - 1) * overflow` and every node's divergence is
//! unchanged (flow conservation survives refinement).
use vstd::prelude::*;

use crate::flow::{add_along_path, on_path};
use crate::graph::{
    lemma_add_load, lemma_total_nonneg, lemma_weight_le_total, net_flow, same_pairs, simple,
    total_load, Edge, Graph,
};
use crate::route::{is_upath, linked, reachable, shortest_path};
use vstd::arithmetic::div_mod::lemma_fundamental_div_mod;

verus! {

/// What one refinement step did.
#[derive(Clone, Copy, Debug, PartialEq, Eq, Structural)]
pub enum RefineStep {
    /// The graph has no edges to refine.
    NoEdges,
    /// The hottest link has no alternate path; the step is skipped.
    NoAlternatePath,
    /// The hottest link `edge` lost `overflow` load and each of the
    /// `hops` links of its detour gained `overflow`.
    Split { edge: usize, hops: usize, overflow: u64 },
}

/// The position of the heaviest edge among the first `m`, ties broken
/// towards the lowest position.
pub open spec fn max_edge_upto(es: Seq<Edge>, m: int) -> int
    decreases m,
{
    if m <= 1 {
        0
    } else {
        let b = max_edge_upto(es, m - 1);
        if es[m - 1].weight > es[b].weight {
            m - 1
        } else {
            b
        }
    }
}

/// The position of the heaviest edge, ties broken towards the lowest.
pub open spec fn max_edge(es: Seq<Edge>) -> int {
    max_edge_upto(es, es.len() as int)
}

/// The chosen position really carries the maximum load.
pub proof fn lemma_max_edge(es: Seq<Edge>, m: int)
    requires
        1 <= m <= es.len(),
    ensures
        0 <= max_edge_upto(es, m) < m,
        forall|i: int| 0 <= i < m ==> (#[trigger] es[i]).weight <= es[max_edge_upto(es, m)].weight,
    decreases m,
{
    if m > 1 {
        lemma_max_edge(es, m - 1);
    }
}

/// The load on the link joining `a` to `b` (unique in a simple graph).
pub open spec fn pair_load(es: Seq<Edge>, a: int, b: int) -> int {
    es[choose|i: int|
        0 <= i < es.len() && (#[trigger] es[i]).src == a && es[i].dst == b].weight as int
}

/// In a simple graph, `pair_load` reads exactly the one edge of its pair.
pub proof fn lemma_pair_load_unique(es: Seq<Edge>, i: int)
    requires
        simple(es),
        0 <= i < es.len(),
    ensures
        pair_load(es, es[i].src as int, es[i].dst as int) == es[i].weight as int,
{
    let a = es[i].src as int;
    let b = es[i].dst as int;
    assert(0 <= i < es.len() && es[i].src == a && es[i].dst == b);
    let k = choose|k: int| 0 <= k < es.len() && (#[trigger] es[k]).src == a && es[k].dst == b;
    if k < i {
        assert(!(es[k].src == es[i].src && es[k].dst == es[i].dst));
    } else if i < k {
        assert(!(es[i].src == es[k].src && es[i].dst == es[k].dst));
    }
}

/// The heaviest load among the first `m` hops of the detour `p`.
pub open spec fn path_max_load(es: Seq<Edge>, p: Seq<usize>, m: int) -> int
    decreases m,
{
    if m <= 0 {
        0
    } else {
        let rest = path_max_load(es, p, m - 1);
        let w = pair_load(es, p[m - 1] as int, p[m] as int);
        if w > rest {
            w
        } else {
            rest
        }
    }
}

/// `p` is the detour a split used: a duplicate-free alternate path around
/// the split link, whose hottest load fixes the moved `overflow`; the
/// split link loses `overflow`, each detour link gains it, and every
/// other link keeps its load.
pub open spec fn split_detour(
    pre: Seq<Edge>,
    post: Seq<Edge>,
    edge: int,
    hops: int,
    overflow: int,
    p: Seq<usize>,
) -> bool {
    &&& is_upath(pre, Some(edge), p)
    &&& p.len() == hops + 1
    &&& p.no_duplicates()
    &&& p[0] == pre[edge].src
    &&& p[p.len() - 1] == pre[edge].dst
    &&& overflow == pre[edge].weight - (pre[edge].weight + path_max_load(pre, p, p.len() - 1)) / 2
    &&& forall|i: int|
        0 <= i < pre.len() ==> (#[trigger] post[i]).weight as int == (if i == edge {
            pre[i].weight - overflow
        } else if on_path(pre, p, i) {
            pre[i].weight + overflow
        } else {
            pre[i].weight as int
        })
}

/// Everything one refinement step guarantees between the edge lists
/// before (`pre`) and after (`post`): endpoint pairs and node divergences
/// are untouched; there is nothing to do exactly when there are no edges;
/// on edges, a split happens exactly when the hottest link has a detour,
/// and then some detour accounts for every changed load; otherwise
/// nothing changes.
pub open spec fn refine_step_rel(pre: Seq<Edge>, post: Seq<Edge>, r: RefineStep, n: int) -> bool {
    &&& same_pairs(pre, post)
    &&& (forall|v: int| net_flow(post, v) == net_flow(pre, v))
    &&& (r == RefineStep::NoEdges <==> pre.len() == 0)
    &&& (pre.len() > 0 ==> ((r is Split) <==> reachable(
        pre,
        Some(max_edge(pre)),
        pre[max_edge(pre)].src as int,
        pre[max_edge(pre)].dst as int,
    )))
    &&& match r {
        RefineStep::NoEdges => post == pre,
        RefineStep::NoAlternatePath => post == pre,
        RefineStep::Split { edge, hops, overflow } => {
            &&& edge as int == max_edge(pre)
            &&& 1 <= hops < n
            &&& overflow <= pre[edge as int].weight
            &&& total_load(post) == total_load(pre) + (hops - 1) * (overflow as int)
            &&& exists|p: Seq<usize>|
                split_detour(pre, post, edge as int, hops as int, overflow as int, p)
        },
    }
}

/// Performs the split around the hottest link `m` along the detour `p`:
/// computes the detour's hottest load, moves half the gap onto every
/// detour link, and lowers the split link by the same amount.
#[verifier::rlimit(100)]
fn do_split(g: &mut Graph, m: usize, p: &Vec<usize>) -> (r: RefineStep)
    requires
        old(g).wf(),
        simple(old(g).edges@),
        1 <= old(g).n,
        total_load(old(g).edges@) * (old(g).n as int + 1) <= u64::MAX as int,
        m < old(g).edges@.len(),
        m as int == max_edge(old(g).edges@),
        is_upath(old(g).edges@, Some(m as int), p@),
        p@.len() >= 2,
        p@.no_duplicates(),
        forall|k: int| 0 <= k < p@.len() ==> (#[trigger] p@[k]) < old(g).n,
        p@[0] == old(g).edges@[m as int].src,
        p@[p@.len() - 1] == old(g).edges@[m as int].dst,
    ensures
        final (g).n == old(g).n,
        final (g).wf(),
        simple(final (g).edges@),
        r is Split,
        refine_step_rel(old(g).edges@, final (g).edges@, r, old(g).n as int),
{
    let ghost es0 = old(g).edges@;
    let ghost n0 = old(g).n as int;
    let e = g.edge_at(m);
    // The hottest link along the detour, in the present graph.
    let mut mv: u64 = 0;
    let mut j: usize = 0;
    while j < p.len() - 1
        invariant
            g == old(g),
            simple(es0),
            g.wf(),
            p@.len() >= 2,
            j <= p@.len() - 1,
            forall|k: int| 0 <= k < p@.len() ==> (#[trigger] p@[k]) < g.n,
            is_upath(es0, Some(m as int), p@),
            mv as int <= es0[m as int].weight as int,
            mv as int == path_max_load(es0, p@, j as int),
            m < es0.len(),
            m as int == max_edge(es0),
        decreases p@.len() - 1 - j,
    {
        proof {
            assert(linked(es0, Some(m as int), p@[j as int] as int, p@[j as int + 1] as int));
        }
        let idx = g.find_edge(p[j], p[j + 1]).unwrap();
        let w = g.weight_at(idx);
        proof {
            lemma_max_edge(es0, es0.len() as int);
            lemma_pair_load_unique(es0, idx as int);
            assert(es0[idx as int].src == p@[j as int] && es0[idx as int].dst == p@[j as int + 1]);
            assert(pair_load(es0, p@[j as int] as int, p@[j as int + 1] as int) == w as int);
        }
        if w > mv {
            mv = w;
        }
        j = j + 1;
    }
    let we = e.weight;
    proof {
        lemma_total_nonneg(es0);
        lemma_weight_le_total(es0, m as int);
        assert(we + mv <= u64::MAX) by (nonlinear_arith)
            requires
                we as int <= total_load(es0),
                mv as int <= we as int,
                0 <= mv,
                total_load(es0) * (n0 + 1) <= u64::MAX as int,
                1 <= n0,
                0 <= total_load(es0),
        ;
    }
    let neww = (we + mv) / 2;
    let overflow = we - neww;
    proof {
        // Half the gap: the new load never exceeds the old one.
        assert(neww <= we && we - neww <= we) by {
            lemma_fundamental_div_mod((we + mv) as int, 2);
        }
        // The detour spends at most one hop per node.
        crate::route::lemma_distinct_bounded(crate::route::to_ints(p@), old(g).n as int);
        assert(crate::route::to_ints(p@).no_duplicates()) by {
            assert forall|x: int, y: int|
                0 <= x < p@.len() && 0 <= y < p@.len() && x != y implies crate::route::to_ints(
                p@,
            )[x] != crate::route::to_ints(p@)[y] by {
                assert(p@[x] != p@[y]);
            }
        }
        // Room for the detour load: overflow fits n - 1 more times.
        assert(total_load(es0) + (p@.len() - 1) * (overflow as int) <= u64::MAX as int)
            by (nonlinear_arith)
            requires
                overflow as int <= total_load(es0),
                p@.len() <= n0,
                2 <= p@.len(),
                total_load(es0) * (n0 + 1) <= u64::MAX as int,
                0 <= total_load(es0),
                0 <= overflow,
        ;
        // The detour never runs over the split link itself: its endpoint
        // pair appears on no detour hop, because the pair is unique and
        // the search avoided that handle.
        assert(!on_path(es0, p@, m as int)) by {
            if on_path(es0, p@, m as int) {
                let k = choose|k: int|
                    0 <= k < p@.len() - 1 && es0[m as int].src == (#[trigger] p@[k]) && es0[
                        m as int].dst == p@[k + 1];
                assert(linked(es0, Some(m as int), p@[k] as int, p@[k + 1] as int));
                let i2 = choose|i2: int|
                    0 <= i2 < es0.len() && crate::route::edge_ok(Some(m as int), i2) && (
                    #[trigger] es0[i2]).src == p@[k] as int && es0[i2].dst == p@[k + 1] as int;
                assert(es0[i2].src == es0[m as int].src && es0[i2].dst == es0[m as int].dst && i2
                    != m as int);
                assert(false);
            }
        }
        // The detour is a path over all usable links as well.
        assert(is_upath(es0, None, p@)) by {
            assert forall|k: int| 0 <= k < p@.len() - 1 implies linked(
                es0,
                None,
                #[trigger] p@[k] as int,
                p@[k + 1] as int,
            ) by {
                assert(linked(es0, Some(m as int), p@[k] as int, p@[k + 1] as int));
                let i2 = choose|i2: int|
                    0 <= i2 < es0.len() && crate::route::edge_ok(Some(m as int), i2) && (
                    #[trigger] es0[i2]).src == p@[k] as int && es0[i2].dst == p@[k + 1] as int;
                assert(crate::route::edge_ok(None, i2));
            }
        }
    }
    add_along_path(g, p, overflow);
    let ghost mid = g.edges@;
    let w2 = g.weight_at(m);
    proof {
        assert(w2 == we);
    }
    g.set_weight(m, w2 - overflow);
    proof {
        assert forall|v: int| net_flow(g.edges@, v) == net_flow(es0, v) by {
            lemma_add_load(mid, m as int, -(overflow as int), v);
        }
        assert(total_load(g.edges@) == total_load(mid) - overflow as int) by {
            lemma_add_load(mid, m as int, -(overflow as int), 0);
        }
        assert(total_load(g.edges@) == total_load(es0) + ((p@.len() - 2)) * (overflow as int))
            by (nonlinear_arith)
            requires
                total_load(g.edges@) == total_load(mid) - overflow as int,
                total_load(mid) == total_load(es0) + (p@.len() - 1) * (overflow as int),
        ;
        assert(same_pairs(es0, g.edges@));
        crate::flow::lemma_same_pairs_simple(es0, g.edges@);
        // The detour witnesses the split: every load change is accounted
        // for link by link.
        assert(split_detour(es0, g.edges@, m as int, p@.len() - 1, overflow as int, p@)) by {
            assert forall|i: int| 0 <= i < es0.len() implies (
            #[trigger] g.edges@[i]).weight as int == (if i == m as int {
                es0[i].weight - overflow
            } else if on_path(es0, p@, i) {
                es0[i].weight + overflow
            } else {
                es0[i].weight as int
            }) by {
                if i == m as int {
                    assert(g.edges@[i].weight == w2 - overflow);
                } else if on_path(es0, p@, i) {
                    assert(mid[i].weight == es0[i].weight + overflow);
                    assert(g.edges@[i] == mid[i]);
                } else {
                    assert(mid[i].weight == es0[i].weight);
                    assert(g.edges@[i] == mid[i]);
                }
            }
        }
        crate::flow::lemma_upath_reachable(es0, Some(m as int), p@);
    }
    RefineStep::Split { edge: m, hops: p.len() - 1, overflow }
}

/// Every hop's load is bounded by the detour's maximum.
proof fn lemma_path_max_ge(es: Seq<Edge>, p: Seq<usize>, m: int, k: int)
    requires
        0 <= k < m,
    ensures
        pair_load(es, p[k] as int, p[k + 1] as int) <= path_max_load(es, p, m),
    decreases m,
{
    if k < m - 1 {
        lemma_path_max_ge(es, p, m - 1, k);
    }
}

/// On a real path, the detour's maximum is bounded by any bound on all
/// loads (and is never negative).
proof fn lemma_path_max_le(es: Seq<Edge>, p: Seq<usize>, m: int, av: Option<int>, bound: int)
    requires
        is_upath(es, av, p),
        0 <= m <= p.len() - 1,
        0 <= bound,
        forall|i: int| 0 <= i < es.len() ==> (#[trigger] es[i]).weight as int <= bound,
    ensures
        0 <= path_max_load(es, p, m) <= bound,
    decreases m,
{
    if m > 0 {
        lemma_path_max_le(es, p, m - 1, av, bound);
        assert(linked(es, av, p[m - 1] as int, p[m] as int));
        let iw = choose|iw: int|
            0 <= iw < es.len() && crate::route::edge_ok(av, iw) && (#[trigger] es[iw]).src == p[m
                - 1] as int && es[iw].dst == p[m] as int;
        let a = p[m - 1] as int;
        let b = p[m] as int;
        assert(0 <= iw < es.len() && es[iw].src == a && es[iw].dst == b);
        let i2 = choose|i: int| 0 <= i < es.len() && (#[trigger] es[i]).src == a && es[i].dst == b;
        assert(pair_load(es, a, b) == es[i2].weight);
        assert(es[i2].weight <= bound);
    }
}

/// Refinement never raises the peak: after one step, every link carries
/// at most what the hottest link carried before it. The split link drops
/// to the midpoint, and every detour link ends at most at that midpoint's
/// mirror below the old peak.
pub proof fn lemma_refine_step_peak(pre: Seq<Edge>, post: Seq<Edge>, r: RefineStep, n: int)
    requires
        refine_step_rel(pre, post, r, n),
        simple(pre),
        pre.len() > 0,
    ensures
        forall|i: int|
            0 <= i < post.len() ==> (#[trigger] post[i]).weight as int <= pre[max_edge(
                pre,
            )].weight as int,
{
    lemma_max_edge(pre, pre.len() as int);
    let w = pre[max_edge(pre)].weight as int;
    match r {
        RefineStep::NoEdges => {
        },
        RefineStep::NoAlternatePath => {
        },
        RefineStep::Split { edge, hops, overflow } => {
            let p = choose|p: Seq<usize>|
                split_detour(pre, post, edge as int, hops as int, overflow as int, p);
            let mv = path_max_load(pre, p, p.len() - 1);
            lemma_path_max_le(pre, p, p.len() - 1, Some(edge as int), w);
            lemma_fundamental_div_mod(w + mv, 2);
            assert forall|i: int|
                0 <= i < post.len() implies (#[trigger] post[i]).weight as int <= w by {
                if i == edge as int {
                    assert(post[i].weight as int == w - overflow);
                } else if on_path(pre, p, i) {
                    let k = choose|k: int|
                        0 <= k < p.len() - 1 && pre[i].src == (#[trigger] p[k]) && pre[i].dst
                            == p[k + 1];
                    lemma_pair_load_unique(pre, i);
                    assert(pair_load(pre, p[k] as int, p[k + 1] as int) == pre[i].weight as int);
                    lemma_path_max_ge(pre, p, p.len() - 1, k);
                    assert(post[i].weight as int == pre[i].weight + overflow);
                    // Parity: when the peak and the detour's maximum sum
                    // to an odd value, the maximum is strictly below the
                    // peak, so the raised detour stays at or below it.
                    assert(mv + (w - (w + mv) / 2) <= w) by {
                        if (w + mv) % 2 == 1 {
                            assert(mv != w);
                        }
                    }
                } else {
                    assert(post[i].weight == pre[i].weight);
                }
            }
        },
    }
}

/// One refinement step. The outcome reports exactly what changed: on a
/// split, the detour's links each gain the computed `overflow`, the split
/// link loses it, no other load moves, and every node's divergence is
/// preserved; with no detour (or no edges) the graph is untouched.
pub fn refine_step(g: &mut Graph) -> (r: RefineStep)
    requires
        old(g).wf(),
        simple(old(g).edges@),
        1 <= old(g).n,
        total_load(old(g).edges@) * (old(g).n as int + 1) <= u64::MAX as int,
    ensures
        final (g).n == old(g).n,
        final (g).wf(),
        simple(final (g).edges@),
        refine_step_rel(old(g).edges@, final (g).edges@, r, old(g).n as int),
{
    let ghost es0 = old(g).edges@;
    if g.edge_count() == 0 {
        return RefineStep::NoEdges;
    }
    // The hottest link, ties broken towards the lowest handle.
    let mut m: usize = 0;
    let mut i: usize = 1;
    while i < g.edges.len()
        invariant
            g == old(g),
            1 <= i <= es0.len(),
            m < i,
            m as int == max_edge_upto(es0, i as int),
        decreases es0.len() - i,
    {
        if g.edges[i].weight > g.edges[m].weight {
            m = i;
        }
        i = i + 1;
    }
    proof {
        lemma_max_edge(es0, es0.len() as int);
    }
    let e = g.edge_at(m);
    match shortest_path(g, e.src, e.dst, Some(m)) {
        None => RefineStep::NoAlternatePath,
        Some(p) => do_split(g, m, &p),
    }
}

/// The current total load, exactly.
pub fn total_weight(g: &Graph) -> (t: u128)
    ensures
        t as int == total_load(g.edges@),
{
    let mut t: u128 = 0;
    let mut i: usize = 0;
    while i < g.edges.len()
        invariant
            i <= g.edges@.len(),
            t as int == total_load(g.edges@.take(i as int)),
            t as int <= i * (u64::MAX as int),
        decreases g.edges@.len() - i,
    {
        proof {
            assert(g.edges@.take(i + 1) =~= g.edges@.take(i as int).push(g.edges@[i as int]));
            crate::graph::lemma_push(g.edges@.take(i as int), g.edges@[i as int], 0);
            assert(i * (u64::MAX as int) + (u64::MAX as int) == (i + 1) * (
            u64::MAX as int)) by (nonlinear_arith);
            assert((i + 1) * (u64::MAX as int) < u128::MAX as int) by (nonlinear_arith)
                requires
                    i + 1 <= g.edges@.len(),
                    g.edges@.len() <= usize::MAX as int,
                    usize::MAX as int <= u64::MAX as int,
            ;
        }
        t = t + (g.edges[i].weight as u128);
        i = i + 1;
    }
    proof {
        assert(g.edges@.take(g.edges@.len() as int) =~= g.edges@);
    }
    t
}

/// What connects the returned step outcomes to the graph: a chain of
/// edge-list states from the input to the result, one `refine_step_rel`
/// link per reported step.
pub open spec fn trace_ok(
    chain: Seq<Seq<Edge>>,
    first: Seq<Edge>,
    last: Seq<Edge>,
    steps: Seq<RefineStep>,
    n: int,
) -> bool {
    &&& chain.len() == steps.len() + 1
    &&& chain[0] == first
    &&& chain[chain.len() - 1] == last
    &&& forall|k: int|
        0 <= k < steps.len() ==> refine_step_rel(chain[k], chain[k + 1], #[trigger] steps[k], n)
}

/// Runs up to `iterations` refinement steps and reports what each did:
/// the outcomes chain the input to the result step by step under
/// `refine_step_rel`. It stops early only when the arithmetic headroom
/// for one more step is gone (the total load could no longer absorb a
/// worst-case split exactly). Node divergences — and with them flow
/// conservation — are untouched.
pub fn refine(g: &mut Graph, iterations: usize) -> (steps: Vec<RefineStep>)
    requires
        old(g).wf(),
        simple(old(g).edges@),
        1 <= old(g).n,
    ensures
        final (g).n == old(g).n,
        final (g).wf(),
        simple(final (g).edges@),
        same_pairs(old(g).edges@, final (g).edges@),
        forall|v: int| net_flow(final (g).edges@, v) == net_flow(old(g).edges@, v),
        steps@.len() <= iterations,
        steps@.len() < iterations ==> total_load(final (g).edges@) * (old(g).n as int + 1)
            > u64::MAX as int,
        exists|chain: Seq<Seq<Edge>>|
            trace_ok(chain, old(g).edges@, final (g).edges@, steps@, old(g).n as int),
{
    let mut steps: Vec<RefineStep> = Vec::new();
    let ghost mut chain: Seq<Seq<Edge>> = seq![old(g).edges@];
    let mut it: usize = 0;
    let mut stopped = false;
    while it < iterations && !stopped
        invariant
            g.n == old(g).n,
            g.wf(),
            1 <= g.n,
            simple(g.edges@),
            same_pairs(old(g).edges@, g.edges@),
            forall|v: int| net_flow(g.edges@, v) == net_flow(old(g).edges@, v),
            it <= iterations,
            steps@.len() == it,
            chain.len() == it + 1,
            chain[0] == old(g).edges@,
            chain[chain.len() - 1] == g.edges@,
            forall|k: int|
                0 <= k < steps@.len() ==> refine_step_rel(
                    chain[k],
                    chain[k + 1],
                    #[trigger] steps@[k],
                    old(g).n as int,
                ),
            stopped ==> total_load(g.edges@) * (old(g).n as int + 1) > u64::MAX as int,
        decreases iterations - it, (if stopped {
            0int
        } else {
            1int
        }),
    {
        let tot = total_weight(g);
        let headroom = (u64::MAX as u128) / ((g.n as u128) + 1);
        proof {
            lemma_fundamental_div_mod(u64::MAX as int, g.n as int + 1);
            lemma_total_nonneg(g.edges@);
        }
        if tot > headroom {
            proof {
                assert(total_load(g.edges@) * (g.n as int + 1) > u64::MAX as int) by (nonlinear_arith)
                    requires
                        total_load(g.edges@) > (u64::MAX as int) / (g.n as int + 1),
                        u64::MAX as int == (g.n as int + 1) * ((u64::MAX as int) / (g.n as int + 1))
                            + (u64::MAX as int) % (g.n as int + 1),
                        (u64::MAX as int) % (g.n as int + 1) < g.n as int + 1,
                        1 <= g.n,
                ;
            }
            stopped = true;
        } else {
            proof {
                assert(total_load(g.edges@) * (g.n as int + 1) <= u64::MAX as int) by (nonlinear_arith)
                    requires
                        total_load(g.edges@) <= (u64::MAX as int) / (g.n as int + 1),
                        u64::MAX as int == (g.n as int + 1) * ((u64::MAX as int) / (g.n as int + 1))
                            + (u64::MAX as int) % (g.n as int + 1),
                        0 <= (u64::MAX as int) % (g.n as int + 1),
                        1 <= g.n,
                        0 <= total_load(g.edges@),
                ;
            }
            let r = refine_step(g);
            steps.push(r);
            proof {
                chain = chain.push(g.edges@);
            }
            it = it + 1;
        }
    }
    proof {
        assert(trace_ok(chain, old(g).edges@, g.edges@, steps@, old(g).n as int));
    }
    steps
}

} // verus!
