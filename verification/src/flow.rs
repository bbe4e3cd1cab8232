//! Traffic embedding and flow conservation.
//!
//! Every logical demand is mapped onto physical links: a demand whose
//! endpoints are directly linked loads that link; every other demand is
//! routed along a minimum-load path, heaviest demand first. The central
//! theorem is exact flow conservation: after embedding, each node's
//! physical divergence equals its logical divergence.
use vstd::prelude::*;

use crate::demand::complete_demands;
use crate::graph::{
    edge_net, has_pair, in_sum, lemma_add_load, lemma_net_is_out_minus_in, lemma_push,
    lemma_total_nonneg, lemma_weight_le_total, net_flow, out_sum, same_pairs, simple, total_load,
    zero_weights, Edge, Graph,
};
use crate::route::{is_path, is_upath, linked, reachable, shortest_path};
use crate::Error;

verus! {

/// Flow conservation: at every node, physical inflow plus logical outflow
/// equals physical outflow plus logical inflow.
pub open spec fn balanced(phys: Seq<Edge>, logical: Seq<Edge>, n: int) -> bool {
    forall|v: int|
        0 <= v < n ==> in_sum(phys, v) + out_sum(logical, v) == out_sum(phys, v) + in_sum(
            logical,
            v,
        )
}

/// Removing one edge removes exactly its contribution to the divergence.
pub proof fn lemma_net_remove(ds: Seq<Edge>, i: int, v: int)
    requires
        0 <= i < ds.len(),
    ensures
        net_flow(ds, v) == net_flow(ds.remove(i), v) + edge_net(ds[i], v),
    decreases ds.len(),
{
    if i == ds.len() - 1 {
        assert(ds.remove(i) =~= ds.drop_last());
    } else {
        assert(ds.remove(i).drop_last() =~= ds.drop_last().remove(i));
        assert(ds.remove(i).last() == ds.last());
        lemma_net_remove(ds.drop_last(), i, v);
    }
}

/// The divergence of a demand list depends only on which demands it
/// holds, not on their order.
pub proof fn lemma_net_multiset(a: Seq<Edge>, b: Seq<Edge>, v: int)
    requires
        a.to_multiset() == b.to_multiset(),
    ensures
        net_flow(a, v) == net_flow(b, v),
    decreases a.len(),
{
    broadcast use vstd::seq_lib::group_to_multiset_ensures;

    if a.len() == 0 {
        assert(b.len() == b.to_multiset().len());
    } else {
        let x = a.last();
        assert(a.contains(x));
        assert(b.to_multiset().count(x) > 0);
        assert(b.contains(x));
        let j = choose|j: int| 0 <= j < b.len() && b[j] == x;
        lemma_net_remove(b, j, v);
        assert(a.drop_last() =~= a.remove(a.len() - 1));
        assert(a.drop_last().to_multiset() == b.remove(j).to_multiset());
        lemma_net_multiset(a.drop_last(), b.remove(j), v);
    }
}

/// Divergence adds up over concatenation.
pub proof fn lemma_net_concat(a: Seq<Edge>, b: Seq<Edge>, v: int)
    ensures
        net_flow(a + b, v) == net_flow(a, v) + net_flow(b, v),
    decreases b.len(),
{
    if b.len() == 0 {
        assert(a + b =~= a);
    } else {
        assert((a + b).drop_last() =~= a + b.drop_last());
        assert((a + b).last() == b.last());
        lemma_net_concat(a, b.drop_last(), v);
    }
}

/// The demands whose endpoints are directly linked in `phys`.
pub open spec fn keep_direct(ds: Seq<Edge>, phys: Seq<Edge>) -> Seq<Edge>
    decreases ds.len(),
{
    if ds.len() == 0 {
        Seq::empty()
    } else {
        let r = keep_direct(ds.drop_last(), phys);
        if has_pair(phys, ds.last().src as int, ds.last().dst as int) {
            r.push(ds.last())
        } else {
            r
        }
    }
}

/// The demands whose endpoints are not directly linked in `phys`.
pub open spec fn drop_direct(ds: Seq<Edge>, phys: Seq<Edge>) -> Seq<Edge>
    decreases ds.len(),
{
    if ds.len() == 0 {
        Seq::empty()
    } else {
        let r = drop_direct(ds.drop_last(), phys);
        if has_pair(phys, ds.last().src as int, ds.last().dst as int) {
            r
        } else {
            r.push(ds.last())
        }
    }
}

/// Splitting by directness loses and duplicates nothing.
pub proof fn lemma_split_multiset(ds: Seq<Edge>, phys: Seq<Edge>)
    ensures
        keep_direct(ds, phys).to_multiset().add(drop_direct(ds, phys).to_multiset())
            == ds.to_multiset(),
    decreases ds.len(),
{
    broadcast use vstd::seq_lib::group_to_multiset_ensures;
    broadcast use vstd::multiset::group_multiset_axioms;

    if ds.len() == 0 {
        assert(keep_direct(ds, phys).to_multiset().add(drop_direct(ds, phys).to_multiset())
            =~= ds.to_multiset());
    } else {
        lemma_split_multiset(ds.drop_last(), phys);
        assert(ds.drop_last().push(ds.last()) =~= ds);
        assert(keep_direct(ds, phys).to_multiset().add(drop_direct(ds, phys).to_multiset())
            =~= ds.to_multiset());
    }
}

/// Directness only looks at endpoint pairs, so the split is the same over
/// any graph with the same pairs.
pub proof fn lemma_same_pairs_has_pair(a: Seq<Edge>, b: Seq<Edge>, s: int, t: int)
    requires
        same_pairs(a, b),
    ensures
        has_pair(a, s, t) == has_pair(b, s, t),
{
    if has_pair(a, s, t) {
        let i = choose|i: int| 0 <= i < a.len() && (#[trigger] a[i]).src == s && a[i].dst == t;
        assert(b[i].src == s && b[i].dst == t);
    }
    if has_pair(b, s, t) {
        let i = choose|i: int| 0 <= i < b.len() && (#[trigger] b[i]).src == s && b[i].dst == t;
        assert(a[i].src == s && a[i].dst == t);
    }
}

/// Simplicity only looks at endpoint pairs.
pub proof fn lemma_same_pairs_simple(a: Seq<Edge>, b: Seq<Edge>)
    requires
        same_pairs(a, b),
        simple(a),
    ensures
        simple(b),
{
    assert forall|i: int| 0 <= i < b.len() implies (#[trigger] b[i]).src != b[i].dst by {
        assert(a[i].src != a[i].dst);
    }
    assert forall|i: int, j: int| 0 <= i < j < b.len() implies !((#[trigger] b[i]).src == (
    #[trigger] b[j]).src && b[i].dst == b[j].dst) by {
        assert(!(a[i].src == a[j].src && a[i].dst == a[j].dst));
    }
}

/// The same, lifted to the two filters.
pub proof fn lemma_filters_same_pairs(ds: Seq<Edge>, a: Seq<Edge>, b: Seq<Edge>)
    requires
        same_pairs(a, b),
    ensures
        keep_direct(ds, a) == keep_direct(ds, b),
        drop_direct(ds, a) == drop_direct(ds, b),
    decreases ds.len(),
{
    if ds.len() > 0 {
        lemma_filters_same_pairs(ds.drop_last(), a, b);
        lemma_same_pairs_has_pair(a, b, ds.last().src as int, ds.last().dst as int);
    }
}

/// A usable link only depends on endpoint pairs.
pub proof fn lemma_same_pairs_linked(a: Seq<Edge>, b: Seq<Edge>, av: Option<int>, x: int, y: int)
    requires
        same_pairs(a, b),
    ensures
        linked(a, av, x, y) == linked(b, av, x, y),
{
    if linked(a, av, x, y) {
        let i = choose|i: int|
            0 <= i < a.len() && crate::route::edge_ok(av, i) && (#[trigger] a[i]).src == x
                && a[i].dst == y;
        assert(b[i].src == x && b[i].dst == y);
    }
    if linked(b, av, x, y) {
        let i = choose|i: int|
            0 <= i < b.len() && crate::route::edge_ok(av, i) && (#[trigger] b[i]).src == x
                && b[i].dst == y;
        assert(a[i].src == x && a[i].dst == y);
    }
}

/// Reachability only depends on endpoint pairs.
pub proof fn lemma_same_pairs_reachable(
    a: Seq<Edge>,
    b: Seq<Edge>,
    av: Option<int>,
    s: int,
    t: int,
)
    requires
        same_pairs(a, b),
    ensures
        reachable(a, av, s, t) == reachable(b, av, s, t),
{
    if reachable(a, av, s, t) {
        let p = choose|p: Seq<int>| is_path(a, av, p) && p[0] == s && p[p.len() - 1] == t;
        assert(is_path(b, av, p)) by {
            assert forall|k: int| 0 <= k < p.len() - 1 implies linked(
                b,
                av,
                #[trigger] p[k],
                p[k + 1],
            ) by {
                lemma_same_pairs_linked(a, b, av, p[k], p[k + 1]);
            }
        }
    }
    if reachable(b, av, s, t) {
        let p = choose|p: Seq<int>| is_path(b, av, p) && p[0] == s && p[p.len() - 1] == t;
        assert(is_path(a, av, p)) by {
            assert forall|k: int| 0 <= k < p.len() - 1 implies linked(
                a,
                av,
                #[trigger] p[k],
                p[k + 1],
            ) by {
                lemma_same_pairs_linked(a, b, av, p[k], p[k + 1]);
            }
        }
    }
}

/// A concrete path witnesses reachability of its end from its start.
pub proof fn lemma_upath_reachable(es: Seq<Edge>, av: Option<int>, p: Seq<usize>)
    requires
        is_upath(es, av, p),
    ensures
        reachable(es, av, p[0] as int, p[p.len() - 1] as int),
{
    let q = p.map_values(|x: usize| x as int);
    assert(is_path(es, av, q)) by {
        assert forall|k: int| 0 <= k < q.len() - 1 implies linked(es, av, #[trigger] q[k], q[k + 1]) by {
            assert(q[k] == p[k] as int && q[k + 1] == p[k + 1] as int);
        }
    }
    assert(q[0] == p[0] as int && q[q.len() - 1] == p[p.len() - 1] as int);
}

/// Edge `i` joins two consecutive nodes of `p`.
pub open spec fn on_path(es: Seq<Edge>, p: Seq<usize>, i: int) -> bool {
    exists|k: int|
        0 <= k < p.len() - 1 && es[i].src == (#[trigger] p[k]) && es[i].dst == p[k + 1]
}

/// Edge `i` joins two consecutive nodes among the first `j` hops of `p`.
pub open spec fn on_prefix(es: Seq<Edge>, p: Seq<usize>, j: int, i: int) -> bool {
    exists|k: int| 0 <= k < j && es[i].src == (#[trigger] p[k]) && es[i].dst == p[k + 1]
}

/// Adds `d` units of load to every link along `p`, moving the divergence
/// of the path's head up by `d` and of its tail down by `d` and leaving
/// every other node's divergence unchanged; links off the path keep their
/// load.
pub(crate) fn add_along_path(phys: &mut Graph, p: &Vec<usize>, d: u64)
    requires
        old(phys).wf(),
        simple(old(phys).edges@),
        is_upath(old(phys).edges@, None, p@),
        p@.no_duplicates(),
        forall|k: int| 0 <= k < p@.len() ==> (#[trigger] p@[k]) < old(phys).n,
        total_load(old(phys).edges@) + (p@.len() - 1) * (d as int) <= u64::MAX as int,
    ensures
        final (phys).n == old(phys).n,
        final (phys).wf(),
        same_pairs(old(phys).edges@, final (phys).edges@),
        total_load(final (phys).edges@) == total_load(old(phys).edges@) + (p@.len() - 1) * (
        d as int),
        forall|v: int|
            net_flow(final (phys).edges@, v) == net_flow(old(phys).edges@, v) + (if p@[0] as int
                == v {
                d as int
            } else {
                0int
            }) - (if p@[p@.len() - 1] as int == v {
                d as int
            } else {
                0int
            }),
        forall|i: int|
            0 <= i < old(phys).edges@.len() && !on_path(old(phys).edges@, p@, i) ==> final (
            phys).edges@[i].weight == old(phys).edges@[i].weight,
        forall|i: int|
            0 <= i < old(phys).edges@.len() && on_path(old(phys).edges@, p@, i) ==> final (
            phys).edges@[i].weight == old(phys).edges@[i].weight + d,
{
    let ghost base = old(phys).edges@;
    let mut j: usize = 0;
    while j < p.len() - 1
        invariant
            phys.wf(),
            phys.n == old(phys).n,
            p@.len() >= 1,
            j <= p@.len() - 1,
            forall|k: int| 0 <= k < p@.len() ==> (#[trigger] p@[k]) < phys.n,
            same_pairs(base, phys.edges@),
            is_upath(base, None, p@),
            total_load(base) + (p@.len() - 1) * (d as int) <= u64::MAX as int,
            total_load(phys.edges@) == total_load(base) + j * (d as int),
            forall|v: int|
                net_flow(phys.edges@, v) == net_flow(base, v) + (if p@[0] as int == v {
                    d as int
                } else {
                    0int
                }) - (if p@[j as int] as int == v {
                    d as int
                } else {
                    0int
                }),
            simple(base),
            p@.no_duplicates(),
            forall|i: int|
                0 <= i < base.len() ==> phys.edges@[i].weight as int == base[i].weight + (
                if on_prefix(base, p@, j as int, i) {
                    d as int
                } else {
                    0int
                }),
        decreases p@.len() - 1 - j,
    {
        let a = p[j];
        let b = p[j + 1];
        proof {
            assert(linked(base, None, a as int, b as int));
            lemma_same_pairs_linked(base, phys.edges@, None, a as int, b as int);
            let i = choose|i: int|
                0 <= i < phys.edges@.len() && crate::route::edge_ok(None, i) && (
                #[trigger] phys.edges@[i]).src == a as int && phys.edges@[i].dst == b as int;
            assert(has_pair(phys.edges@, a as int, b as int));
        }
        let i = phys.find_edge(a, b).unwrap();
        let w = phys.weight_at(i);
        proof {
            lemma_weight_le_total(phys.edges@, i as int);
            assert(j * (d as int) + (d as int) == (j + 1) * (d as int)
                && (j + 1) * (d as int) <= (p@.len() - 1) * (d as int)) by (nonlinear_arith)
                requires
                    0 <= j,
                    j + 1 <= p@.len() - 1,
                    0 <= d as int,
            ;
        }
        let ghost pre = phys.edges@;
        phys.set_weight(i, w + d);
        proof {
            assert(phys.edges@ == pre.update(
                i as int,
                Edge { src: pre[i as int].src, dst: pre[i as int].dst, weight: (w + d) as u64 },
            ));
            assert forall|v: int|
                net_flow(phys.edges@, v) == net_flow(pre, v) + (if a as int == v {
                    d as int
                } else {
                    0int
                }) - (if b as int == v {
                    d as int
                } else {
                    0int
                }) by {
                lemma_add_load(pre, i as int, d as int, v);
            }
            assert(total_load(phys.edges@) == total_load(pre) + d as int) by {
                lemma_add_load(pre, i as int, d as int, 0);
            }
            assert(j * (d as int) + (d as int) == (j + 1) * (d as int)) by (nonlinear_arith);
            assert forall|i2: int| 0 <= i2 < base.len() implies phys.edges@[i2].weight as int
                == base[i2].weight + (if on_prefix(base, p@, j + 1, i2) {
                d as int
            } else {
                0int
            }) by {
                assert(base[i as int].src == a && base[i as int].dst == b);
                if i2 == i as int {
                    // This link was not loaded on an earlier hop: its pair
                    // occurs only at hop `j`, since the path repeats no node.
                    assert(!on_prefix(base, p@, j as int, i2)) by {
                        if on_prefix(base, p@, j as int, i2) {
                            let k = choose|k: int|
                                0 <= k < j && base[i2].src == (#[trigger] p@[k]) && base[i2].dst
                                    == p@[k + 1];
                            assert(p@[k] == p@[j as int]);
                        }
                    }
                    assert(on_prefix(base, p@, j + 1, i2)) by {
                        assert(base[i2].src == p@[j as int] && base[i2].dst == p@[j as int + 1]);
                    }
                } else {
                    // Any other link's status is unchanged: only the unique
                    // link of hop `j`'s pair becomes newly loaded.
                    assert(on_prefix(base, p@, j + 1, i2) == on_prefix(base, p@, j as int, i2))
                        by {
                        if on_prefix(base, p@, j + 1, i2) && !on_prefix(base, p@, j as int, i2) {
                            let k = choose|k: int|
                                0 <= k < j + 1 && base[i2].src == (#[trigger] p@[k]) && base[
                                    i2].dst == p@[k + 1];
                            assert(k == j as int);
                            assert(base[i2].src == base[i as int].src && base[i2].dst == base[
                                i as int].dst);
                            assert(false);
                        }
                        if on_prefix(base, p@, j as int, i2) {
                            let k = choose|k: int|
                                0 <= k < j && base[i2].src == (#[trigger] p@[k]) && base[i2].dst
                                    == p@[k + 1];
                            assert(0 <= k < j + 1 && base[i2].src == p@[k] && base[i2].dst == p@[k
                                + 1]);
                        }
                    }
                }
            }
        }
        j = j + 1;
    }
}

/// The demand matrix, in any order, repeats no ordered pair: one entry
/// per pair of distinct nodes.
proof fn lemma_demands_simple(sd: Seq<Edge>, les: Seq<Edge>, n: int)
    requires
        sd.to_multiset() == les.to_multiset(),
        complete_demands(les, n),
        2 <= n,
    ensures
        simple(sd),
{
    broadcast use vstd::seq_lib::group_to_multiset_ensures;

    assert forall|k: int| 0 <= k < sd.len() implies (#[trigger] sd[k]).src != sd[k].dst by {
        assert(sd.contains(sd[k]));
        assert(les.to_multiset().count(sd[k]) > 0);
        assert(les.contains(sd[k]));
        let j = choose|j: int| 0 <= j < les.len() && les[j] == sd[k];
        crate::demand::lemma_pair_at(n, j);
    }
    assert forall|k: int, l: int| 0 <= k < l < sd.len() implies !((#[trigger] sd[k]).src == (
    #[trigger] sd[l]).src && sd[k].dst == sd[l].dst) by {
        if sd[k].src == sd[l].src && sd[k].dst == sd[l].dst {
            // A pair determines its position in the complete matrix, so
            // the two entries are the same value...
            assert(sd.contains(sd[k]) && sd.contains(sd[l]));
            assert(les.to_multiset().count(sd[k]) > 0 && les.to_multiset().count(sd[l]) > 0);
            assert(les.contains(sd[k]) && les.contains(sd[l]));
            let jk = choose|j: int| 0 <= j < les.len() && les[j] == sd[k];
            let jl = choose|j: int| 0 <= j < les.len() && les[j] == sd[l];
            crate::demand::lemma_pair_at(n, jk);
            crate::demand::lemma_pair_at(n, jl);
            assert(jk == jl);
            assert(sd[k] == sd[l]);
            // ... which then sits twice in the demand list, though the
            // complete matrix holds every pair exactly once.
            assert(sd.remove(k).to_multiset() == sd.to_multiset().remove(sd[k]));
            assert(sd.remove(k)[l - 1] == sd[l]);
            assert(sd.remove(k).contains(sd[l]));
            assert(sd.remove(k).to_multiset().count(sd[l]) > 0);
            assert(les.to_multiset().count(sd[k]) >= 2);
            assert(les.remove(jk).to_multiset() == les.to_multiset().remove(les[jk]));
            assert(les.remove(jk).to_multiset().count(sd[k]) > 0);
            assert(les.remove(jk).contains(sd[k]));
            let j2 = choose|j: int| 0 <= j < les.remove(jk).len() && les.remove(jk)[j] == sd[k];
            let j3 = if j2 < jk {
                j2
            } else {
                j2 + 1
            };
            assert(les[j3] == sd[k] && j3 != jk);
            crate::demand::lemma_pair_at(n, j3);
            assert(false);
        }
    }
}

/// Every ordered pair of distinct nodes has exactly one demand in the
/// (reordered) matrix, carrying the matrix's value for that pair.
proof fn lemma_pair_load_matches(sd: Seq<Edge>, les: Seq<Edge>, n: int, s: int, t: int)
    requires
        sd.to_multiset() == les.to_multiset(),
        complete_demands(les, n),
        2 <= n,
        0 <= s < n,
        0 <= t < n,
        s != t,
    ensures
        has_pair(sd, s, t),
        crate::refine::pair_load(sd, s, t) == crate::builder::demand_at(les, n, s, t),
{
    broadcast use vstd::seq_lib::group_to_multiset_ensures;

    crate::demand::lemma_demand_index(n, s, t);
    let j = crate::demand::demand_index(n, s, t);
    assert(les.contains(les[j]));
    assert(sd.to_multiset().count(les[j]) > 0);
    assert(sd.contains(les[j]));
    let k = choose|k: int| 0 <= k < sd.len() && sd[k] == les[j];
    assert(has_pair(sd, s, t)) by {
        assert(sd[k].src == s && sd[k].dst == t);
    }
    lemma_demands_simple(sd, les, n);
    crate::refine::lemma_pair_load_unique(sd, k);
}

/// Loads every directly linked demand onto its link, in processing order.
fn assign_direct(phys: &mut Graph, sd: &Vec<Edge>)
    requires
        old(phys).wf(),
        simple(old(phys).edges@),
        simple(sd@),
        zero_weights(old(phys).edges@),
        forall|k: int| 0 <= k < sd@.len() ==> (#[trigger] sd@[k]).weight <= u32::MAX,
        sd@.len() <= 0x100000,
    ensures
        final (phys).n == old(phys).n,
        final (phys).wf(),
        same_pairs(old(phys).edges@, final (phys).edges@),
        total_load(final (phys).edges@) <= sd@.len() * (u32::MAX as int),
        forall|v: int|
            net_flow(final (phys).edges@, v) == net_flow(
                keep_direct(sd@, old(phys).edges@),
                v,
            ),
        forall|i: int|
            0 <= i < old(phys).edges@.len() ==> (#[trigger] final (phys).edges@[i]).weight as int
                == (if has_pair(
                sd@,
                old(phys).edges@[i].src as int,
                old(phys).edges@[i].dst as int,
            ) {
                crate::refine::pair_load(
                    sd@,
                    old(phys).edges@[i].src as int,
                    old(phys).edges@[i].dst as int,
                )
            } else {
                0int
            }),
{
    let ghost base = old(phys).edges@;
    proof {
        assert forall|v: int| net_flow(base, v) == 0 by {
            crate::graph::lemma_zero_weights(base, v);
        }
        crate::graph::lemma_zero_weights(base, 0);
        assert(sd@.take(0) =~= Seq::<Edge>::empty());
    }
    let mut k: usize = 0;
    while k < sd.len()
        invariant
            phys.wf(),
            phys.n == old(phys).n,
            k <= sd@.len(),
            sd@.len() <= 0x100000,
            forall|kk: int| 0 <= kk < sd@.len() ==> (#[trigger] sd@[kk]).weight <= u32::MAX,
            same_pairs(base, phys.edges@),
            total_load(phys.edges@) <= k * (u32::MAX as int),
            forall|v: int| net_flow(phys.edges@, v) == net_flow(keep_direct(sd@.take(k as int), base), v),
            simple(phys.edges@),
            simple(sd@),
            zero_weights(base),
            forall|i: int|
                0 <= i < base.len() ==> (#[trigger] phys.edges@[i]).weight as int == (if has_pair(
                    sd@.take(k as int),
                    base[i].src as int,
                    base[i].dst as int,
                ) {
                    crate::refine::pair_load(sd@, base[i].src as int, base[i].dst as int)
                } else {
                    0int
                }),
        decreases sd@.len() - k,
    {
        let e = sd[k];
        let ghost prefix = sd@.take(k as int);
        proof {
            assert(sd@.take(k + 1) =~= prefix.push(e));
            assert(prefix.push(e).drop_last() =~= prefix);
            lemma_same_pairs_has_pair(base, phys.edges@, e.src as int, e.dst as int);
            assert(k * (u32::MAX as int) + (u32::MAX as int) == (k + 1) * (u32::MAX as int)
                && (k + 1) * (u32::MAX as int) <= sd@.len() * (u32::MAX as int)
                && sd@.len() * (u32::MAX as int) <= 0x100000 * (u32::MAX as int)) by (nonlinear_arith)
                requires
                    0 <= k,
                    k + 1 <= sd@.len() <= 0x100000,
            ;
        }
        if phys.contains_edge(e.src, e.dst) {
            let i = phys.find_edge(e.src, e.dst).unwrap();
            let w = phys.weight_at(i);
            proof {
                lemma_weight_le_total(phys.edges@, i as int);
            }
            let ghost pre = phys.edges@;
            phys.set_weight(i, w + e.weight);
            proof {
                assert forall|v: int|
                    net_flow(phys.edges@, v) == net_flow(pre, v) + edge_net(e, v) by {
                    lemma_add_load(pre, i as int, e.weight as int, v);
                }
                assert forall|v: int|
                    net_flow(phys.edges@, v) == net_flow(keep_direct(sd@.take(k + 1), base), v) by {
                    lemma_push(keep_direct(prefix, base), e, v);
                }
                lemma_add_load(pre, i as int, e.weight as int, 0);
                // Per-link accounting: the unique link of this demand's
                // pair receives exactly this demand, once.
                assert(base[i as int].src == e.src && base[i as int].dst == e.dst);
                crate::refine::lemma_pair_load_unique(sd@, k as int);
                assert forall|i2: int|
                    0 <= i2 < base.len() implies (#[trigger] phys.edges@[i2]).weight as int == (
                if has_pair(sd@.take(k + 1), base[i2].src as int, base[i2].dst as int) {
                    crate::refine::pair_load(sd@, base[i2].src as int, base[i2].dst as int)
                } else {
                    0int
                }) by {
                    if i2 == i as int {
                        assert(!has_pair(prefix, base[i2].src as int, base[i2].dst as int)) by {
                            if has_pair(prefix, base[i2].src as int, base[i2].dst as int) {
                                let k2 = choose|k2: int|
                                    0 <= k2 < prefix.len() && (#[trigger] prefix[k2]).src == base[
                                        i2].src && prefix[k2].dst == base[i2].dst;
                                assert(sd@[k2].src == sd@[k as int].src && sd@[k2].dst == sd@[
                                    k as int].dst);
                            }
                        }
                        assert(has_pair(sd@.take(k + 1), base[i2].src as int, base[
                            i2].dst as int)) by {
                            assert(sd@.take(k + 1)[k as int].src == base[i2].src && sd@.take(
                                k + 1,
                            )[k as int].dst == base[i2].dst);
                        }
                    } else {
                        assert(phys.edges@[i2].weight == pre[i2].weight);
                        assert(has_pair(sd@.take(k + 1), base[i2].src as int, base[i2].dst as int)
                            == has_pair(prefix, base[i2].src as int, base[i2].dst as int)) by {
                            if has_pair(sd@.take(k + 1), base[i2].src as int, base[i2].dst as int)
                                && !has_pair(prefix, base[i2].src as int, base[i2].dst as int) {
                                let k2 = choose|k2: int|
                                    0 <= k2 < k + 1 && (#[trigger] sd@.take(k + 1)[k2]).src
                                        == base[i2].src && sd@.take(k + 1)[k2].dst == base[
                                        i2].dst;
                                assert(k2 == k as int);
                                assert(base[i2].src == base[i as int].src && base[i2].dst == base[
                                    i as int].dst);
                                assert(false);
                            }
                            if has_pair(prefix, base[i2].src as int, base[i2].dst as int) {
                                let k2 = choose|k2: int|
                                    0 <= k2 < prefix.len() && (#[trigger] prefix[k2]).src == base[
                                        i2].src && prefix[k2].dst == base[i2].dst;
                                assert(sd@.take(k + 1)[k2].src == base[i2].src && sd@.take(
                                    k + 1,
                                )[k2].dst == base[i2].dst);
                            }
                        }
                    }
                }
            }
        } else {
            proof {
                // No link of this demand's pair exists, so no link's
                // accounting changes.
                assert forall|i2: int|
                    0 <= i2 < base.len() implies has_pair(
                    sd@.take(k + 1),
                    base[i2].src as int,
                    base[i2].dst as int,
                ) == has_pair(prefix, base[i2].src as int, base[i2].dst as int) by {
                    if has_pair(sd@.take(k + 1), base[i2].src as int, base[i2].dst as int)
                        && !has_pair(prefix, base[i2].src as int, base[i2].dst as int) {
                        let k2 = choose|k2: int|
                            0 <= k2 < k + 1 && (#[trigger] sd@.take(k + 1)[k2]).src == base[
                                i2].src && sd@.take(k + 1)[k2].dst == base[i2].dst;
                        assert(k2 == k as int);
                        assert(has_pair(base, e.src as int, e.dst as int)) by {
                            assert(base[i2].src == e.src && base[i2].dst == e.dst);
                        }
                        assert(false);
                    }
                    if has_pair(prefix, base[i2].src as int, base[i2].dst as int) {
                        let k2 = choose|k2: int|
                            0 <= k2 < prefix.len() && (#[trigger] prefix[k2]).src == base[i2].src
                                && prefix[k2].dst == base[i2].dst;
                        assert(sd@.take(k + 1)[k2].src == base[i2].src && sd@.take(k + 1)[k2].dst
                            == base[i2].dst);
                    }
                }
            }
        }
        k = k + 1;
    }
    proof {
        assert(sd@.take(sd@.len() as int) =~= sd@);
    }
}

/// Routes every demand without a direct link along a minimum-load path,
/// heaviest first, accumulating load on every link of the path. Fails
/// with `NoPathFound` exactly when some such demand has no path at all.
fn route_rest(phys: &mut Graph, sd: &Vec<Edge>) -> (res: Result<(), Error>)
    requires
        old(phys).wf(),
        simple(old(phys).edges@),
        old(phys).n <= 1024,
        forall|k: int|
            0 <= k < sd@.len() ==> (#[trigger] sd@[k]).weight <= u32::MAX && sd@[k].src < old(
                phys,
            ).n && sd@[k].dst < old(phys).n,
        sd@.len() <= 0x100000,
        total_load(old(phys).edges@) <= sd@.len() * (u32::MAX as int),
    ensures
        final (phys).n == old(phys).n,
        final (phys).wf(),
        same_pairs(old(phys).edges@, final (phys).edges@),
        forall|i: int|
            0 <= i < old(phys).edges@.len() ==> old(phys).edges@[i].weight <= (#[trigger] final (
            phys).edges@[i]).weight,
        match res {
            Ok(()) => (forall|v: int|
                net_flow(final (phys).edges@, v) == net_flow(old(phys).edges@, v) + net_flow(
                    drop_direct(sd@, old(phys).edges@),
                    v,
                )),
            Err(e) => e == Error::NoPathFound,
        },
        res is Ok <==> (forall|k: int|
            0 <= k < sd@.len() ==> has_pair(
                old(phys).edges@,
                (#[trigger] sd@[k]).src as int,
                sd@[k].dst as int,
            ) || reachable(
                old(phys).edges@,
                None,
                sd@[k].src as int,
                sd@[k].dst as int,
            )),
{
    let ghost base = old(phys).edges@;
    proof {
        assert(sd@.take(0) =~= Seq::<Edge>::empty());
    }
    let mut k: usize = 0;
    while k < sd.len()
        invariant
            phys.wf(),
            phys.n == old(phys).n,
            phys.n <= 1024,
            k <= sd@.len(),
            sd@.len() <= 0x100000,
            forall|kk: int|
                0 <= kk < sd@.len() ==> (#[trigger] sd@[kk]).weight <= u32::MAX && sd@[kk].src
                    < phys.n && sd@[kk].dst < phys.n,
            same_pairs(base, phys.edges@),
            simple(phys.edges@),
            forall|i: int|
                0 <= i < base.len() ==> base[i].weight <= (#[trigger] phys.edges@[i]).weight,
            total_load(base) <= sd@.len() * (u32::MAX as int),
            total_load(phys.edges@) <= total_load(base) + k * ((phys.n as int) * (
            u32::MAX as int)),
            forall|v: int|
                net_flow(phys.edges@, v) == net_flow(base, v) + net_flow(
                    drop_direct(sd@.take(k as int), base),
                    v,
                ),
            forall|kk: int|
                0 <= kk < k ==> has_pair(base, (#[trigger] sd@[kk]).src as int, sd@[kk].dst as int)
                    || reachable(base, None, sd@[kk].src as int, sd@[kk].dst as int),
        decreases sd@.len() - k,
    {
        let e = sd[k];
        let ghost prefix = sd@.take(k as int);
        proof {
            assert(sd@.take(k + 1) =~= prefix.push(e));
            assert(prefix.push(e).drop_last() =~= prefix);
            lemma_same_pairs_has_pair(base, phys.edges@, e.src as int, e.dst as int);
        }
        if !phys.contains_edge(e.src, e.dst) {
            match shortest_path(phys, e.src, e.dst, None) {
                None => {
                    proof {
                        lemma_same_pairs_reachable(
                            base,
                            phys.edges@,
                            None,
                            e.src as int,
                            e.dst as int,
                        );
                        assert(!has_pair(base, sd@[k as int].src as int, sd@[k as int].dst as int)
                            && !reachable(
                            base,
                            None,
                            sd@[k as int].src as int,
                            sd@[k as int].dst as int,
                        ));
                    }
                    return Err(Error::NoPathFound);
                },
                Some(p) => {
                    proof {
                        lemma_total_nonneg(phys.edges@);
                        assert(total_load(phys.edges@) + (p@.len() - 1) * (e.weight as int)
                            <= u64::MAX as int) by (nonlinear_arith)
                            requires
                                total_load(phys.edges@) <= total_load(base) + k * ((
                                phys.n as int) * (u32::MAX as int)),
                                total_load(base) <= sd@.len() * (u32::MAX as int),
                                sd@.len() <= 0x100000,
                                0 <= k < sd@.len(),
                                p@.len() <= phys.n,
                                1 <= p@.len(),
                                phys.n <= 1024,
                                0 <= e.weight as int <= u32::MAX as int,
                                0 <= total_load(phys.edges@),
                        ;
                    }
                    let ghost pre = phys.edges@;
                    add_along_path(phys, &p, e.weight);
                    proof {
                        lemma_same_pairs_simple(pre, phys.edges@);
                        assert forall|i: int| 0 <= i < base.len() implies base[i].weight <= (
                        #[trigger] phys.edges@[i]).weight by {
                            if on_path(pre, p@, i) {
                                assert(phys.edges@[i].weight == pre[i].weight + e.weight);
                            } else {
                                assert(phys.edges@[i].weight == pre[i].weight);
                            }
                        }
                        lemma_upath_reachable(pre, None, p@);
                        lemma_same_pairs_reachable(base, pre, None, e.src as int, e.dst as int);
                        assert forall|v: int|
                            net_flow(phys.edges@, v) == net_flow(base, v) + net_flow(
                                drop_direct(sd@.take(k + 1), base),
                                v,
                            ) by {
                            lemma_push(drop_direct(prefix, base), e, v);
                            assert(net_flow(phys.edges@, v) == net_flow(pre, v) + edge_net(e, v));
                        }
                        assert(total_load(phys.edges@) <= total_load(base) + (k + 1) * ((
                        phys.n as int) * (u32::MAX as int))) by (nonlinear_arith)
                            requires
                                total_load(phys.edges@) == total_load(pre) + (p@.len() - 1) * (
                                e.weight as int),
                                total_load(pre) <= total_load(base) + k * ((phys.n as int) * (
                                u32::MAX as int)),
                                p@.len() <= phys.n,
                                1 <= p@.len(),
                                0 <= e.weight as int <= u32::MAX as int,
                                0 <= k,
                        ;
                    }
                },
            }
        } else {
            proof {
                assert(total_load(phys.edges@) <= total_load(base) + (k + 1) * ((phys.n as int) * (
                u32::MAX as int))) by (nonlinear_arith)
                    requires
                        total_load(phys.edges@) <= total_load(base) + k * ((phys.n as int) * (
                        u32::MAX as int)),
                        0 <= k,
                        0 <= phys.n,
                ;
            }
        }
        k = k + 1;
    }
    proof {
        assert(sd@.take(sd@.len() as int) =~= sd@);
    }
    Ok(())
}

/// Embeds the whole demand matrix onto the physical graph: direct demands
/// load their links, the rest are routed heaviest-first along minimum-load
/// paths. On success the graph satisfies exact flow conservation against
/// the demand matrix; it fails (with `NoPathFound`, leaving partial
/// loads) exactly when some demand has neither a direct link nor a path.
pub fn embed_demands(phys: &mut Graph, logical: &Graph) -> (res: Result<(), Error>)
    requires
        old(phys).wf(),
        simple(old(phys).edges@),
        logical.wf(),
        old(phys).n == logical.n,
        complete_demands(logical.edges@, logical.n as int),
        zero_weights(old(phys).edges@),
        2 <= logical.n <= 1024,
    ensures
        final (phys).n == old(phys).n,
        final (phys).wf(),
        same_pairs(old(phys).edges@, final (phys).edges@),
        forall|i: int|
            0 <= i < old(phys).edges@.len() ==> crate::builder::demand_at(
                logical.edges@,
                logical.n as int,
                old(phys).edges@[i].src as int,
                old(phys).edges@[i].dst as int,
            ) <= (#[trigger] final (phys).edges@[i]).weight as int,
        match res {
            Ok(()) => balanced(final (phys).edges@, logical.edges@, logical.n as int),
            Err(e) => e == Error::NoPathFound,
        },
        res is Ok <==> (forall|k: int|
            0 <= k < logical.edges@.len() ==> has_pair(
                old(phys).edges@,
                (#[trigger] logical.edges@[k]).src as int,
                logical.edges@[k].dst as int,
            ) || reachable(
                old(phys).edges@,
                None,
                logical.edges@[k].src as int,
                logical.edges@[k].dst as int,
            )),
{
    broadcast use vstd::seq_lib::group_to_multiset_ensures;

    let ghost base = old(phys).edges@;
    let ghost les = logical.edges@;
    let ghost ni = logical.n as int;
    let all = crate::builder::copy_edges(logical);
    let sd = crate::builder::sort_by_demand(all);
    proof {
        assert(sd@.len() == les.len());
        assert(les.len() <= 0x100000) by (nonlinear_arith)
            requires
                les.len() == ni * (ni - 1),
                2 <= ni <= 1024,
        ;
        assert forall|k: int|
            0 <= k < sd@.len() implies (#[trigger] sd@[k]).weight <= u32::MAX && sd@[k].src
            < logical.n && sd@[k].dst < logical.n && sd@[k].src != sd@[k].dst by {
            assert(sd@.to_multiset().count(sd@[k]) > 0);
            assert(les.contains(sd@[k]));
            let j = choose|j: int| 0 <= j < les.len() && les[j] == sd@[k];
            crate::demand::lemma_pair_at(ni, j);
        }
    }
    proof {
        lemma_demands_simple(sd@, les, ni);
    }
    assign_direct(phys, &sd);
    proof {
        lemma_same_pairs_simple(base, phys.edges@);
    }
    let ghost mid = phys.edges@;
    proof {
        // After the direct pass, every link carries exactly its pair's
        // demand (every physical pair is a demand, since the matrix is
        // complete); the routing pass only adds load.
        assert forall|i: int|
            0 <= i < base.len() implies crate::builder::demand_at(
            les,
            ni,
            base[i].src as int,
            base[i].dst as int,
        ) <= (#[trigger] mid[i]).weight as int by {
            lemma_pair_load_matches(sd@, les, ni, base[i].src as int, base[i].dst as int);
        }
    }
    let r = route_rest(phys, &sd);
    proof {
        assert forall|i: int|
            0 <= i < base.len() implies crate::builder::demand_at(
            les,
            ni,
            base[i].src as int,
            base[i].dst as int,
        ) <= (#[trigger] phys.edges@[i]).weight as int by {
            assert(mid[i].weight <= phys.edges@[i].weight);
        }
        lemma_filters_same_pairs(sd@, base, mid);
        if r is Ok {
            lemma_split_multiset(sd@, base);
            assert((keep_direct(sd@, base) + drop_direct(sd@, base)).to_multiset()
                == sd@.to_multiset()) by {
                vstd::seq_lib::lemma_multiset_commutative(
                    keep_direct(sd@, base),
                    drop_direct(sd@, base),
                );
            }
            assert forall|v: int| net_flow(phys.edges@, v) == net_flow(les, v) by {
                lemma_net_concat(keep_direct(sd@, base), drop_direct(sd@, base), v);
                lemma_net_multiset(keep_direct(sd@, base) + drop_direct(sd@, base), sd@, v);
                lemma_net_multiset(sd@, les, v);
            }
            assert(balanced(phys.edges@, les, ni)) by {
                assert forall|v: int|
                    0 <= v < ni implies in_sum(phys.edges@, v) + out_sum(les, v) == out_sum(
                    phys.edges@,
                    v,
                ) + in_sum(les, v) by {
                    lemma_net_is_out_minus_in(phys.edges@, v);
                    lemma_net_is_out_minus_in(les, v);
                }
            }
        }
        // Routability was decided against the graph after direct
        // assignment, whose endpoint pairs are those of the input graph.
        assert forall|k: int| 0 <= k < sd@.len() implies (has_pair(
            mid,
            (#[trigger] sd@[k]).src as int,
            sd@[k].dst as int,
        ) || reachable(mid, None, sd@[k].src as int, sd@[k].dst as int)) == (has_pair(
            base,
            sd@[k].src as int,
            sd@[k].dst as int,
        ) || reachable(base, None, sd@[k].src as int, sd@[k].dst as int)) by {
            lemma_same_pairs_has_pair(base, mid, sd@[k].src as int, sd@[k].dst as int);
            lemma_same_pairs_reachable(base, mid, None, sd@[k].src as int, sd@[k].dst as int);
        }
        // Translate the routability condition between the sorted list and
        // the demand list: they hold the same demands.
        if forall|k: int|
            0 <= k < sd@.len() ==> has_pair(base, (#[trigger] sd@[k]).src as int, sd@[k].dst as int)
                || reachable(base, None, sd@[k].src as int, sd@[k].dst as int) {
            assert forall|k: int|
                0 <= k < les.len() implies has_pair(
                base,
                (#[trigger] les[k]).src as int,
                les[k].dst as int,
            ) || reachable(base, None, les[k].src as int, les[k].dst as int) by {
                assert(les.contains(les[k]));
                assert(sd@.to_multiset().count(les[k]) > 0);
                assert(sd@.contains(les[k]));
                let j = choose|j: int| 0 <= j < sd@.len() && sd@[j] == les[k];
                assert(has_pair(base, sd@[j].src as int, sd@[j].dst as int) || reachable(
                    base,
                    None,
                    sd@[j].src as int,
                    sd@[j].dst as int,
                ));
            }
        } else {
            let k = choose|k: int|
                0 <= k < sd@.len() && !(has_pair(
                    base,
                    (#[trigger] sd@[k]).src as int,
                    sd@[k].dst as int,
                ) || reachable(base, None, sd@[k].src as int, sd@[k].dst as int));
            assert(sd@.contains(sd@[k]));
            assert(les.to_multiset().count(sd@[k]) > 0);
            assert(les.contains(sd@[k]));
            let j = choose|j: int| 0 <= j < les.len() && les[j] == sd@[k];
            assert(!(has_pair(base, (#[trigger] les[j]).src as int, les[j].dst as int)
                || reachable(base, None, les[j].src as int, les[j].dst as int)));
        }
    }
    r
}

/// Sums of loads leaving and entering `v`, exactly.
fn dir_sums(g: &Graph, v: usize) -> (r: (u128, u128))
    ensures
        r.0 as int == out_sum(g.edges@, v as int),
        r.1 as int == in_sum(g.edges@, v as int),
        r.0 as int <= g.edges@.len() * (u64::MAX as int),
        r.1 as int <= g.edges@.len() * (u64::MAX as int),
        g.edges@.len() <= usize::MAX,
{
    let ghost total = g.edges.len();
    let mut so: u128 = 0;
    let mut si: u128 = 0;
    let mut i: usize = 0;
    while i < g.edges.len()
        invariant
            i <= g.edges@.len(),
            so as int == out_sum(g.edges@.take(i as int), v as int),
            si as int == in_sum(g.edges@.take(i as int), v as int),
            so as int <= i * (u64::MAX as int),
            si as int <= i * (u64::MAX as int),
        decreases g.edges@.len() - i,
    {
        let e = g.edges[i];
        proof {
            assert(g.edges@.take(i + 1) =~= g.edges@.take(i as int).push(g.edges@[i as int]));
            lemma_push(g.edges@.take(i as int), g.edges@[i as int], v as int);
            assert(i * (u64::MAX as int) + (u64::MAX as int) == (i + 1) * (
            u64::MAX as int)) by (nonlinear_arith);
            assert((i + 1) * (u64::MAX as int) < u128::MAX as int) by (nonlinear_arith)
                requires
                    i + 1 <= g.edges@.len(),
                    g.edges@.len() <= usize::MAX as int,
                    usize::MAX as int <= u64::MAX as int,
            ;
        }
        if e.src == v {
            so = so + (e.weight as u128);
        }
        if e.dst == v {
            si = si + (e.weight as u128);
        }
        i = i + 1;
    }
    proof {
        assert(g.edges@.take(g.edges@.len() as int) =~= g.edges@);
    }
    (so, si)
}

/// The conservation validator: checks, node by node, that physical
/// inflow plus logical outflow equals physical outflow plus logical
/// inflow, exactly.
pub fn validate_conservation(phys: &Graph, logical: &Graph) -> (b: bool)
    requires
        phys.n == logical.n,
        phys.edges@.len() + logical.edges@.len() <= u64::MAX,
    ensures
        b == balanced(phys.edges@, logical.edges@, phys.n as int),
{
    let mut v: usize = 0;
    while v < phys.n
        invariant
            phys.n == logical.n,
            v <= phys.n,
            forall|x: int|
                0 <= x < v ==> in_sum(phys.edges@, x) + out_sum(logical.edges@, x) == out_sum(
                    phys.edges@,
                    x,
                ) + in_sum(logical.edges@, x),
        decreases phys.n - v,
    {
        let pp = dir_sums(phys, v);
        let ll = dir_sums(logical, v);
        proof {
            assert(phys.edges@.len() * (u64::MAX as int) + logical.edges@.len() * (
            u64::MAX as int) < u128::MAX as int) by (nonlinear_arith)
                requires
                    phys.edges@.len() + logical.edges@.len() <= u64::MAX as int,
                    0 <= phys.edges@.len(),
                    0 <= logical.edges@.len(),
            ;
        }
        if pp.1 + ll.0 != pp.0 + ll.1 {
            return false;
        }
        v = v + 1;
    }
    true
}

} // verus!
