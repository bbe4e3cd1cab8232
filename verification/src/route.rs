//! Load-aware shortest-path search over the physical graph: a uniform-
//! cost best-first search (edge costs are current loads, never negative).
//!
//! The search can be told to avoid one edge handle, which the refiner
//! uses to look for an alternate path around the hottest link. Success is
//! exact: a path comes back if and only if the target is reachable.
use vstd::prelude::*;

use crate::builder::{
    count_false, falses, lemma_count_false_clear, lemma_count_false_pos, lemma_count_false_update,
};
use crate::graph::{Edge, Graph};
use vstd::set_lib::lemma_len_subset;

verus! {

/// Whether edge handle `i` may be used (everything but the avoided one).
pub open spec fn edge_ok(avoid: Option<int>, i: int) -> bool {
    match avoid {
        None => true,
        Some(j) => i != j,
    }
}

/// Some usable edge joins `a` to `b`.
pub open spec fn linked(es: Seq<Edge>, avoid: Option<int>, a: int, b: int) -> bool {
    exists|i: int|
        0 <= i < es.len() && edge_ok(avoid, i) && (#[trigger] es[i]).src == a && es[i].dst == b
}

/// `p` walks along usable edges.
pub open spec fn is_path(es: Seq<Edge>, avoid: Option<int>, p: Seq<int>) -> bool {
    &&& p.len() >= 1
    &&& forall|k: int| 0 <= k < p.len() - 1 ==> linked(es, avoid, #[trigger] p[k], p[k + 1])
}

/// The same for a concrete node vector.
pub open spec fn is_upath(es: Seq<Edge>, avoid: Option<int>, p: Seq<usize>) -> bool {
    &&& p.len() >= 1
    &&& forall|k: int|
        0 <= k < p.len() - 1 ==> linked(es, avoid, #[trigger] p[k] as int, p[k + 1] as int)
}

/// Some path along usable edges leads from `s` to `t`.
pub open spec fn reachable(es: Seq<Edge>, avoid: Option<int>, s: int, t: int) -> bool {
    exists|p: Seq<int>| is_path(es, avoid, p) && p[0] == s && p[p.len() - 1] == t
}

/// The avoided handle as a spec value.
pub open spec fn avoid_view(a: Option<usize>) -> Option<int> {
    match a {
        None => None,
        Some(i) => Some(i as int),
    }
}

/// A set of nodes that contains the start of a path and is closed under
/// usable edges contains the path's end.
pub proof fn lemma_closed_reaches(es: Seq<Edge>, avoid: Option<int>, rs: Seq<bool>, p: Seq<int>)
    requires
        is_path(es, avoid, p),
        0 <= p[0] < rs.len(),
        rs[p[0]],
        forall|i: int|
            0 <= i < es.len() ==> 0 <= (#[trigger] es[i]).src < rs.len() && 0 <= es[i].dst
                < rs.len(),
        forall|i: int|
            0 <= i < es.len() && edge_ok(avoid, i) && rs[(#[trigger] es[i]).src as int] ==> rs[es[i].dst as int],
    ensures
        0 <= p[p.len() - 1] < rs.len(),
        rs[p[p.len() - 1]],
    decreases p.len(),
{
    if p.len() > 1 {
        assert(linked(es, avoid, p[0], p[1]));
        let i = choose|i: int|
            0 <= i < es.len() && edge_ok(avoid, i) && (#[trigger] es[i]).src == p[0] && es[i].dst
                == p[1];
        let q = p.subrange(1, p.len() as int);
        assert(is_path(es, avoid, q)) by {
            assert forall|k: int| 0 <= k < q.len() - 1 implies linked(
                es,
                avoid,
                #[trigger] q[k],
                q[k + 1],
            ) by {
                assert(q[k] == p[k + 1] && q[k + 1] == p[k + 2]);
            }
        }
        lemma_closed_reaches(es, avoid, rs, q);
        assert(p[p.len() - 1] == q[q.len() - 1]);
    }
}

/// Every node reaches itself.
pub proof fn lemma_reachable_refl(es: Seq<Edge>, av: Option<int>, s: int)
    ensures
        reachable(es, av, s, s),
{
    let p = seq![s];
    assert(is_path(es, av, p));
    assert(p[0] == s && p[p.len() - 1] == s);
}

/// A usable link extends reachability by one hop.
pub proof fn lemma_reachable_extend(es: Seq<Edge>, av: Option<int>, s: int, a: int, b: int)
    requires
        reachable(es, av, s, a),
        linked(es, av, a, b),
    ensures
        reachable(es, av, s, b),
{
    let p = choose|p: Seq<int>| is_path(es, av, p) && p[0] == s && p[p.len() - 1] == a;
    let p2 = p.push(b);
    assert(is_path(es, av, p2)) by {
        assert forall|k: int| 0 <= k < p2.len() - 1 implies linked(
            es,
            av,
            #[trigger] p2[k],
            p2[k + 1],
        ) by {
            if k < p.len() - 1 {
                assert(p2[k] == p[k] && p2[k + 1] == p[k + 1]);
            } else {
                assert(p2[k] == a && p2[k + 1] == b);
            }
        }
    }
    assert(p2[0] == s && p2[p2.len() - 1] == b);
}

/// Reachability chains across an intermediate node.
pub proof fn lemma_reachable_trans(es: Seq<Edge>, av: Option<int>, a: int, b: int, d: int)
    requires
        reachable(es, av, a, b),
        reachable(es, av, b, d),
    ensures
        reachable(es, av, a, d),
{
    let p2 = choose|p: Seq<int>| is_path(es, av, p) && p[0] == b && p[p.len() - 1] == d;
    if p2.len() == 1 {
        assert(b == d);
    } else {
        let p1 = choose|p: Seq<int>| is_path(es, av, p) && p[0] == a && p[p.len() - 1] == b;
        let q = p1 + p2.subrange(1, p2.len() as int);
        assert(is_path(es, av, q)) by {
            assert forall|k: int| 0 <= k < q.len() - 1 implies linked(
                es,
                av,
                #[trigger] q[k],
                q[k + 1],
            ) by {
                if k < p1.len() - 1 {
                    assert(q[k] == p1[k] && q[k + 1] == p1[k + 1]);
                } else if k == p1.len() - 1 {
                    assert(q[k] == b && q[k + 1] == p2[1]);
                    assert(linked(es, av, p2[0], p2[1]));
                } else {
                    assert(q[k] == p2[k - p1.len() + 1] && q[k + 1] == p2[k - p1.len() + 2]);
                }
            }
        }
        assert(q[0] == a && q[q.len() - 1] == p2[p2.len() - 1]);
    }
}

/// A duplicate-free sequence of values below `n` has at most `n` entries.
pub proof fn lemma_distinct_bounded(p: Seq<int>, n: int)
    requires
        0 <= n,
        p.no_duplicates(),
        forall|k: int| 0 <= k < p.len() ==> 0 <= #[trigger] p[k] < n,
    ensures
        p.len() <= n,
{
    p.unique_seq_to_set();
    let range = vstd::set_lib::set_int_range(0, n);
    vstd::set_lib::lemma_int_range(0, n);
    assert(p.to_set().subset_of(range)) by {
        assert forall|x: int| p.to_set().contains(x) implies range.contains(x) by {
            assert(p.contains(x));
            let k = choose|k: int| 0 <= k < p.len() && p[k] == x;
            assert(0 <= p[k] < n);
        }
    }
    lemma_len_subset(p.to_set(), range);
}

/// The node indices of a path vector.
pub open spec fn to_ints(p: Seq<usize>) -> Seq<int> {
    p.map_values(|x: usize| x as int)
}

/// What the search records about a node it has reached: the stored path
/// starts at the source, ends at the node, walks usable edges, repeats no
/// node, runs through settled nodes, and its cost bounds the distance.
spec fn path_inv(
    es: Seq<Edge>,
    avoid: Option<int>,
    n: int,
    s: int,
    visited: Seq<bool>,
    pv: Seq<usize>,
    v: int,
    d: int,
) -> bool {
    &&& pv.len() >= 1
    &&& pv[0] as int == s
    &&& pv[pv.len() - 1] as int == v
    &&& forall|k: int| 0 <= k < pv.len() ==> (#[trigger] pv[k]) < n
    &&& pv.no_duplicates()
    &&& is_upath(es, avoid, pv)
    &&& forall|k: int| 0 <= k < pv.len() - 1 ==> visited[#[trigger] pv[k] as int]
    &&& d <= (pv.len() - 1) * (u64::MAX as int)
}

/// A fresh empty path table.
fn empty_paths(n: usize) -> (v: Vec<Vec<usize>>)
    ensures
        v@.len() == n,
{
    let mut v: Vec<Vec<usize>> = Vec::new();
    let mut i: usize = 0;
    while i < n
        invariant
            i <= n,
            v@.len() == i,
        decreases n - i,
    {
        v.push(Vec::new());
        i = i + 1;
    }
    v
}

/// A fresh zeroed distance table.
fn zero_dists(n: usize) -> (v: Vec<u128>)
    ensures
        v@.len() == n,
        forall|k: int| 0 <= k < n ==> v@[k] == 0,
{
    let mut v: Vec<u128> = Vec::new();
    let mut i: usize = 0;
    while i < n
        invariant
            i <= n,
            v@.len() == i,
            forall|k: int| 0 <= k < i ==> v@[k] == 0,
        decreases n - i,
    {
        v.push(0);
        i = i + 1;
    }
    v
}

/// A copy of a stored path.
fn copy_path(p: &Vec<usize>) -> (v: Vec<usize>)
    ensures
        v@ == p@,
{
    let mut v: Vec<usize> = Vec::new();
    let mut i: usize = 0;
    while i < p.len()
        invariant
            i <= p@.len(),
            v@ == p@.take(i as int),
        decreases p@.len() - i,
    {
        v.push(p[i]);
        proof {
            assert(p@.take(i + 1) =~= p@.take(i as int).push(p@[i as int]));
        }
        i = i + 1;
    }
    proof {
        assert(p@.take(p@.len() as int) =~= p@);
    }
    v
}

/// Finds a path from `s` to `t` over the usable edges (all but `avoid`)
/// by a uniform-cost best-first search: nodes are settled in order of
/// least accumulated load, ties towards the lowest node index, so the
/// search walks a minimum-total-load path. The contract pins success
/// exactly — a path comes back if and only if `t` is reachable — and the
/// path's shape (it starts at `s`, ends at `t`, walks usable links and
/// repeats no node); it leaves the minimality of the chosen path
/// unstated.
pub fn shortest_path(g: &Graph, s: usize, t: usize, avoid: Option<usize>) -> (res: Option<
    Vec<usize>,
>)
    requires
        g.wf(),
        s < g.n,
        t < g.n,
    ensures
        match res {
            Some(p) => p@.len() >= 1 && p@[0] == s && p@[p@.len() - 1] == t && p@.len() <= g.n && (
            forall|k: int| 0 <= k < p@.len() ==> (#[trigger] p@[k]) < g.n) && is_upath(
                g.edges@,
                avoid_view(avoid),
                p@,
            ) && p@.no_duplicates(),
            None => !reachable(g.edges@, avoid_view(avoid), s as int, t as int),
        },
{
    let ghost es = g.edges@;
    let ghost av = avoid_view(avoid);
    let n = g.n;
    let mut reached = falses(n);
    let mut visited = falses(n);
    let mut dist = zero_dists(n);
    let mut paths = empty_paths(n);
    reached.set(s, true);
    let mut sp: Vec<usize> = Vec::new();
    sp.push(s);
    paths.set(s, sp);
    proof {
        lemma_count_false_clear(visited@);
    }
    let mut round: usize = 0;
    let mut done = false;
    while round < n && !done
        invariant
            g.wf(),
            es == g.edges@,
            n == g.n,
            s < n,
            t < n,
            round <= n,
            reached@.len() == n,
            visited@.len() == n,
            dist@.len() == n,
            paths@.len() == n,
            reached@[s as int],
            count_false(visited@) <= n - round,
            forall|v: int| 0 <= v < n && visited@[v] ==> reached@[v],
            forall|v: int|
                0 <= v < n && reached@[v] ==> path_inv(
                    es,
                    av,
                    n as int,
                    s as int,
                    visited@,
                    (#[trigger] paths@[v])@,
                    v,
                    dist@[v] as int,
                ),
            forall|i: int|
                0 <= i < es.len() && edge_ok(av, i) && visited@[(#[trigger] es[i]).src as int]
                    ==> reached@[es[i].dst as int],
            done ==> forall|v: int| 0 <= v < n && reached@[v] ==> visited@[v],
        decreases n - round, (if done {
            0int
        } else {
            1int
        }),
    {
        // Pick the unsettled reached node with the least distance (ties to
        // the lowest index).
        let mut u: usize = 0;
        let mut found = false;
        let mut w2: usize = 0;
        while w2 < n
            invariant
                n == g.n,
                reached@.len() == n,
                visited@.len() == n,
                dist@.len() == n,
                w2 <= n,
                found ==> u < n && reached@[u as int] && !visited@[u as int],
                !found ==> forall|x: int| 0 <= x < w2 ==> !(reached@[x] && !visited@[x]),
            decreases n - w2,
        {
            if reached[w2] && !visited[w2] && (!found || dist[w2] < dist[u]) {
                u = w2;
                found = true;
            }
            w2 = w2 + 1;
        }
        if !found {
            done = true;
        } else {
            let ghost pre_visited = visited@;
            visited.set(u, true);
            proof {
                lemma_count_false_update(pre_visited, u as int);
                assert forall|v: int| 0 <= v < n && reached@[v] implies path_inv(
                    es,
                    av,
                    n as int,
                    s as int,
                    visited@,
                    (#[trigger] paths@[v])@,
                    v,
                    dist@[v] as int,
                ) by {
                    assert(path_inv(
                        es,
                        av,
                        n as int,
                        s as int,
                        pre_visited,
                        paths@[v]@,
                        v,
                        dist@[v] as int,
                    ));
                }
            }
            // Settle `u`: every usable edge out of it reaches its head.
            let mut ei: usize = 0;
            while ei < g.edges.len()
                invariant
                    g.wf(),
                    es == g.edges@,
                    n == g.n,
                    s < n,
                    u < n,
                    visited@[u as int],
                    ei <= es.len(),
                    reached@.len() == n,
                    visited@.len() == n,
                    dist@.len() == n,
                    paths@.len() == n,
                    reached@[s as int],
                    reached@[u as int],
                    count_false(visited@) <= n - round - 1,
                    forall|v: int| 0 <= v < n && visited@[v] ==> reached@[v],
                    forall|v: int|
                        0 <= v < n && reached@[v] ==> path_inv(
                            es,
                            av,
                            n as int,
                            s as int,
                            visited@,
                            (#[trigger] paths@[v])@,
                            v,
                            dist@[v] as int,
                        ),
                    forall|i: int|
                        0 <= i < es.len() && edge_ok(av, i) && visited@[(
                        #[trigger] es[i]).src as int] && es[i].src != u ==> reached@[es[i].dst as int],
                    forall|i: int|
                        0 <= i < ei && edge_ok(av, i) && (#[trigger] es[i]).src == u
                            ==> reached@[es[i].dst as int],
                decreases es.len() - ei,
            {
                let e = g.edges[ei];
                let banned = match avoid {
                    Some(a) => ei == a,
                    None => false,
                };
                if !banned && e.src == u {
                    let v2 = e.dst;
                    proof {
                        assert(path_inv(
                            es,
                            av,
                            n as int,
                            s as int,
                            visited@,
                            paths@[u as int]@,
                            u as int,
                            dist@[u as int] as int,
                        ));
                        lemma_distinct_bounded(to_ints(paths@[u as int]@), n as int);
                        assert(to_ints(paths@[u as int]@).len() == paths@[u as int]@.len());
                        assert(dist@[u as int] + e.weight <= ((n as int) - 1) * (
                        u64::MAX as int) + (u64::MAX as int)) by {
                            assert(dist@[u as int] as int <= (paths@[u as int]@.len() - 1) * (
                            u64::MAX as int));
                            assert((paths@[u as int]@.len() - 1) * (u64::MAX as int) <= ((
                            n as int) - 1) * (u64::MAX as int)) by (nonlinear_arith)
                                requires
                                    paths@[u as int]@.len() <= n as int,
                            ;
                        }
                        assert(((n as int) - 1) * (u64::MAX as int) + (u64::MAX as int) < (
                        u128::MAX as int)) by (nonlinear_arith)
                            requires
                                n as int <= usize::MAX as int,
                                usize::MAX as int <= u64::MAX as int,
                        ;
                    }
                    let nd = dist[u] + (e.weight as u128);
                    let improves = if !reached[v2] {
                        true
                    } else {
                        !visited[v2] && nd < dist[v2]
                    };
                    if improves {
                        let mut np = copy_path(&paths[u]);
                        np.push(v2);
                        let ghost pre_reached = reached@;
                        reached.set(v2, true);
                        dist.set(v2, nd);
                        paths.set(v2, np);
                        proof {
                            let pu = paths@[u as int]@;
                            assert(paths@[v2 as int]@ == pu.push(v2));
                            assert(path_inv(
                                es,
                                av,
                                n as int,
                                s as int,
                                visited@,
                                paths@[v2 as int]@,
                                v2 as int,
                                nd as int,
                            )) by {
                                let pv = pu.push(v2);
                                assert(pv[pv.len() - 1] == v2);
                                assert(!visited@[v2 as int]);
                                assert(pv.no_duplicates()) by {
                                    assert forall|k: int, l: int|
                                        0 <= k < pv.len() && 0 <= l < pv.len() && k != l implies
                                        pv[k] != pv[l] by {
                                        if k < pv.len() - 1 && l < pv.len() - 1 {
                                            assert(pu[k] != pu[l]);
                                        } else if k == pv.len() - 1 && l < pv.len() - 1 {
                                            assert(visited@[pv[l] as int]);
                                        } else if l == pv.len() - 1 && k < pv.len() - 1 {
                                            assert(visited@[pv[k] as int]);
                                        }
                                    }
                                }
                                assert(is_upath(es, av, pv)) by {
                                    assert forall|k: int| 0 <= k < pv.len() - 1 implies linked(
                                        es,
                                        av,
                                        #[trigger] pv[k] as int,
                                        pv[k + 1] as int,
                                    ) by {
                                        if k < pv.len() - 2 {
                                            assert(pv[k] == pu[k] && pv[k + 1] == pu[k + 1]);
                                            assert(linked(es, av, pu[k] as int, pu[k + 1] as int));
                                        } else {
                                            assert(pv[k] == u && pv[k + 1] == v2);
                                            assert(0 <= ei < es.len() && edge_ok(av, ei as int)
                                                && es[ei as int].src == u && es[ei as int].dst
                                                == v2);
                                        }
                                    }
                                }
                                assert(nd as int <= (pv.len() - 1) * (u64::MAX as int)) by (nonlinear_arith)
                                    requires
                                        nd as int <= (pu.len() - 1) * (u64::MAX as int) + (
                                        u64::MAX as int),
                                        pv.len() == pu.len() + 1,
                                ;
                            }
                            assert forall|v: int| 0 <= v < n && reached@[v] implies path_inv(
                                es,
                                av,
                                n as int,
                                s as int,
                                visited@,
                                (#[trigger] paths@[v])@,
                                v,
                                dist@[v] as int,
                            ) by {
                                if v != v2 as int {
                                    assert(pre_reached[v]);
                                }
                            }
                        }
                    }
                }
                ei = ei + 1;
            }
            round = round + 1;
        }
    }
    proof {
        assert forall|v: int| 0 <= v < n && reached@[v] implies visited@[v] by {
            if !done {
                assert(count_false(visited@) <= 0);
                if !visited@[v] {
                    lemma_count_false_pos(visited@, v);
                }
            }
        }
    }
    if reached[t] {
        proof {
            assert(path_inv(
                es,
                av,
                n as int,
                s as int,
                visited@,
                paths@[t as int]@,
                t as int,
                dist@[t as int] as int,
            ));
            lemma_distinct_bounded(to_ints(paths@[t as int]@), n as int);
        }
        Some(copy_path(&paths[t]))
    } else {
        proof {
            assert(!reachable(es, av, s as int, t as int)) by {
                if reachable(es, av, s as int, t as int) {
                    let p = choose|p: Seq<int>|
                        is_path(es, av, p) && p[0] == s as int && p[p.len() - 1] == t as int;
                    lemma_closed_reaches(es, av, reached@, p);
                }
            }
        }
        None
    }
}

} // verus!
