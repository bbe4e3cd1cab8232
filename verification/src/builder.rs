//! Physical topology construction: start-node selection by greedy
//! nearest-neighbor cycle weight, and the opportunistic builder (a greedy
//! Hamiltonian cycle plus degree-bounded augmentation).
//!
//! The walk is pinned by spec functions (`best_next`, `greedy_order`,
//! `best_start`), so the physical cycle is a pure function of the demand
//! graph: ties are broken towards the lowest node index.
use vstd::prelude::*;

use crate::demand::{complete_demands, demand_index, lemma_demand_index, lemma_pair_at};
use crate::graph::{
    has_pair, in_degree, lemma_in_degree_none, lemma_out_degree_none, lemma_push, out_degree,
    simple, zero_weights, Edge, Graph,
};
use crate::route::{is_path, linked, reachable};
use vstd::multiset::Multiset;
use vstd::relations::{sorted_by, total_ordering};

verus! {

/// The demand from `s` to `t` in a complete demand edge sequence.
pub open spec fn demand_at(es: Seq<Edge>, n: int, s: int, t: int) -> int {
    es[demand_index(n, s, t)].weight as int
}

/// The unvisited node `t < m` whose demand from `a` is largest, ties
/// broken towards the lowest index; `None` when all of `0 .. m` is visited.
pub open spec fn best_next_upto(
    es: Seq<Edge>,
    n: int,
    a: int,
    visited: Seq<bool>,
    m: int,
) -> Option<int>
    decreases m,
{
    if m <= 0 {
        None
    } else {
        let t = m - 1;
        let rest = best_next_upto(es, n, a, visited, t);
        if visited[t] {
            rest
        } else {
            match rest {
                None => Some(t),
                Some(b) => if demand_at(es, n, a, t) > demand_at(es, n, a, b) {
                    Some(t)
                } else {
                    Some(b)
                },
            }
        }
    }
}

/// The greedy step: the heaviest not-yet-visited target from `a`.
pub open spec fn best_next(es: Seq<Edge>, n: int, a: int, visited: Seq<bool>) -> Option<int> {
    best_next_upto(es, n, a, visited, n)
}

/// The rest of the greedy walk: `rem` more nodes after `a`, marking each
/// chosen node visited before the next step.
pub open spec fn tour_rec(es: Seq<Edge>, n: int, visited: Seq<bool>, a: int, rem: nat) -> Seq<int>
    decreases rem,
{
    if rem == 0 {
        Seq::empty()
    } else {
        match best_next(es, n, a, visited) {
            None => Seq::empty(),
            Some(t) => seq![t] + tour_rec(es, n, visited.update(t, true), t, (rem - 1) as nat),
        }
    }
}

/// Visited flags with only `s` marked.
pub open spec fn init_visited(n: int, s: int) -> Seq<bool> {
    Seq::new(n as nat, |i: int| i == s)
}

/// The full greedy visit order from start node `s`: `s` first, then the
/// `n - 1` greedy choices.
pub open spec fn greedy_order(es: Seq<Edge>, n: int, s: int) -> Seq<int> {
    seq![s] + tour_rec(es, n, init_visited(n, s), s, (n - 1) as nat)
}

/// Total demand along consecutive nodes of `ord`.
pub open spec fn path_demand(es: Seq<Edge>, n: int, ord: Seq<int>) -> int
    decreases ord.len(),
{
    if ord.len() <= 1 {
        0
    } else {
        path_demand(es, n, ord.drop_last()) + demand_at(
            es,
            n,
            ord[ord.len() - 2],
            ord[ord.len() - 1],
        )
    }
}

/// Total demand around `ord` closed into a cycle.
pub open spec fn order_weight(es: Seq<Edge>, n: int, ord: Seq<int>) -> int {
    path_demand(es, n, ord) + demand_at(es, n, ord[ord.len() - 1], ord[0])
}

/// The greedy cycle weight when starting from `s`.
pub open spec fn tour_weight(es: Seq<Edge>, n: int, s: int) -> int {
    order_weight(es, n, greedy_order(es, n, s))
}

/// The start node `s < m` with the heaviest greedy cycle, ties broken
/// towards the lowest index.
pub open spec fn best_start_upto(es: Seq<Edge>, n: int, m: int) -> int
    decreases m,
{
    if m <= 1 {
        0
    } else {
        let b = best_start_upto(es, n, m - 1);
        if tour_weight(es, n, m - 1) > tour_weight(es, n, b) {
            m - 1
        } else {
            b
        }
    }
}

/// The start node whose greedy cycle is heaviest over all of `0 .. n`.
pub open spec fn best_start(es: Seq<Edge>, n: int) -> int {
    best_start_upto(es, n, n)
}

/// Number of `false` entries of a flag sequence.
pub open spec fn count_false(s: Seq<bool>) -> int
    decreases s.len(),
{
    if s.len() == 0 {
        0
    } else {
        count_false(s.drop_last()) + if s.last() {
            0int
        } else {
            1int
        }
    }
}

/// Marking an unvisited node lowers the unvisited count by one.
pub proof fn lemma_count_false_update(s: Seq<bool>, t: int)
    requires
        0 <= t < s.len(),
        !s[t],
    ensures
        count_false(s.update(t, true)) == count_false(s) - 1,
    decreases s.len(),
{
    let s2 = s.update(t, true);
    if t == s.len() - 1 {
        assert(s2.drop_last() =~= s.drop_last());
    } else {
        assert(s2.drop_last() =~= s.drop_last().update(t, true));
        lemma_count_false_update(s.drop_last(), t);
    }
}

/// A fully visited flag sequence has unvisited count zero.
pub proof fn lemma_count_false_all(s: Seq<bool>)
    requires
        forall|i: int| 0 <= i < s.len() ==> s[i],
    ensures
        count_false(s) == 0,
    decreases s.len(),
{
    if s.len() > 0 {
        lemma_count_false_all(s.drop_last());
    }
}

/// The initial flags leave `n - 1` nodes unvisited.
pub proof fn lemma_count_false_init(n: int, s: int)
    requires
        0 <= s < n,
    ensures
        count_false(init_visited(n, s)) == n - 1,
{
    lemma_count_false_one(n, s);
    assert(init_visited(n, s) =~= Seq::new(n as nat, |i: int| i == s));
}

proof fn lemma_count_false_one(m: int, s: int)
    requires
        0 <= m,
        0 <= s,
    ensures
        count_false(Seq::new(m as nat, |i: int| i == s)) == if s < m {
            m - 1
        } else {
            m
        },
    decreases m,
{
    if m > 0 {
        let v = Seq::new(m as nat, |i: int| i == s);
        assert(v.drop_last() =~= Seq::new((m - 1) as nat, |i: int| i == s));
        lemma_count_false_one(m - 1, s);
    }
}

/// If any entry is unset, the unvisited count is positive.
pub proof fn lemma_count_false_pos(s: Seq<bool>, i: int)
    requires
        0 <= i < s.len(),
        !s[i],
    ensures
        count_false(s) >= 1,
    decreases s.len(),
{
    lemma_count_false_nonneg(s.drop_last());
    if i < s.len() - 1 {
        lemma_count_false_pos(s.drop_last(), i);
    }
}

/// The unvisited count is never negative.
pub proof fn lemma_count_false_nonneg(s: Seq<bool>)
    ensures
        count_false(s) >= 0,
    decreases s.len(),
{
    if s.len() > 0 {
        lemma_count_false_nonneg(s.drop_last());
    }
}

/// A fully cleared flag sequence has unvisited count equal to its length.
pub proof fn lemma_count_false_clear(s: Seq<bool>)
    requires
        forall|i: int| 0 <= i < s.len() ==> !s[i],
    ensures
        count_false(s) == s.len(),
    decreases s.len(),
{
    if s.len() > 0 {
        lemma_count_false_clear(s.drop_last());
    }
}

/// A vector of `n` cleared flags.
pub(crate) fn falses(n: usize) -> (v: Vec<bool>)
    ensures
        v@ == Seq::new(n as nat, |i: int| false),
        v@.len() == n,
{
    let mut v: Vec<bool> = Vec::new();
    let mut i: usize = 0;
    while i < n
        invariant
            i <= n,
            v@.len() == i,
            forall|k: int| 0 <= k < i ==> !v@[k],
        decreases n - i,
    {
        v.push(false);
        i = i + 1;
    }
    proof {
        assert(v@ =~= Seq::new(n as nat, |i: int| false));
    }
    v
}

/// Reads the demand from `s` to `t` out of the complete demand graph.
pub fn demand_weight(logical: &Graph, s: usize, t: usize) -> (w: u64)
    requires
        logical.wf(),
        complete_demands(logical.edges@, logical.n as int),
        2 <= logical.n <= 1024,
        s < logical.n,
        t < logical.n,
        s != t,
    ensures
        w as int == demand_at(logical.edges@, logical.n as int, s as int, t as int),
        w <= u32::MAX,
{
    proof {
        lemma_demand_index(logical.n as int, s as int, t as int);
        assert(s * (logical.n - 1) + logical.n <= 1024 * 1024) by (nonlinear_arith)
            requires
                s < logical.n,
                logical.n <= 1024,
        ;
    }
    let j = if t < s {
        t
    } else {
        t - 1
    };
    let idx = s * (logical.n - 1) + j;
    logical.weight_at(idx)
}

/// Runs the greedy nearest-neighbor walk from `start`, returning the
/// visit order (exactly `greedy_order`) and the closed cycle's weight.
pub fn greedy_walk(logical: &Graph, start: usize) -> (r: (Vec<usize>, u64))
    requires
        logical.wf(),
        complete_demands(logical.edges@, logical.n as int),
        2 <= logical.n <= 1024,
        start < logical.n,
    ensures
        r.0@.len() == logical.n,
        r.0@.len() == greedy_order(logical.edges@, logical.n as int, start as int).len(),
        forall|k: int|
            0 <= k < r.0@.len() ==> r.0@[k] as int == greedy_order(
                logical.edges@,
                logical.n as int,
                start as int,
            )[k],
        forall|k: int| 0 <= k < r.0@.len() ==> (#[trigger] r.0@[k]) < logical.n,
        r.0@.no_duplicates(),
        r.1 as int == tour_weight(logical.edges@, logical.n as int, start as int),
{
    let ghost es = logical.edges@;
    let n = logical.node_count();
    let ghost ni = n as int;
    let ghost full = greedy_order(es, ni, start as int);
    let mut visited = falses(n);
    visited.set(start, true);
    proof {
        assert(visited@ =~= init_visited(ni, start as int));
        lemma_count_false_init(ni, start as int);
    }
    let mut ord: Vec<usize> = Vec::new();
    ord.push(start);
    let mut a = start;
    let mut tot: u64 = 0;
    let mut step: usize = 0;
    while step < n - 1
        invariant
            logical.wf(),
            complete_demands(es, ni),
            es == logical.edges@,
            n == logical.n,
            2 <= n <= 1024,
            step <= n - 1,
            ord@.len() == step + 1,
            ord@[0] == start,
            a == ord@[ord@.len() - 1],
            a < n,
            visited@.len() == n,
            forall|k: int| 0 <= k < ord@.len() ==> (#[trigger] ord@[k]) < n,
            forall|k: int| 0 <= k < ord@.len() ==> visited@[#[trigger] ord@[k] as int],
            ord@.no_duplicates(),
            count_false(visited@) == n - 1 - step,
            full == ord@.map_values(|x: usize| x as int) + tour_rec(
                es,
                ni,
                visited@,
                a as int,
                (n - 1 - step) as nat,
            ),
            tot as int == path_demand(es, ni, ord@.map_values(|x: usize| x as int)),
            tot <= step * (u32::MAX as int),
        decreases n - 1 - step,
    {
        // Scan all nodes for the heaviest unvisited target from `a`.
        let mut t: usize = 0;
        let mut found = false;
        let mut bt: usize = 0;
        let mut bw: u64 = 0;
        while t < n
            invariant
                logical.wf(),
                complete_demands(es, ni),
                es == logical.edges@,
                n == logical.n,
                2 <= n <= 1024,
                t <= n,
                a < n,
                visited@.len() == n,
                visited@[a as int],
                match best_next_upto(es, ni, a as int, visited@, t as int) {
                    None => !found,
                    Some(b) => found && bt as int == b && bt < n && !visited@[bt as int] && bw
                        as int == demand_at(es, ni, a as int, bt as int) && bw <= u32::MAX,
                },
            decreases n - t,
        {
            if !visited[t] {
                let d = demand_weight(logical, a, t);
                if !found || d > bw {
                    found = true;
                    bt = t;
                    bw = d;
                }
            }
            t = t + 1;
        }
        proof {
            if !found {
                assert forall|i: int| 0 <= i < visited@.len() implies visited@[i] by {
                    if !visited@[i] {
                        lemma_best_next_some(es, ni, a as int, visited@, ni, i);
                    }
                }
                lemma_count_false_all(visited@);
                assert(false);
            }
        }
        let ghost pre_ord = ord@.map_values(|x: usize| x as int);
        let ghost pre_visited = visited@;
        visited.set(bt, true);
        ord.push(bt);
        tot = tot + bw;
        proof {
            lemma_count_false_update(pre_visited, bt as int);
            assert(ord@.map_values(|x: usize| x as int) =~= pre_ord + seq![bt as int]);
            assert(tour_rec(es, ni, pre_visited, a as int, (n - 1 - step) as nat) == seq![
                bt as int,
            ] + tour_rec(es, ni, visited@, bt as int, (n - 2 - step) as nat));
            assert(full == ord@.map_values(|x: usize| x as int) + tour_rec(
                es,
                ni,
                visited@,
                bt as int,
                (n - 2 - step) as nat,
            )) by {
                assert(pre_ord + (seq![bt as int] + tour_rec(
                    es,
                    ni,
                    visited@,
                    bt as int,
                    (n - 2 - step) as nat,
                )) =~= (pre_ord + seq![bt as int]) + tour_rec(
                    es,
                    ni,
                    visited@,
                    bt as int,
                    (n - 2 - step) as nat,
                ));
            }
            let cur = ord@.map_values(|x: usize| x as int);
            assert(cur.drop_last() =~= pre_ord);
            assert(path_demand(es, ni, cur) == path_demand(es, ni, pre_ord) + demand_at(
                es,
                ni,
                a as int,
                bt as int,
            ));
        }
        a = bt;
        step = step + 1;
    }
    proof {
        assert(a != start) by {
            assert(ord@[0] == start);
            assert(ord@[ord@.len() - 1] == a);
        }
    }
    let closing = demand_weight(logical, a, start);
    proof {
        assert(tour_rec(es, ni, visited@, a as int, 0) =~= Seq::<int>::empty());
        assert(full =~= ord@.map_values(|x: usize| x as int));
        assert(full[0] == start as int);
        assert(tot + closing <= u64::MAX) by {
            assert(tot <= (n - 1) * (u32::MAX as int));
            assert((n - 1) * (u32::MAX as int) <= 1023 * (u32::MAX as int)) by (nonlinear_arith)
                requires
                    n <= 1024,
            ;
        }
    }
    tot = tot + closing;
    (ord, tot)
}

/// If some node below `m` is unvisited, the greedy step finds one.
proof fn lemma_best_next_some(es: Seq<Edge>, n: int, a: int, visited: Seq<bool>, m: int, u: int)
    requires
        0 <= u < m,
        !visited[u],
    ensures
        best_next_upto(es, n, a, visited, m) is Some,
    decreases m,
{
    if u < m - 1 {
        lemma_best_next_some(es, n, a, visited, m - 1, u);
    }
}

/// Demand processing order: heavier demands first, ties broken by the
/// lower source index, then the lower target index.
pub open spec fn demand_ge(a: Edge, b: Edge) -> bool {
    ||| a.weight > b.weight
    ||| (a.weight == b.weight && (a.src < b.src || (a.src == b.src && a.dst <= b.dst)))
}

/// The processing order as a relation value, for `sort_by`.
pub open spec fn demand_order() -> spec_fn(Edge, Edge) -> bool {
    |a: Edge, b: Edge| demand_ge(a, b)
}

/// The processing order is total, so it sorts every edge list uniquely.
pub proof fn lemma_demand_order_total()
    ensures
        total_ordering(demand_order()),
{
}

/// Decides the processing order between two demand edges.
fn demand_ge_exec(a: &Edge, b: &Edge) -> (r: bool)
    ensures
        r == demand_ge(*a, *b),
{
    if a.weight > b.weight {
        true
    } else if a.weight == b.weight {
        a.src < b.src || (a.src == b.src && a.dst <= b.dst)
    } else {
        false
    }
}

/// A copy of the graph's edge arena.
pub fn copy_edges(g: &Graph) -> (v: Vec<Edge>)
    ensures
        v@ == g.edges@,
{
    let mut v: Vec<Edge> = Vec::new();
    let mut i: usize = 0;
    while i < g.edges.len()
        invariant
            i <= g.edges@.len(),
            v@ == g.edges@.take(i as int),
        decreases g.edges@.len() - i,
    {
        v.push(g.edges[i]);
        proof {
            assert(g.edges@.take(i + 1) =~= g.edges@.take(i as int).push(g.edges@[i as int]));
        }
        i = i + 1;
    }
    proof {
        assert(g.edges@.take(g.edges@.len() as int) =~= g.edges@);
    }
    v
}

/// Sorts demand edges into processing order (heaviest first, determinate
/// tie-breaks); the result is pinned to the mathematical `sort_by`.
pub fn sort_by_demand(input: Vec<Edge>) -> (out: Vec<Edge>)
    ensures
        out@ == input@.sort_by(demand_order()),
        out@.to_multiset() == input@.to_multiset(),
        sorted_by(out@, demand_order()),
        out@.len() == input@.len(),
{
    broadcast use vstd::seq_lib::group_to_multiset_ensures;

    let ghost in0 = input@;
    let mut work = input;
    let mut out: Vec<Edge> = Vec::new();
    while work.len() > 0
        invariant
            out@.to_multiset().add(work@.to_multiset()) == in0.to_multiset(),
            sorted_by(out@, demand_order()),
            forall|i: int, j: int|
                0 <= i < out@.len() && 0 <= j < work@.len() ==> demand_ge(
                    #[trigger] out@[i],
                    #[trigger] work@[j],
                ),
        decreases work@.len(),
    {
        let mut m: usize = 0;
        let mut t: usize = 1;
        while t < work.len()
            invariant
                m < t <= work@.len() || (t <= work@.len() && m == 0),
                m < work@.len(),
                work@.len() > 0,
                forall|j: int| 0 <= j < t ==> demand_ge(work@[m as int], #[trigger] work@[j]),
            decreases work@.len() - t,
        {
            if demand_ge_exec(&work[t], &work[m]) {
                if !demand_ge_exec(&work[m], &work[t]) {
                    m = t;
                }
            }
            t = t + 1;
        }
        let e = work[m];
        let ghost pre_out = out@;
        let ghost pre_work = work@;
        out.push(e);
        work.remove(m);
        proof {
            assert(work@.to_multiset() == pre_work.to_multiset().remove(e));
            assert(out@.to_multiset() == pre_out.to_multiset().insert(e));
            assert(out@.to_multiset().add(work@.to_multiset()) =~= pre_out.to_multiset().add(
                pre_work.to_multiset(),
            ));
            assert forall|j: int| 0 <= j < work@.len() implies demand_ge(e, #[trigger] work@[j]) by {
                if j < m {
                    assert(work@[j] == pre_work[j]);
                } else {
                    assert(work@[j] == pre_work[j + 1]);
                }
            }
        }
    }
    proof {
        lemma_demand_order_total();
        in0.lemma_sort_by_ensures(demand_order());
        assert(work@.to_multiset() =~= Multiset::<Edge>::empty());
        assert(out@.to_multiset() =~= out@.to_multiset().add(work@.to_multiset()));
        vstd::seq_lib::lemma_sorted_unique(out@, in0.sort_by(demand_order()), demand_order());
        assert(out@.len() == out@.to_multiset().len());
        assert(in0.len() == in0.to_multiset().len());
    }
    out
}

/// A vector of `n` zero counters.
fn zeros(n: usize) -> (v: Vec<usize>)
    ensures
        v@.len() == n,
        forall|k: int| 0 <= k < n ==> v@[k] == 0,
{
    let mut v: Vec<usize> = Vec::new();
    let mut i: usize = 0;
    while i < n
        invariant
            i <= n,
            v@.len() == i,
            forall|k: int| 0 <= k < i ==> v@[k] == 0,
        decreases n - i,
    {
        v.push(0);
        i = i + 1;
    }
    v
}

/// The physical cycle a greedy visit order determines: one placeholder
/// edge per node, wrapping around at the end.
pub open spec fn cycle_edges(ord: Seq<int>, n: int) -> Seq<Edge> {
    Seq::new(
        n as nat,
        |k: int|
            Edge {
                src: ord[k] as usize,
                dst: (if k < n - 1 {
                    ord[k + 1]
                } else {
                    ord[0]
                }) as usize,
                weight: 0u64,
            },
    )
}

/// The augmentation pass from position `k` on: each demand in processing
/// order becomes a new placeholder link when the link is new and both
/// endpoints have spare degree.
pub open spec fn augment_rec(sorted: Seq<Edge>, es: Seq<Edge>, delta: int, k: int) -> Seq<Edge>
    decreases sorted.len() - k,
{
    if k < 0 || k >= sorted.len() {
        es
    } else {
        let e = sorted[k];
        let es2 = if out_degree(es, e.src as int) < delta && in_degree(es, e.dst as int) < delta
            && !has_pair(es, e.src as int, e.dst as int) {
            es.push(Edge { src: e.src, dst: e.dst, weight: 0u64 })
        } else {
            es
        };
        augment_rec(sorted, es2, delta, k + 1)
    }
}

/// The whole opportunistic topology as a pure function of the demand
/// graph and the port bound: the greedy cycle from the best start, then
/// the augmentation pass when more than one port is available.
pub open spec fn built_topology(demands: Seq<Edge>, n: int, delta: int) -> Seq<Edge> {
    let cyc = cycle_edges(greedy_order(demands, n, best_start(demands, n)), n);
    if delta == 1 {
        cyc
    } else {
        augment_rec(demands.sort_by(demand_order()), cyc, delta, 0)
    }
}

/// `ord` lists every node exactly once and consecutive nodes (wrapping
/// around) are joined by physical edges.
pub open spec fn is_spanning_cycle_order(es: Seq<Edge>, n: int, ord: Seq<int>) -> bool {
    &&& ord.len() == n
    &&& forall|k: int| 0 <= k < n ==> 0 <= #[trigger] ord[k] < n
    &&& ord.no_duplicates()
    &&& forall|k: int|
        0 <= k < n ==> has_pair(
            es,
            #[trigger] ord[k],
            if k < n - 1 {
                ord[k + 1]
            } else {
                ord[0]
            },
        )
}

/// The graph contains a directed cycle visiting all `n` nodes.
pub open spec fn spanning_cycle(es: Seq<Edge>, n: int) -> bool {
    exists|ord: Seq<int>| is_spanning_cycle_order(es, n, ord)
}

/// Every node appears somewhere on a spanning cycle order.
proof fn lemma_cycle_covers(ord: Seq<int>, n: int, v: int)
    requires
        ord.len() == n,
        ord.no_duplicates(),
        forall|k: int| 0 <= k < n ==> 0 <= #[trigger] ord[k] < n,
        0 <= v < n,
    ensures
        exists|k: int| 0 <= k < n && ord[k] == v,
{
    broadcast use vstd::set::group_set_axioms;

    if !(exists|k: int| 0 <= k < n && ord[k] == v) {
        ord.unique_seq_to_set();
        let range = vstd::set_lib::set_int_range(0, n);
        vstd::set_lib::lemma_int_range(0, n);
        let small = range.remove(v);
        assert(ord.to_set().subset_of(small)) by {
            assert forall|x: int| ord.to_set().contains(x) implies small.contains(x) by {
                assert(ord.contains(x));
                let k = choose|k: int| 0 <= k < ord.len() && ord[k] == x;
                assert(0 <= ord[k] < n && ord[k] != v);
            }
        }
        assert(small.len() == n - 1);
        vstd::set_lib::lemma_len_subset(ord.to_set(), small);
        assert(false);
    }
}

/// Walking the cycle forward reaches the node any number of hops ahead.
#[verifier::rlimit(100)]
proof fn lemma_cycle_step(es: Seq<Edge>, n: int, ord: Seq<int>, i: int, steps: int)
    requires
        is_spanning_cycle_order(es, n, ord),
        0 <= i < n,
        0 <= steps < n,
    ensures
        reachable(
            es,
            None,
            ord[i],
            ord[if i + steps < n {
                i + steps
            } else {
                i + steps - n
            }],
        ),
    decreases steps,
{
    if steps == 0 {
        let p = seq![ord[i]];
        assert(is_path(es, None, p));
        assert(p[0] == ord[i] && p[p.len() - 1] == ord[i]);
    } else {
        lemma_cycle_step(es, n, ord, i, steps - 1);
        let mp = if i + steps - 1 < n {
            i + steps - 1
        } else {
            i + steps - 1 - n
        };
        let m = if i + steps < n {
            i + steps
        } else {
            i + steps - n
        };
        assert(has_pair(
            es,
            ord[mp],
            if mp < n - 1 {
                ord[mp + 1]
            } else {
                ord[0]
            },
        ));
        assert((if mp < n - 1 {
            ord[mp + 1]
        } else {
            ord[0]
        }) == ord[m]);
        let p = choose|p: Seq<int>|
            is_path(es, None, p) && p[0] == ord[i] && p[p.len() - 1] == ord[mp];
        let p2 = p.push(ord[m]);
        assert(is_path(es, None, p2)) by {
            assert forall|k: int| 0 <= k < p2.len() - 1 implies linked(
                es,
                None,
                #[trigger] p2[k],
                p2[k + 1],
            ) by {
                if k < p.len() - 1 {
                    assert(p2[k] == p[k] && p2[k + 1] == p[k + 1]);
                } else {
                    assert(p2[k] == ord[mp] && p2[k + 1] == ord[m]);
                    let e = choose|e: int|
                        0 <= e < es.len() && (#[trigger] es[e]).src == ord[mp] && es[e].dst
                            == ord[m];
                    assert(crate::route::edge_ok(None, e));
                }
            }
        }
        assert(p2[0] == ord[i] && p2[p2.len() - 1] == ord[m]);
    }
}

/// A spanning cycle makes every node reachable from every node, so the
/// opportunistic topology can always carry every demand.
pub proof fn lemma_spanning_cycle_reachable(es: Seq<Edge>, n: int, s: int, t: int)
    requires
        spanning_cycle(es, n),
        0 <= s < n,
        0 <= t < n,
    ensures
        reachable(es, None, s, t),
{
    let ord = choose|ord: Seq<int>| is_spanning_cycle_order(es, n, ord);
    lemma_cycle_covers(ord, n, s);
    lemma_cycle_covers(ord, n, t);
    let i = choose|k: int| 0 <= k < n && ord[k] == s;
    let j = choose|k: int| 0 <= k < n && ord[k] == t;
    let steps = if j >= i {
        j - i
    } else {
        j - i + n
    };
    lemma_cycle_step(es, n, ord, i, steps);
}

/// Materializes the greedy visit order as a physical cycle with
/// placeholder weights: one unit of out- and in-degree per node.
fn build_cycle(logical: &Graph, ord: &Vec<usize>, start: usize) -> (r: (Graph, Vec<usize>, Vec<usize>))
    requires
        logical.wf(),
        2 <= logical.n <= 1024,
        start < logical.n,
        ord@.len() == logical.n,
        ord@[0] == start,
        forall|j: int| 0 <= j < ord@.len() ==> (#[trigger] ord@[j]) < logical.n,
        ord@.no_duplicates(),
    ensures
        r.0.n == logical.n,
        r.0.wf(),
        simple(r.0.edges@),
        zero_weights(r.0.edges@),
        r.0.edges@.len() == logical.n,
        forall|j: int|
            0 <= j < logical.n ==> r.0.edges@[j] == (Edge {
                src: ord@[j],
                dst: ord@[if j < logical.n - 1 {
                    j + 1
                } else {
                    0
                }],
                weight: 0u64,
            }),
        r.1@.len() == logical.n,
        r.2@.len() == logical.n,
        forall|v: int|
            0 <= v < logical.n ==> r.1@[v] == out_degree(r.0.edges@, v) && r.1@[v] <= 1,
        forall|v: int| 0 <= v < logical.n ==> r.2@[v] == in_degree(r.0.edges@, v) && r.2@[v] <= 1,
{
    let n = logical.node_count();
    let mut g = Graph::new(n);
    let mut outdeg = zeros(n);
    let mut indeg = zeros(n);
    let mut k: usize = 0;
    while k < n - 1
        invariant
            n == logical.n,
            2 <= n <= 1024,
            k <= n - 1,
            g.n == n,
            g.wf(),
            ord@.len() == n,
            forall|j: int| 0 <= j < n ==> (#[trigger] ord@[j]) < n,
            ord@.no_duplicates(),
            g.edges@.len() == k,
            forall|j: int|
                0 <= j < k ==> g.edges@[j] == (Edge {
                    src: ord@[j],
                    dst: ord@[j + 1],
                    weight: 0u64,
                }),
            outdeg@.len() == n,
            indeg@.len() == n,
            forall|v: int| 0 <= v < n ==> outdeg@[v] == out_degree(g.edges@, v),
            forall|v: int| 0 <= v < n ==> indeg@[v] == in_degree(g.edges@, v),
            forall|v: int| 0 <= v < n ==> outdeg@[v] <= 1 && indeg@[v] <= 1,
        decreases n - 1 - k,
    {
        let a = ord[k];
        let b = ord[k + 1];
        proof {
            lemma_out_degree_none(g.edges@, a as int);
            lemma_in_degree_none(g.edges@, b as int);
            assert forall|v: int| 0 <= v < n implies out_degree(
                g.edges@.push(Edge { src: a, dst: b, weight: 0u64 }),
                v,
            ) == out_degree(g.edges@, v) + (if a as int == v {
                1int
            } else {
                0int
            }) && in_degree(g.edges@.push(Edge { src: a, dst: b, weight: 0u64 }), v) == in_degree(
                g.edges@,
                v,
            ) + (if b as int == v {
                1int
            } else {
                0int
            }) by {
                lemma_push(g.edges@, Edge { src: a, dst: b, weight: 0u64 }, v);
            }
        }
        g.add_edge(a, b, 0);
        let oa = outdeg[a];
        outdeg.set(a, oa + 1);
        let ib = indeg[b];
        indeg.set(b, ib + 1);
        k = k + 1;
    }
    // Close the cycle back to the start node.
    let a = ord[n - 1];
    proof {
        lemma_out_degree_none(g.edges@, a as int);
        lemma_in_degree_none(g.edges@, start as int);
        assert forall|v: int| 0 <= v < n implies out_degree(
            g.edges@.push(Edge { src: a, dst: start, weight: 0u64 }),
            v,
        ) == out_degree(g.edges@, v) + (if a as int == v {
            1int
        } else {
            0int
        }) && in_degree(g.edges@.push(Edge { src: a, dst: start, weight: 0u64 }), v) == in_degree(
            g.edges@,
            v,
        ) + (if start as int == v {
            1int
        } else {
            0int
        }) by {
            lemma_push(g.edges@, Edge { src: a, dst: start, weight: 0u64 }, v);
        }
    }
    g.add_edge(a, start, 0);
    let oa = outdeg[a];
    outdeg.set(a, oa + 1);
    let ib = indeg[start];
    indeg.set(start, ib + 1);
    proof {
        assert(simple(g.edges@)) by {
            assert forall|i: int, j: int| 0 <= i < j < g.edges@.len() implies !((
            #[trigger] g.edges@[i]).src == (#[trigger] g.edges@[j]).src && g.edges@[i].dst
                == g.edges@[j].dst) by {
                assert(g.edges@[i].src == ord@[i] && g.edges@[j].src == ord@[j]);
            }
            assert forall|i: int| 0 <= i < g.edges@.len() implies (#[trigger] g.edges@[i]).src
                != g.edges@[i].dst by {
                if i < n - 1 {
                    assert(g.edges@[i].src == ord@[i] && g.edges@[i].dst == ord@[i + 1]);
                } else {
                    assert(g.edges@[i].src == ord@[n - 1] && g.edges@[i].dst == ord@[0]);
                }
            }
        }
    }
    (g, outdeg, indeg)
}

/// Adds the remaining demands as physical links, heaviest first, wherever
/// the link is new and both endpoints have spare degree below `delta`.
fn augment(g: &mut Graph, logical: &Graph, outdeg: &mut Vec<usize>, indeg: &mut Vec<usize>, delta: usize)
    requires
        logical.wf(),
        complete_demands(logical.edges@, logical.n as int),
        2 <= logical.n <= 1024,
        1 <= delta,
        old(g).n == logical.n,
        old(g).wf(),
        simple(old(g).edges@),
        zero_weights(old(g).edges@),
        old(outdeg)@.len() == logical.n,
        old(indeg)@.len() == logical.n,
        forall|v: int|
            0 <= v < logical.n ==> old(outdeg)@[v] == out_degree(old(g).edges@, v) && old(
                outdeg,
            )@[v] <= delta,
        forall|v: int|
            0 <= v < logical.n ==> old(indeg)@[v] == in_degree(old(g).edges@, v) && old(
                indeg,
            )@[v] <= delta,
    ensures
        final (g).n == old(g).n,
        final (g).wf(),
        simple(final (g).edges@),
        zero_weights(final (g).edges@),
        final (g).edges@.len() >= old(g).edges@.len(),
        final (g).edges@.len() <= old(g).edges@.len() + logical.edges@.len(),
        forall|j: int| 0 <= j < old(g).edges@.len() ==> final (g).edges@[j] == old(g).edges@[j],
        forall|v: int|
            0 <= v < logical.n ==> out_degree(final (g).edges@, v) <= delta && in_degree(
                final (g).edges@,
                v,
            ) <= delta,
        final (g).edges@ == augment_rec(
            logical.edges@.sort_by(demand_order()),
            old(g).edges@,
            delta as int,
            0,
        ),
{
    broadcast use vstd::seq_lib::group_to_multiset_ensures;

    let ghost es = logical.edges@;
    let ghost ni = logical.n as int;
    let ghost base = old(g).edges@;
    let n = logical.node_count();
    let all = copy_edges(logical);
    let s = sort_by_demand(all);
    let mut i: usize = 0;
    while i < s.len()
        invariant
            logical.wf(),
            complete_demands(es, ni),
            es == logical.edges@,
            n == logical.n,
            2 <= n <= 1024,
            1 <= delta,
            i <= s@.len(),
            s@.to_multiset() == es.to_multiset(),
            g.n == n,
            g.wf(),
            simple(g.edges@),
            zero_weights(g.edges@),
            g.edges@.len() >= base.len(),
            g.edges@.len() <= base.len() + i,
            forall|j: int| 0 <= j < base.len() ==> g.edges@[j] == base[j],
            outdeg@.len() == n,
            indeg@.len() == n,
            forall|v: int| 0 <= v < n ==> outdeg@[v] == out_degree(g.edges@, v),
            forall|v: int| 0 <= v < n ==> indeg@[v] == in_degree(g.edges@, v),
            forall|v: int| 0 <= v < n ==> outdeg@[v] <= delta && indeg@[v] <= delta,
            s@ == es.sort_by(demand_order()),
            augment_rec(s@, base, delta as int, 0) == augment_rec(s@, g.edges@, delta as int, i as int),
        decreases s@.len() - i,
    {
        let e = s[i];
        let ghost pre_es = g.edges@;
        proof {
            assert(s@.to_multiset().count(e) > 0);
            assert(es.contains(e));
            let j = choose|j: int| 0 <= j < es.len() && es[j] == e;
            lemma_pair_at(ni, j);
        }
        if outdeg[e.src] < delta && indeg[e.dst] < delta && !g.contains_edge(e.src, e.dst) {
            proof {
                assert forall|v: int| 0 <= v < n implies out_degree(
                    g.edges@.push(Edge { src: e.src, dst: e.dst, weight: 0u64 }),
                    v,
                ) == out_degree(g.edges@, v) + (if e.src as int == v {
                    1int
                } else {
                    0int
                }) && in_degree(g.edges@.push(Edge { src: e.src, dst: e.dst, weight: 0u64 }), v)
                    == in_degree(g.edges@, v) + (if e.dst as int == v {
                    1int
                } else {
                    0int
                }) by {
                    lemma_push(g.edges@, Edge { src: e.src, dst: e.dst, weight: 0u64 }, v);
                }
            }
            g.add_edge(e.src, e.dst, 0);
            let od = outdeg[e.src];
            outdeg.set(e.src, od + 1);
            let id = indeg[e.dst];
            indeg.set(e.dst, id + 1);
        }
        proof {
            assert(augment_rec(s@, pre_es, delta as int, i as int) == augment_rec(
                s@,
                g.edges@,
                delta as int,
                i + 1,
            ));
        }
        i = i + 1;
    }
    proof {
        assert forall|v: int|
            0 <= v < logical.n implies out_degree(g.edges@, v) <= delta && in_degree(g.edges@, v)
            <= delta by {
            assert(outdeg@[v] == out_degree(g.edges@, v) && outdeg@[v] <= delta);
            assert(indeg@[v] == in_degree(g.edges@, v) && indeg@[v] <= delta);
        }
        assert(augment_rec(s@, g.edges@, delta as int, s@.len() as int) == g.edges@);
    }
}

/// Builds the physical topology opportunistically: the greedy Hamiltonian
/// cycle from the best start node is materialized with placeholder
/// weights, then all demands in processing order are added as extra links
/// wherever both endpoints still have spare degree and the link is new.
///
/// The cycle occupies the first `n` arena slots and is pinned to
/// `greedy_order` at `best_start`, so it is a pure function of the demand
/// graph; both degree counters stay at most `delta` at every node.
#[verifier::rlimit(50)]
pub fn create_opportunistic_physical_topology(logical: &Graph, delta: usize) -> (g: Graph)
    requires
        logical.wf(),
        complete_demands(logical.edges@, logical.n as int),
        2 <= logical.n <= 1024,
        1 <= delta,
    ensures
        g.n == logical.n,
        g.wf(),
        simple(g.edges@),
        zero_weights(g.edges@),
        forall|v: int|
            0 <= v < g.n ==> out_degree(g.edges@, v) <= delta && in_degree(g.edges@, v) <= delta,
        spanning_cycle(g.edges@, g.n as int),
        g.edges@.len() >= g.n,
        g.edges@.len() <= logical.n + logical.edges@.len(),
        ({
            let ord = greedy_order(
                logical.edges@,
                logical.n as int,
                best_start(logical.edges@, logical.n as int),
            );
            forall|k: int|
                0 <= k < g.n ==> g.edges@[k] == (Edge {
                    src: ord[k] as usize,
                    dst: (if k < g.n - 1 {
                        ord[k + 1]
                    } else {
                        ord[0]
                    }) as usize,
                    weight: 0u64,
                })
        }),
        g.edges@ == built_topology(logical.edges@, logical.n as int, delta as int),
{
    let ghost es = logical.edges@;
    let ghost ni = logical.n as int;
    let n = logical.node_count();
    let start = find_start(logical);
    let walk = greedy_walk(logical, start);
    let ord = walk.0;
    let ghost sord = greedy_order(es, ni, start as int);
    proof {
        assert(ord@[0] as int == sord[0]);
        assert(sord[0] == start as int);
    }
    let r = build_cycle(logical, &ord, start);
    let mut g = r.0;
    let mut outdeg = r.1;
    let mut indeg = r.2;
    let ghost cycle = g.edges@;
    proof {
        assert(cycle =~= cycle_edges(sord, ni));
    }
    if delta > 1 {
        augment(&mut g, logical, &mut outdeg, &mut indeg, delta);
    }
    proof {
        assert forall|v: int| 0 <= v < g.n implies out_degree(g.edges@, v) <= delta && in_degree(
            g.edges@,
            v,
        ) <= delta by {
            if delta == 1 {
                assert(outdeg@[v] == out_degree(g.edges@, v) && outdeg@[v] <= 1);
                assert(indeg@[v] == in_degree(g.edges@, v) && indeg@[v] <= 1);
            }
        }
        assert(is_spanning_cycle_order(g.edges@, ni, sord)) by {
            assert forall|k2: int| 0 <= k2 < ni implies has_pair(
                g.edges@,
                #[trigger] sord[k2],
                if k2 < ni - 1 {
                    sord[k2 + 1]
                } else {
                    sord[0]
                },
            ) by {
                assert(g.edges@[k2] == cycle[k2]);
                assert(cycle[k2].src == ord@[k2]);
                assert(ord@[k2] as int == sord[k2]);
            }
            assert(sord.no_duplicates()) by {
                assert forall|p: int, q: int|
                    0 <= p < sord.len() && 0 <= q < sord.len() && p != q implies sord[p]
                    != sord[q] by {
                    assert(ord@[p] as int == sord[p] && ord@[q] as int == sord[q]);
                }
            }
        }
        assert forall|k: int| 0 <= k < g.n implies g.edges@[k] == (Edge {
            src: sord[k] as usize,
            dst: (if k < g.n - 1 {
                sord[k + 1]
            } else {
                sord[0]
            }) as usize,
            weight: 0u64,
        }) by {
            assert(g.edges@[k] == cycle[k]);
        }
    }
    g
}

/// Evaluates the greedy cycle weight of every candidate start node and
/// returns the best-scoring one (heaviest cycle, ties to the lowest index).
pub fn find_start(logical: &Graph) -> (s: usize)
    requires
        logical.wf(),
        complete_demands(logical.edges@, logical.n as int),
        2 <= logical.n <= 1024,
    ensures
        s as int == best_start(logical.edges@, logical.n as int),
        s < logical.n,
{
    let ghost es = logical.edges@;
    let ghost ni = logical.n as int;
    let n = logical.node_count();
    let first = greedy_walk(logical, 0);
    let mut bs: usize = 0;
    let mut bw: u64 = first.1;
    let mut cand: usize = 1;
    while cand < n
        invariant
            logical.wf(),
            complete_demands(es, ni),
            es == logical.edges@,
            n == logical.n,
            2 <= n <= 1024,
            1 <= cand <= n,
            bs < n,
            bs as int == best_start_upto(es, ni, cand as int),
            bw as int == tour_weight(es, ni, bs as int),
        decreases n - cand,
    {
        let r = greedy_walk(logical, cand);
        if r.1 > bw {
            bs = cand;
            bw = r.1;
        }
        cand = cand + 1;
    }
    bs
}

/// A spanning cycle survives any change that keeps the endpoint pairs.
pub proof fn lemma_same_pairs_cycle(a: Seq<Edge>, b: Seq<Edge>, n: int)
    requires
        crate::graph::same_pairs(a, b),
        spanning_cycle(a, n),
    ensures
        spanning_cycle(b, n),
{
    let ord = choose|ord: Seq<int>| is_spanning_cycle_order(a, n, ord);
    assert(is_spanning_cycle_order(b, n, ord)) by {
        assert forall|k: int| 0 <= k < n implies has_pair(
            b,
            #[trigger] ord[k],
            if k < n - 1 {
                ord[k + 1]
            } else {
                ord[0]
            },
        ) by {
            crate::flow::lemma_same_pairs_has_pair(
                a,
                b,
                ord[k],
                if k < n - 1 {
                    ord[k + 1]
                } else {
                    ord[0]
                },
            );
        }
    }
}

} // verus!
