//! A minimal weighted directed graph: nodes are dense indices in
//! `[0, n)`, edges live in an arena in insertion order.
//!
//! The spec functions here are the vocabulary of every contract in the
//! library: degrees, directional load sums, the per-node flow divergence
//! and the total carried load.
use vstd::prelude::*;

verus! {

/// A directed edge with a load weight, in integer load units.
#[derive(Clone, Copy, Debug, PartialEq, Eq, Structural)]
pub struct Edge {
    pub src: usize,
    pub dst: usize,
    pub weight: u64,
}

/// A weighted directed graph over nodes `0 .. n`.
#[derive(Debug)]
pub struct Graph {
    pub n: usize,
    pub edges: Vec<Edge>,
}

/// Some edge of `es` joins `s` to `t` (weights do not matter).
pub open spec fn has_pair(es: Seq<Edge>, s: int, t: int) -> bool {
    exists|i: int| 0 <= i < es.len() && (#[trigger] es[i]).src == s && es[i].dst == t
}

/// Number of edges of `es` leaving node `v`.
pub open spec fn out_degree(es: Seq<Edge>, v: int) -> int
    decreases es.len(),
{
    if es.len() == 0 {
        0
    } else {
        out_degree(es.drop_last(), v) + if es.last().src == v {
            1int
        } else {
            0int
        }
    }
}

/// Number of edges of `es` entering node `v`.
pub open spec fn in_degree(es: Seq<Edge>, v: int) -> int
    decreases es.len(),
{
    if es.len() == 0 {
        0
    } else {
        in_degree(es.drop_last(), v) + if es.last().dst == v {
            1int
        } else {
            0int
        }
    }
}

/// Total load leaving node `v`.
pub open spec fn out_sum(es: Seq<Edge>, v: int) -> int
    decreases es.len(),
{
    if es.len() == 0 {
        0
    } else {
        out_sum(es.drop_last(), v) + if es.last().src == v {
            es.last().weight as int
        } else {
            0int
        }
    }
}

/// Total load entering node `v`.
pub open spec fn in_sum(es: Seq<Edge>, v: int) -> int
    decreases es.len(),
{
    if es.len() == 0 {
        0
    } else {
        in_sum(es.drop_last(), v) + if es.last().dst == v {
            es.last().weight as int
        } else {
            0int
        }
    }
}

/// What one edge contributes to the flow divergence of node `v`.
pub open spec fn edge_net(e: Edge, v: int) -> int {
    (if e.src == v {
        e.weight as int
    } else {
        0int
    }) - (if e.dst == v {
        e.weight as int
    } else {
        0int
    })
}

/// Flow divergence of node `v`: load leaving it minus load entering it.
pub open spec fn net_flow(es: Seq<Edge>, v: int) -> int
    decreases es.len(),
{
    if es.len() == 0 {
        0
    } else {
        net_flow(es.drop_last(), v) + edge_net(es.last(), v)
    }
}

/// Sum of all edge weights.
pub open spec fn total_load(es: Seq<Edge>) -> int
    decreases es.len(),
{
    if es.len() == 0 {
        0
    } else {
        total_load(es.drop_last()) + es.last().weight as int
    }
}

/// No self-loops and no two edges with the same endpoint pair.
pub open spec fn simple(es: Seq<Edge>) -> bool {
    &&& forall|i: int| 0 <= i < es.len() ==> (#[trigger] es[i]).src != es[i].dst
    &&& forall|i: int, j: int|
        0 <= i < j < es.len() ==> !((#[trigger] es[i]).src == (#[trigger] es[j]).src && es[i].dst
            == es[j].dst)
}

/// All weights are the zero placeholder.
pub open spec fn zero_weights(es: Seq<Edge>) -> bool {
    forall|i: int| 0 <= i < es.len() ==> (#[trigger] es[i]).weight == 0
}

/// The two edge sequences have the same endpoint pairs position by position.
pub open spec fn same_pairs(a: Seq<Edge>, b: Seq<Edge>) -> bool {
    &&& a.len() == b.len()
    &&& forall|i: int|
        0 <= i < a.len() ==> (#[trigger] a[i]).src == b[i].src && a[i].dst == b[i].dst
}

impl Graph {
    /// Every edge joins two nodes of the graph.
    pub open spec fn wf(self) -> bool {
        forall|i: int|
            0 <= i < self.edges@.len() ==> (#[trigger] self.edges@[i]).src < self.n
                && self.edges@[i].dst < self.n
    }

    /// A graph with `n` nodes and no edges.
    pub fn new(n: usize) -> (g: Graph)
        ensures
            g.n == n,
            g.edges@ == Seq::<Edge>::empty(),
            g.wf(),
    {
        let g = Graph { n, edges: Vec::new() };
        proof {
            assert(g.edges@ =~= Seq::<Edge>::empty());
        }
        g
    }

    /// Appends a directed edge; its handle is its position in the arena.
    pub fn add_edge(&mut self, src: usize, dst: usize, weight: u64)
        requires
            src < old(self).n,
            dst < old(self).n,
        ensures
            final (self).n == old(self).n,
            final (self).edges@ == old(self).edges@.push(
                Edge { src, dst, weight },
            ),
    {
        self.edges.push(Edge { src, dst, weight });
    }

    /// Number of nodes.
    pub fn node_count(&self) -> (c: usize)
        ensures
            c == self.n,
    {
        self.n
    }

    /// Number of edges.
    pub fn edge_count(&self) -> (c: usize)
        ensures
            c == self.edges@.len(),
    {
        self.edges.len()
    }

    /// The edge stored at position `i`.
    pub fn edge_at(&self, i: usize) -> (e: Edge)
        requires
            i < self.edges@.len(),
        ensures
            e == self.edges@[i as int],
    {
        self.edges[i]
    }

    /// Position of the first edge joining `s` to `t`, if any.
    pub fn find_edge(&self, s: usize, t: usize) -> (r: Option<usize>)
        ensures
            match r {
                Some(i) => i < self.edges@.len() && self.edges@[i as int].src == s
                    && self.edges@[i as int].dst == t && forall|j: int|
                    0 <= j < i ==> !((#[trigger] self.edges@[j]).src == s && self.edges@[j].dst
                        == t),
                None => !has_pair(self.edges@, s as int, t as int),
            },
    {
        let mut i: usize = 0;
        while i < self.edges.len()
            invariant
                i <= self.edges@.len(),
                forall|j: int|
                    0 <= j < i ==> !((#[trigger] self.edges@[j]).src == s && self.edges@[j].dst
                        == t),
            decreases self.edges@.len() - i,
        {
            let e = self.edges[i];
            if e.src == s && e.dst == t {
                return Some(i);
            }
            i = i + 1;
        }
        None
    }

    /// Whether some edge joins `s` to `t`.
    pub fn contains_edge(&self, s: usize, t: usize) -> (b: bool)
        ensures
            b == has_pair(self.edges@, s as int, t as int),
    {
        match self.find_edge(s, t) {
            Some(_) => true,
            None => false,
        }
    }

    /// The load on the edge at position `i`.
    pub fn weight_at(&self, i: usize) -> (w: u64)
        requires
            i < self.edges@.len(),
        ensures
            w == self.edges@[i as int].weight,
    {
        self.edges[i].weight
    }

    /// Replaces the load on the edge at position `i`, keeping its endpoints.
    pub fn set_weight(&mut self, i: usize, w: u64)
        requires
            i < old(self).edges@.len(),
        ensures
            final (self).n == old(self).n,
            final (self).edges@ == old(self).edges@.update(
                i as int,
                Edge { src: old(self).edges@[i as int].src, dst: old(self).edges@[i as int].dst, weight: w },
            ),
    {
        let e = self.edges[i];
        self.edges.set(i, Edge { src: e.src, dst: e.dst, weight: w });
    }
}

/// Decides simplicity: no self-loops, no repeated endpoint pair.
pub fn is_simple(g: &Graph) -> (b: bool)
    ensures
        b == simple(g.edges@),
{
    let mut i: usize = 0;
    while i < g.edges.len()
        invariant
            i <= g.edges@.len(),
            forall|x: int| 0 <= x < i ==> (#[trigger] g.edges@[x]).src != g.edges@[x].dst,
            forall|x: int, y: int|
                0 <= x < y < g.edges@.len() && x < i ==> !((#[trigger] g.edges@[x]).src == (
                #[trigger] g.edges@[y]).src && g.edges@[x].dst == g.edges@[y].dst),
        decreases g.edges@.len() - i,
    {
        let e = g.edges[i];
        if e.src == e.dst {
            return false;
        }
        let mut j: usize = i + 1;
        while j < g.edges.len()
            invariant
                i < j <= g.edges@.len(),
                e == g.edges@[i as int],
                forall|y: int|
                    i < y < j ==> !((#[trigger] g.edges@[y]).src == e.src && g.edges@[y].dst
                        == e.dst),
            decreases g.edges@.len() - j,
        {
            let f = g.edges[j];
            if f.src == e.src && f.dst == e.dst {
                return false;
            }
            j = j + 1;
        }
        i = i + 1;
    }
    true
}

/// The load on the heaviest edge.
pub fn max_edge_weight(g: &Graph) -> (w: u64)
    requires
        g.edges@.len() >= 1,
    ensures
        exists|i: int| 0 <= i < g.edges@.len() && (#[trigger] g.edges@[i]).weight == w,
        forall|i: int| 0 <= i < g.edges@.len() ==> (#[trigger] g.edges@[i]).weight <= w,
{
    let mut w = g.edges[0].weight;
    let mut i: usize = 1;
    while i < g.edges.len()
        invariant
            1 <= i <= g.edges@.len(),
            exists|x: int| 0 <= x < i && (#[trigger] g.edges@[x]).weight == w,
            forall|x: int| 0 <= x < i ==> (#[trigger] g.edges@[x]).weight <= w,
        decreases g.edges@.len() - i,
    {
        let x = g.edges[i].weight;
        if x > w {
            w = x;
        }
        i = i + 1;
    }
    w
}

/// Two edge lists with the same endpoint pairs have the same degrees.
pub proof fn lemma_same_pairs_degrees(a: Seq<Edge>, b: Seq<Edge>, v: int)
    requires
        same_pairs(a, b),
    ensures
        out_degree(a, v) == out_degree(b, v),
        in_degree(a, v) == in_degree(b, v),
    decreases a.len(),
{
    if a.len() > 0 {
        assert(same_pairs(a.drop_last(), b.drop_last()));
        lemma_same_pairs_degrees(a.drop_last(), b.drop_last(), v);
    }
}

/// Appending an edge raises the degree counters of its endpoints by one
/// and everyone else's not at all, and adds its weight to the load sums.
pub proof fn lemma_push(es: Seq<Edge>, e: Edge, v: int)
    ensures
        out_degree(es.push(e), v) == out_degree(es, v) + if e.src == v {
            1int
        } else {
            0int
        },
        in_degree(es.push(e), v) == in_degree(es, v) + if e.dst == v {
            1int
        } else {
            0int
        },
        out_sum(es.push(e), v) == out_sum(es, v) + if e.src == v {
            e.weight as int
        } else {
            0int
        },
        in_sum(es.push(e), v) == in_sum(es, v) + if e.dst == v {
            e.weight as int
        } else {
            0int
        },
        net_flow(es.push(e), v) == net_flow(es, v) + edge_net(e, v),
        total_load(es.push(e)) == total_load(es) + e.weight as int,
{
    assert(es.push(e).drop_last() =~= es);
}

/// Raising the load of edge `i` by `d` moves the divergence of its source
/// up by `d`, the divergence of its target down by `d`, and the total load
/// up by `d`.
pub proof fn lemma_add_load(es: Seq<Edge>, i: int, d: int, v: int)
    requires
        0 <= i < es.len(),
        0 <= es[i].weight + d <= u64::MAX,
    ensures
        net_flow(
            es.update(i, Edge { src: es[i].src, dst: es[i].dst, weight: (es[i].weight + d) as u64 }),
            v,
        ) == net_flow(es, v) + (if es[i].src == v {
            d
        } else {
            0int
        }) - (if es[i].dst == v {
            d
        } else {
            0int
        }),
        total_load(
            es.update(i, Edge { src: es[i].src, dst: es[i].dst, weight: (es[i].weight + d) as u64 }),
        ) == total_load(es) + d,
    decreases es.len(),
{
    let e2 = Edge { src: es[i].src, dst: es[i].dst, weight: (es[i].weight + d) as u64 };
    let es2 = es.update(i, e2);
    if i == es.len() - 1 {
        assert(es2.drop_last() =~= es.drop_last());
        assert(es2.last() == e2);
    } else {
        assert(es2.drop_last() =~= es.drop_last().update(i, e2));
        assert(es2.last() == es.last());
        lemma_add_load(es.drop_last(), i, d, v);
    }
}

/// Every single load is at most the total load.
pub proof fn lemma_weight_le_total(es: Seq<Edge>, i: int)
    requires
        0 <= i < es.len(),
    ensures
        es[i].weight as int <= total_load(es),
        0 <= total_load(es),
    decreases es.len(),
{
    lemma_total_nonneg(es);
    if i == es.len() - 1 {
        lemma_total_nonneg(es.drop_last());
    } else {
        lemma_weight_le_total(es.drop_last(), i);
    }
}

/// The total load is never negative.
pub proof fn lemma_total_nonneg(es: Seq<Edge>)
    ensures
        0 <= total_load(es),
    decreases es.len(),
{
    if es.len() > 0 {
        lemma_total_nonneg(es.drop_last());
    }
}

/// When all loads are zero, every divergence and sum is zero.
pub proof fn lemma_zero_weights(es: Seq<Edge>, v: int)
    requires
        zero_weights(es),
    ensures
        net_flow(es, v) == 0,
        total_load(es) == 0,
        out_sum(es, v) == 0,
        in_sum(es, v) == 0,
    decreases es.len(),
{
    if es.len() > 0 {
        assert(zero_weights(es.drop_last()));
        lemma_zero_weights(es.drop_last(), v);
    }
}

/// A node no edge leaves has out-degree zero.
pub proof fn lemma_out_degree_none(es: Seq<Edge>, v: int)
    requires
        forall|j: int| 0 <= j < es.len() ==> (#[trigger] es[j]).src != v,
    ensures
        out_degree(es, v) == 0,
    decreases es.len(),
{
    if es.len() > 0 {
        lemma_out_degree_none(es.drop_last(), v);
    }
}

/// A node no edge enters has in-degree zero.
pub proof fn lemma_in_degree_none(es: Seq<Edge>, v: int)
    requires
        forall|j: int| 0 <= j < es.len() ==> (#[trigger] es[j]).dst != v,
    ensures
        in_degree(es, v) == 0,
    decreases es.len(),
{
    if es.len() > 0 {
        lemma_in_degree_none(es.drop_last(), v);
    }
}

/// Divergence is exactly the out-sum minus the in-sum.
pub proof fn lemma_net_is_out_minus_in(es: Seq<Edge>, v: int)
    ensures
        net_flow(es, v) == out_sum(es, v) - in_sum(es, v),
    decreases es.len(),
{
    if es.len() > 0 {
        lemma_net_is_out_minus_in(es.drop_last(), v);
    }
}

} // verus!
