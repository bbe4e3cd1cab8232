//! The manhattan builder: a fixed toroidal grid topology with row length
//! `r`, independent of demand. Every node is joined to its four torus
//! neighbors, so each node has exactly four outgoing and four incoming
//! links; a node count not divisible by the row length is rejected.
use vstd::prelude::*;

use crate::graph::{in_degree, lemma_push, out_degree, simple, Edge, Graph};
use crate::route::{
    lemma_reachable_extend, lemma_reachable_refl, lemma_reachable_trans, linked, reachable,
};
use crate::Error;
use vstd::arithmetic::div_mod::{lemma_fundamental_div_mod, lemma_fundamental_div_mod_converse};

verus! {

/// The row neighbor to the left, wrapping at the row boundary.
pub open spec fn grid_left(n: int, r: int, i: int) -> int {
    if i % r == 0 {
        i + r - 1
    } else {
        i - 1
    }
}

/// The row neighbor to the right, wrapping at the row boundary.
pub open spec fn grid_right(n: int, r: int, i: int) -> int {
    if i % r == r - 1 {
        i + 1 - r
    } else {
        i + 1
    }
}

/// The column neighbor above, wrapping at the column boundary.
pub open spec fn grid_up(n: int, r: int, i: int) -> int {
    if i / r == 0 {
        n - r + i
    } else {
        i - r
    }
}

/// The column neighbor below, wrapping at the column boundary.
pub open spec fn grid_down(n: int, r: int, i: int) -> int {
    if i / r == n / r - 1 {
        i % r
    } else {
        i + r
    }
}

/// Target of the `k`-th grid edge: node `k / 4`'s neighbor in direction
/// `k % 4` (left, right, up, down).
pub open spec fn grid_dst(n: int, r: int, k: int) -> int {
    let i = k / 4;
    let d = k % 4;
    if d == 0 {
        grid_left(n, r, i)
    } else if d == 1 {
        grid_right(n, r, i)
    } else if d == 2 {
        grid_up(n, r, i)
    } else {
        grid_down(n, r, i)
    }
}

/// The edges are exactly the toroidal grid over `n` nodes with row length
/// `r`: four placeholder-weight edges per node, in direction order.
pub open spec fn manhattan_form(es: Seq<Edge>, n: int, r: int) -> bool {
    &&& es.len() == 4 * n
    &&& forall|k: int|
        0 <= k < es.len() ==> (#[trigger] es[k]).src == k / 4 && es[k].dst == grid_dst(n, r, k)
            && es[k].weight == 0
}

/// All four neighbors of a grid node are grid nodes.
pub proof fn lemma_grid_bounds(n: int, r: int, i: int)
    requires
        1 <= r,
        n % r == 0,
        0 <= i < n,
    ensures
        0 <= grid_left(n, r, i) < n,
        0 <= grid_right(n, r, i) < n,
        0 <= grid_up(n, r, i) < n,
        0 <= grid_down(n, r, i) < n,
        r <= n,
{
    let c = n / r;
    lemma_fundamental_div_mod(n, r);
    lemma_fundamental_div_mod(i, r);
    let q = i / r;
    let s = i % r;
    assert(0 <= s < r);
    assert(0 <= q <= c - 1 && 1 <= c && r <= n && q * r == i - s && (q < c - 1 ==> i + r < n) && (s
        == 0 ==> i + r - 1 < n) && 0 <= q * r && (q >= 1 ==> r <= i) && (q == 0 ==> i < r) && (s < r
        - 1 ==> i + 1 < n) && (s == r - 1 ==> i >= r - 1)) by (nonlinear_arith)
        requires
            n == r * c,
            i == r * q + s,
            0 <= s < r,
            0 <= i < n,
            1 <= r,
    ;
}

/// Each neighbor map is inverted by its opposite, so every grid node is
/// the left (right, up, down) neighbor of exactly one node.
pub proof fn lemma_grid_inverse(n: int, r: int, i: int)
    requires
        1 <= r,
        n % r == 0,
        0 <= i < n,
    ensures
        grid_right(n, r, grid_left(n, r, i)) == i,
        grid_left(n, r, grid_right(n, r, i)) == i,
        grid_down(n, r, grid_up(n, r, i)) == i,
        grid_up(n, r, grid_down(n, r, i)) == i,
{
    let c = n / r;
    lemma_fundamental_div_mod(n, r);
    lemma_fundamental_div_mod(i, r);
    let q = i / r;
    let s = i % r;
    lemma_grid_bounds(n, r, i);
    assert(q <= c - 1) by (nonlinear_arith)
        requires
            n == r * c,
            i == r * q + s,
            0 <= s < r,
            0 <= i < n,
            1 <= r,
    ;
    // Row rotation: left then right (and right then left) is the identity.
    if s == 0 {
        assert(i + r - 1 == q * r + (r - 1)) by (nonlinear_arith)
            requires
                i == r * q + s,
                s == 0,
        ;
        lemma_fundamental_div_mod_converse(i + r - 1, r, q, r - 1);
    } else {
        assert(i - 1 == q * r + (s - 1)) by (nonlinear_arith)
            requires
                i == r * q + s,
        ;
        lemma_fundamental_div_mod_converse(i - 1, r, q, s - 1);
    }
    if s == r - 1 {
        assert(i + 1 - r == q * r + 0) by (nonlinear_arith)
            requires
                i == r * q + s,
                s == r - 1,
        ;
        lemma_fundamental_div_mod_converse(i + 1 - r, r, q, 0);
    } else {
        assert(i + 1 == q * r + (s + 1)) by (nonlinear_arith)
            requires
                i == r * q + s,
        ;
        lemma_fundamental_div_mod_converse(i + 1, r, q, s + 1);
    }
    // Column rotation: up then down (and down then up) is the identity.
    if q == 0 {
        assert(n - r + i == (c - 1) * r + s) by (nonlinear_arith)
            requires
                n == r * c,
                i == r * q + s,
                q == 0,
        ;
        lemma_fundamental_div_mod_converse(n - r + i, r, c - 1, s);
    } else {
        assert(i - r == (q - 1) * r + s) by (nonlinear_arith)
            requires
                i == r * q + s,
        ;
        lemma_fundamental_div_mod_converse(i - r, r, q - 1, s);
    }
    if q == c - 1 {
        assert(s == 0 * r + s) by (nonlinear_arith);
        lemma_fundamental_div_mod_converse(s, r, 0, s);
        assert(n - r + s == i) by (nonlinear_arith)
            requires
                n == r * c,
                i == r * q + s,
                q == c - 1,
        ;
    } else {
        assert(i + r == (q + 1) * r + s) by (nonlinear_arith)
            requires
                i == r * q + s,
        ;
        lemma_fundamental_div_mod_converse(i + r, r, q + 1, s);
    }
}

/// How many of the first `m` nodes have `v` as one of their neighbors,
/// counted with multiplicity over the four directions.
pub open spec fn grid_preimages(n: int, r: int, m: int, v: int) -> int
    decreases m,
{
    if m <= 0 {
        0
    } else {
        grid_preimages(n, r, m - 1, v) + (if grid_left(n, r, m - 1) == v {
            1int
        } else {
            0int
        }) + (if grid_right(n, r, m - 1) == v {
            1int
        } else {
            0int
        }) + (if grid_up(n, r, m - 1) == v {
            1int
        } else {
            0int
        }) + (if grid_down(n, r, m - 1) == v {
            1int
        } else {
            0int
        })
    }
}

/// Among the first `m` nodes, `v` is seen once per opposite neighbor that
/// is already below `m`.
pub proof fn lemma_grid_preimages(n: int, r: int, m: int, v: int)
    requires
        1 <= r,
        n % r == 0,
        0 <= v < n,
        0 <= m <= n,
    ensures
        grid_preimages(n, r, m, v) == (if grid_right(n, r, v) < m {
            1int
        } else {
            0int
        }) + (if grid_left(n, r, v) < m {
            1int
        } else {
            0int
        }) + (if grid_down(n, r, v) < m {
            1int
        } else {
            0int
        }) + (if grid_up(n, r, v) < m {
            1int
        } else {
            0int
        }),
    decreases m,
{
    lemma_grid_bounds(n, r, v);
    lemma_grid_inverse(n, r, v);
    if m > 0 {
        lemma_grid_preimages(n, r, m - 1, v);
        lemma_grid_inverse(n, r, m - 1);
        assert((grid_left(n, r, m - 1) == v) == (m - 1 == grid_right(n, r, v)));
        assert((grid_right(n, r, m - 1) == v) == (m - 1 == grid_left(n, r, v)));
        assert((grid_up(n, r, m - 1) == v) == (m - 1 == grid_down(n, r, v)));
        assert((grid_down(n, r, m - 1) == v) == (m - 1 == grid_up(n, r, v)));
    }
}

/// In a full grid, every node has out-degree and in-degree exactly four.
pub proof fn lemma_manhattan_degrees(es: Seq<Edge>, n: int, r: int, m: int, v: int)
    requires
        1 <= r,
        n % r == 0,
        manhattan_form(es, n, r),
        0 <= v < n,
        0 <= m <= n,
    ensures
        out_degree(es.take(4 * m), v) == if v < m {
            4int
        } else {
            0int
        },
        in_degree(es.take(4 * m), v) == grid_preimages(n, r, m, v),
    decreases m,
{
    if m == 0 {
        assert(es.take(0) =~= Seq::<Edge>::empty());
    } else {
        lemma_manhattan_degrees(es, n, r, m - 1, v);
        let p = es.take(4 * (m - 1));
        let k0 = 4 * (m - 1);
        assert(es.take(4 * m) =~= p.push(es[k0]).push(es[k0 + 1]).push(es[k0 + 2]).push(
            es[k0 + 3],
        ));
        lemma_push(p, es[k0], v);
        lemma_push(p.push(es[k0]), es[k0 + 1], v);
        lemma_push(p.push(es[k0]).push(es[k0 + 1]), es[k0 + 2], v);
        lemma_push(p.push(es[k0]).push(es[k0 + 1]).push(es[k0 + 2]), es[k0 + 3], v);
        assert(k0 / 4 == m - 1 && k0 % 4 == 0 && (k0 + 1) / 4 == m - 1 && (k0 + 1) % 4 == 1 && (k0
            + 2) / 4 == m - 1 && (k0 + 2) % 4 == 2 && (k0 + 3) / 4 == m - 1 && (k0 + 3) % 4
            == 3) by (nonlinear_arith)
            requires
                k0 == 4 * (m - 1),
                0 <= m,
        ;
    }
}

/// Builds the toroidal grid ("manhattan") topology: succeeds exactly when
/// the row length is positive and divides the node count, and then yields
/// the full grid with placeholder weights; otherwise nothing is built and
/// the dimension mismatch is reported.
pub fn create_manhattan_physical_topology(n: usize, r: usize) -> (res: Result<Graph, Error>)
    ensures
        match res {
            Ok(g) => {
                &&& 1 <= r && n as int % r as int == 0
                &&& g.n == n
                &&& g.wf()
                &&& manhattan_form(g.edges@, n as int, r as int)
                &&& forall|v: int|
                    0 <= v < n ==> out_degree(g.edges@, v) == 4 && in_degree(g.edges@, v) == 4
            },
            Err(e) => e == Error::DimensionMismatch && (r == 0 || n as int % r as int != 0),
        },
        res is Err <==> (r == 0 || n as int % r as int != 0),
{
    if r == 0 || n % r != 0 {
        return Err(Error::DimensionMismatch);
    }
    let c = n / r;
    let mut g = Graph::new(n);
    let mut i: usize = 0;
    while i < n
        invariant
            1 <= r,
            n % r == 0,
            c == n / r,
            i <= n,
            g.n == n,
            g.wf(),
            g.edges@.len() == 4 * i,
            forall|k: int|
                0 <= k < g.edges@.len() ==> (#[trigger] g.edges@[k]).src == k / 4
                    && g.edges@[k].dst == grid_dst(n as int, r as int, k) && g.edges@[k].weight
                    == 0,
        decreases n - i,
    {
        proof {
            lemma_grid_bounds(n as int, r as int, i as int);
            lemma_fundamental_div_mod(i as int, r as int);
            lemma_fundamental_div_mod(n as int, r as int);
            assert(c >= 1) by (nonlinear_arith)
                requires
                    n as int == r as int * (c as int) + (n as int % r as int),
                    n as int % r as int == 0,
                    r as int <= n as int,
                    1 <= r as int,
            ;
            let k0 = 4 * i as int;
            assert(k0 / 4 == i as int && k0 % 4 == 0 && (k0 + 1) / 4 == i as int && (k0 + 1) % 4
                == 1 && (k0 + 2) / 4 == i as int && (k0 + 2) % 4 == 2 && (k0 + 3) / 4 == i as int
                && (k0 + 3) % 4 == 3) by (nonlinear_arith)
                requires
                    k0 == 4 * i as int,
                    0 <= i,
            ;
        }
        let le = if i % r == 0 {
            i + r - 1
        } else {
            i - 1
        };
        let ri = if i % r == r - 1 {
            i + 1 - r
        } else {
            i + 1
        };
        let up = if i / r == 0 {
            n - r + i
        } else {
            i - r
        };
        let dn = if i / r == c - 1 {
            i % r
        } else {
            i + r
        };
        g.add_edge(i, le, 0);
        g.add_edge(i, ri, 0);
        g.add_edge(i, up, 0);
        g.add_edge(i, dn, 0);
        i = i + 1;
    }
    proof {
        assert forall|v: int| 0 <= v < n implies out_degree(g.edges@, v) == 4 && in_degree(
            g.edges@,
            v,
        ) == 4 by {
            lemma_manhattan_degrees(g.edges@, n as int, r as int, n as int, v);
            assert(g.edges@.take(4 * n as int) =~= g.edges@);
            lemma_grid_preimages(n as int, r as int, n as int, v);
            lemma_grid_bounds(n as int, r as int, v);
        }
    }
    Ok(g)
}

/// Row and column of each torus neighbor: left and right rotate within
/// the row, up and down rotate within the column.
pub proof fn lemma_grid_coords(n: int, r: int, i: int)
    requires
        1 <= r,
        n % r == 0,
        0 <= i < n,
    ensures
        grid_left(n, r, i) / r == i / r,
        grid_left(n, r, i) % r == (if i % r == 0 {
            r - 1
        } else {
            i % r - 1
        }),
        grid_right(n, r, i) / r == i / r,
        grid_right(n, r, i) % r == (if i % r == r - 1 {
            0int
        } else {
            i % r + 1
        }),
        grid_up(n, r, i) / r == (if i / r == 0 {
            n / r - 1
        } else {
            i / r - 1
        }),
        grid_up(n, r, i) % r == i % r,
        grid_down(n, r, i) / r == (if i / r == n / r - 1 {
            0int
        } else {
            i / r + 1
        }),
        grid_down(n, r, i) % r == i % r,
{
    let c = n / r;
    lemma_fundamental_div_mod(n, r);
    lemma_fundamental_div_mod(i, r);
    let q = i / r;
    let s = i % r;
    lemma_grid_bounds(n, r, i);
    assert(q <= c - 1) by (nonlinear_arith)
        requires
            n == r * c,
            i == r * q + s,
            0 <= s < r,
            0 <= i < n,
            1 <= r,
    ;
    if s == 0 {
        assert(i + r - 1 == q * r + (r - 1)) by (nonlinear_arith)
            requires
                i == r * q + s,
                s == 0,
        ;
        lemma_fundamental_div_mod_converse(i + r - 1, r, q, r - 1);
    } else {
        assert(i - 1 == q * r + (s - 1)) by (nonlinear_arith)
            requires
                i == r * q + s,
        ;
        lemma_fundamental_div_mod_converse(i - 1, r, q, s - 1);
    }
    if s == r - 1 {
        assert(i + 1 - r == q * r + 0) by (nonlinear_arith)
            requires
                i == r * q + s,
                s == r - 1,
        ;
        lemma_fundamental_div_mod_converse(i + 1 - r, r, q, 0);
    } else {
        assert(i + 1 == q * r + (s + 1)) by (nonlinear_arith)
            requires
                i == r * q + s,
        ;
        lemma_fundamental_div_mod_converse(i + 1, r, q, s + 1);
    }
    if q == 0 {
        assert(n - r + i == (c - 1) * r + s) by (nonlinear_arith)
            requires
                n == r * c,
                i == r * q + s,
                q == 0,
        ;
        lemma_fundamental_div_mod_converse(n - r + i, r, c - 1, s);
    } else {
        assert(i - r == (q - 1) * r + s) by (nonlinear_arith)
            requires
                i == r * q + s,
        ;
        lemma_fundamental_div_mod_converse(i - r, r, q - 1, s);
    }
    if q == c - 1 {
        assert(s == 0 * r + s) by (nonlinear_arith);
        lemma_fundamental_div_mod_converse(s, r, 0, s);
    } else {
        assert(i + r == (q + 1) * r + s) by (nonlinear_arith)
            requires
                i == r * q + s,
        ;
        lemma_fundamental_div_mod_converse(i + r, r, q + 1, s);
    }
}

/// With at least three rows and three columns, the four neighbors of a
/// node are pairwise distinct and none is the node itself.
pub proof fn lemma_grid_distinct(n: int, r: int, i: int)
    requires
        3 <= r,
        n % r == 0,
        3 <= n / r,
        0 <= i < n,
    ensures
        grid_left(n, r, i) != i,
        grid_right(n, r, i) != i,
        grid_up(n, r, i) != i,
        grid_down(n, r, i) != i,
        grid_left(n, r, i) != grid_right(n, r, i),
        grid_left(n, r, i) != grid_up(n, r, i),
        grid_left(n, r, i) != grid_down(n, r, i),
        grid_right(n, r, i) != grid_up(n, r, i),
        grid_right(n, r, i) != grid_down(n, r, i),
        grid_up(n, r, i) != grid_down(n, r, i),
{
    lemma_grid_coords(n, r, i);
    lemma_grid_bounds(n, r, i);
    lemma_fundamental_div_mod(i, r);
    lemma_fundamental_div_mod(n, r);
    let c = n / r;
    let q = i / r;
    let s = i % r;
    assert(q <= c - 1) by (nonlinear_arith)
        requires
            n == r * c,
            i == r * q + s,
            0 <= s < r,
            0 <= i < n,
            1 <= r,
    ;
    // Nodes with different rows or columns differ; the coordinate facts
    // above separate every pair given three rows and three columns.
}

/// A grid with at least three rows and three columns is simple: no
/// self-loops and no repeated endpoint pair.
pub proof fn lemma_grid_simple(es: Seq<Edge>, n: int, r: int)
    requires
        manhattan_form(es, n, r),
        3 <= r,
        n % r == 0,
        3 <= n / r,
    ensures
        simple(es),
{
    assert forall|i: int| 0 <= i < es.len() implies (#[trigger] es[i]).src != es[i].dst by {
        lemma_fundamental_div_mod(i, 4);
        let node = i / 4;
        assert(0 <= node < n) by (nonlinear_arith)
            requires
                i == 4 * node + i % 4,
                0 <= i % 4 < 4,
                0 <= i < 4 * n,
        ;
        lemma_grid_distinct(n, r, node);
    }
    assert forall|i: int, j: int| 0 <= i < j < es.len() implies !((#[trigger] es[i]).src == (
    #[trigger] es[j]).src && es[i].dst == es[j].dst) by {
        lemma_fundamental_div_mod(i, 4);
        lemma_fundamental_div_mod(j, 4);
        let ni = i / 4;
        let nj = j / 4;
        assert(0 <= ni < n && 0 <= nj < n) by (nonlinear_arith)
            requires
                i == 4 * ni + i % 4,
                j == 4 * nj + j % 4,
                0 <= i % 4 < 4,
                0 <= j % 4 < 4,
                0 <= i < 4 * n,
                0 <= j < 4 * n,
        ;
        if ni == nj {
            assert(i % 4 != j % 4);
            lemma_grid_distinct(n, r, ni);
        }
    }
}

/// Every node is linked to its right and down neighbor.
proof fn lemma_grid_hop(es: Seq<Edge>, n: int, r: int, i: int)
    requires
        manhattan_form(es, n, r),
        1 <= r,
        n % r == 0,
        0 <= i < n,
    ensures
        linked(es, None, i, grid_right(n, r, i)),
        linked(es, None, i, grid_down(n, r, i)),
{
    let k1 = 4 * i + 1;
    let k3 = 4 * i + 3;
    assert(k1 / 4 == i && k1 % 4 == 1 && k3 / 4 == i && k3 % 4 == 3 && 0 <= k1 < 4 * n && 0 <= k3
        < 4 * n) by (nonlinear_arith)
        requires
            k1 == 4 * i + 1,
            k3 == 4 * i + 3,
            0 <= i < n,
    ;
    assert(es[k1].src == i && es[k1].dst == grid_right(n, r, i));
    assert(es[k3].src == i && es[k3].dst == grid_down(n, r, i));
    assert(crate::route::edge_ok(None, k1) && crate::route::edge_ok(None, k3));
}

/// Moving right `steps` times reaches the node `steps` columns over in
/// the same row, wrapping at the row boundary.
proof fn lemma_grid_row_reach(es: Seq<Edge>, n: int, r: int, i: int, steps: int)
    requires
        manhattan_form(es, n, r),
        1 <= r,
        n % r == 0,
        0 <= i < n,
        0 <= steps < r,
    ensures
        reachable(
            es,
            None,
            i,
            (i / r) * r + (if i % r + steps < r {
                i % r + steps
            } else {
                i % r + steps - r
            }),
        ),
    decreases steps,
{
    let c = n / r;
    let q = i / r;
    let s = i % r;
    lemma_fundamental_div_mod(i, r);
    lemma_fundamental_div_mod(n, r);
    assert(q <= c - 1 && q * r == i - s) by (nonlinear_arith)
        requires
            n == r * c,
            i == r * q + s,
            0 <= s < r,
            0 <= i < n,
            1 <= r,
    ;
    if steps == 0 {
        lemma_reachable_refl(es, None, i);
    } else {
        lemma_grid_row_reach(es, n, r, i, steps - 1);
        let sprev = if s + steps - 1 < r {
            s + steps - 1
        } else {
            s + steps - 1 - r
        };
        let prev = q * r + sprev;
        assert(0 <= sprev < r);
        assert(0 <= prev < n) by (nonlinear_arith)
            requires
                prev == q * r + sprev,
                0 <= sprev < r,
                0 <= q <= c - 1,
                n == r * c,
                1 <= r,
        ;
        lemma_fundamental_div_mod_converse(prev, r, q, sprev);
        lemma_grid_hop(es, n, r, prev);
        assert(grid_right(n, r, prev) == q * r + (if s + steps < r {
            s + steps
        } else {
            s + steps - r
        }));
        lemma_reachable_extend(es, None, i, prev, grid_right(n, r, prev));
    }
}

/// Moving down `steps` times reaches the node `steps` rows below in the
/// same column, wrapping at the column boundary.
proof fn lemma_grid_col_reach(es: Seq<Edge>, n: int, r: int, i: int, steps: int)
    requires
        manhattan_form(es, n, r),
        1 <= r,
        n % r == 0,
        0 <= i < n,
        0 <= steps < n / r,
    ensures
        reachable(
            es,
            None,
            i,
            (if i / r + steps < n / r {
                i / r + steps
            } else {
                i / r + steps - n / r
            }) * r + i % r,
        ),
    decreases steps,
{
    let c = n / r;
    let q = i / r;
    let s = i % r;
    lemma_fundamental_div_mod(i, r);
    lemma_fundamental_div_mod(n, r);
    assert(q <= c - 1) by (nonlinear_arith)
        requires
            n == r * c,
            i == r * q + s,
            0 <= s < r,
            0 <= i < n,
            1 <= r,
    ;
    if steps == 0 {
        lemma_reachable_refl(es, None, i);
        assert(q * r + s == i) by (nonlinear_arith)
            requires
                i == r * q + s,
        ;
    } else {
        lemma_grid_col_reach(es, n, r, i, steps - 1);
        let qprev = if q + steps - 1 < c {
            q + steps - 1
        } else {
            q + steps - 1 - c
        };
        let prev = qprev * r + s;
        assert(0 <= qprev <= c - 1);
        assert(0 <= prev < n) by (nonlinear_arith)
            requires
                prev == qprev * r + s,
                0 <= s < r,
                0 <= qprev <= c - 1,
                n == r * c,
                1 <= r,
        ;
        lemma_fundamental_div_mod_converse(prev, r, qprev, s);
        lemma_grid_hop(es, n, r, prev);
        let qnext = if q + steps < c {
            q + steps
        } else {
            q + steps - c
        };
        assert(grid_down(n, r, prev) == qnext * r + s) by (nonlinear_arith)
            requires
                grid_down(n, r, prev) == (if prev / r == c - 1 {
                    prev % r
                } else {
                    prev + r
                }),
                prev == qprev * r + s,
                prev / r == qprev,
                prev % r == s,
                qprev == (if q + steps - 1 < c {
                    q + steps - 1
                } else {
                    q + steps - 1 - c
                }),
                qnext == (if q + steps < c {
                    q + steps
                } else {
                    q + steps - c
                }),
                0 <= q <= c - 1,
                1 <= steps < c,
                n == r * c,
        ;
        lemma_reachable_extend(es, None, i, prev, grid_down(n, r, prev));
    }
}

/// The torus grid is strongly connected: any node reaches any other by
/// rotating along its row and then down its column.
pub proof fn lemma_grid_connected(es: Seq<Edge>, n: int, r: int, a: int, b: int)
    requires
        manhattan_form(es, n, r),
        1 <= r,
        n % r == 0,
        0 <= a < n,
        0 <= b < n,
    ensures
        reachable(es, None, a, b),
{
    let c = n / r;
    lemma_fundamental_div_mod(a, r);
    lemma_fundamental_div_mod(b, r);
    lemma_fundamental_div_mod(n, r);
    let qa = a / r;
    let sa = a % r;
    let qb = b / r;
    let sb = b % r;
    assert(qa <= c - 1 && qb <= c - 1 && 1 <= c) by (nonlinear_arith)
        requires
            n == r * c,
            a == r * qa + sa,
            b == r * qb + sb,
            0 <= sa < r,
            0 <= sb < r,
            0 <= a < n,
            0 <= b < n,
            1 <= r,
    ;
    let steps1 = if sb >= sa {
        sb - sa
    } else {
        sb - sa + r
    };
    lemma_grid_row_reach(es, n, r, a, steps1);
    let mid = qa * r + sb;
    assert(0 <= mid < n) by (nonlinear_arith)
        requires
            mid == qa * r + sb,
            0 <= sb < r,
            0 <= qa <= c - 1,
            n == r * c,
            1 <= r,
    ;
    lemma_fundamental_div_mod_converse(mid, r, qa, sb);
    let steps2 = if qb >= qa {
        qb - qa
    } else {
        qb - qa + c
    };
    lemma_grid_col_reach(es, n, r, mid, steps2);
    assert((if qa + steps2 < c {
        qa + steps2
    } else {
        qa + steps2 - c
    }) * r + sb == b) by (nonlinear_arith)
        requires
            b == r * qb + sb,
            steps2 == (if qb >= qa {
                qb - qa
            } else {
                qb - qa + c
            }),
            0 <= qa <= c - 1,
            0 <= qb <= c - 1,
    ;
    lemma_reachable_trans(es, None, a, mid, b);
}

} // verus!
