//! Degree-bounded physical network topology synthesis.
//!
//! Given a node count, a per-node port bound and a seed, the library
//! generates a complete logical demand graph, builds a physical topology
//! (a greedy Hamiltonian cycle with opportunistic augmentation, or a
//! toroidal manhattan grid), embeds every logical demand onto physical
//! links along load-aware shortest paths, optionally smooths peak load by
//! splitting traffic off the hottest link, and checks flow conservation.
//!
//! Demand and load values are integer load units; all arithmetic is exact.
#![verifier::loop_isolation(false)]
use vstd::prelude::*;

pub mod builder;
pub mod demand;
pub mod flow;
pub mod graph;
pub mod grid;
pub mod refine;
pub mod rng;
pub mod seed;
pub mod route;

verus! {

/// The failures the pipeline distinguishes.
///
/// `InvalidSeed` and `DimensionMismatch` are configuration errors raised
/// before any computation; `NoPathFound` means a demand could not be
/// routed over the physical graph; `InfeasibleEmbedding` means the
/// physical graph cannot carry the demand exactly (or flow conservation
/// failed); `RenderingFailure` is reserved for callers that draw the
/// resulting graph with an external tool.
#[derive(Clone, Copy, Debug, PartialEq, Eq, Structural)]
pub enum Error {
    InvalidSeed,
    DimensionMismatch,
    NoPathFound,
    InfeasibleEmbedding,
    RenderingFailure,
}

/// The generator state a seed selects.
pub open spec fn seeded_state(seed: crate::rng::Seed) -> crate::rng::XorShift {
    crate::rng::XorShift { x: seed.w0, y: seed.w1, z: seed.w2, w: seed.w3 }
}

/// Runs the whole pipeline: demand generation, topology construction
/// (opportunistic with port bound `delta`, or a manhattan grid when a row
/// length is given), traffic embedding, optional load-splitting
/// refinement, and the conservation check.
///
/// On success the returned graph has `n` nodes, respects the mode's
/// degree bounds, satisfies exact flow conservation against the seeded
/// demand matrix, and comes with its maximum link load. The opportunistic
/// mode always succeeds, and so does the manhattan mode whenever the grid
/// is a real torus (at least three rows and three columns); the manhattan
/// mode fails with `DimensionMismatch` exactly when the row length is
/// zero or does not divide `n`, and with `InfeasibleEmbedding` when the
/// grid degenerates into parallel links or self-loops (row length or
/// column count below three), which no exact embedding can load
/// correctly.
pub fn run(n: usize, delta: usize, seed: crate::rng::Seed, split: bool, manhattan: Option<
    usize,
>) -> (r: Result<(crate::graph::Graph, u64), Error>)
    requires
        2 <= n <= 1024,
        manhattan is None ==> 1 <= delta,
    ensures
        match r {
            Ok(pair) => {
                &&& pair.0.n == n
                &&& pair.0.wf()
                &&& crate::graph::simple(pair.0.edges@)
                &&& crate::flow::balanced(
                    pair.0.edges@,
                    crate::demand::demand_edges(n as int, seeded_state(seed)),
                    n as int,
                )
                &&& pair.0.edges@.len() >= 1
                &&& (exists|i: int|
                    0 <= i < pair.0.edges@.len() && (#[trigger] pair.0.edges@[i]).weight
                        == pair.1)
                &&& (forall|i: int|
                    0 <= i < pair.0.edges@.len() ==> (#[trigger] pair.0.edges@[i]).weight
                        <= pair.1)
                &&& (manhattan is None ==> (forall|v: int|
                    0 <= v < n ==> crate::graph::out_degree(pair.0.edges@, v) <= delta
                        && crate::graph::in_degree(pair.0.edges@, v) <= delta)
                    && crate::builder::spanning_cycle(pair.0.edges@, n as int))
                &&& (manhattan is Some ==> (forall|v: int|
                    0 <= v < n ==> crate::graph::out_degree(pair.0.edges@, v) == 4
                        && crate::graph::in_degree(pair.0.edges@, v) == 4))
            },
            Err(e) => e != Error::InvalidSeed && e != Error::RenderingFailure,
        },
        manhattan is None ==> r is Ok,
        (match manhattan {
            Some(rl) => 3 <= rl && (n as int) % (rl as int) == 0 && 3 <= n / rl,
            None => false,
        }) ==> r is Ok,
        r == Err::<(crate::graph::Graph, u64), Error>(Error::DimensionMismatch) <==> (match manhattan {
            Some(rl) => rl == 0 || (n as int) % (rl as int) != 0,
            None => false,
        }),
{
    let ghost s0 = seeded_state(seed);
    let mut rng = crate::rng::XorShift::from_seed(seed);
    let logical = crate::demand::create_logical_topology(n, &mut rng);
    let mut phys: crate::graph::Graph;
    match manhattan {
        Some(rl) => {
            match crate::grid::create_manhattan_physical_topology(n, rl) {
                Ok(g) => {
                    phys = g;
                },
                Err(e) => {
                    return Err(e);
                },
            }
        },
        None => {
            phys = crate::builder::create_opportunistic_physical_topology(&logical, delta);
        },
    }
    let ghost built = phys.edges@;
    proof {
        // A real torus (three or more rows and columns) is simple and
        // strongly connected, so nothing below can fail on it.
        if manhattan is Some && 3 <= manhattan->0 && (n as int) % (manhattan->0 as int) == 0 && 3
            <= n as int / (manhattan->0 as int) {
            crate::grid::lemma_grid_simple(built, n as int, manhattan->0 as int);
            assert forall|k: int|
                0 <= k < logical.edges@.len() implies crate::graph::has_pair(
                built,
                (#[trigger] logical.edges@[k]).src as int,
                logical.edges@[k].dst as int,
            ) || crate::route::reachable(
                built,
                None,
                logical.edges@[k].src as int,
                logical.edges@[k].dst as int,
            ) by {
                crate::grid::lemma_grid_connected(
                    built,
                    n as int,
                    manhattan->0 as int,
                    logical.edges@[k].src as int,
                    logical.edges@[k].dst as int,
                );
            }
        }
    }
    if !crate::graph::is_simple(&phys) {
        return Err(Error::InfeasibleEmbedding);
    }
    proof {
        if manhattan is None {
            assert forall|k: int|
                0 <= k < logical.edges@.len() implies crate::graph::has_pair(
                built,
                (#[trigger] logical.edges@[k]).src as int,
                logical.edges@[k].dst as int,
            ) || crate::route::reachable(
                built,
                None,
                logical.edges@[k].src as int,
                logical.edges@[k].dst as int,
            ) by {
                crate::builder::lemma_spanning_cycle_reachable(
                    built,
                    n as int,
                    logical.edges@[k].src as int,
                    logical.edges@[k].dst as int,
                );
            }
        }
    }
    match crate::flow::embed_demands(&mut phys, &logical) {
        Ok(()) => {},
        Err(e) => {
            return Err(e);
        },
    }
    let ghost loaded = phys.edges@;
    proof {
        assert(crate::graph::same_pairs(built, phys.edges@));
        crate::flow::lemma_same_pairs_simple(built, phys.edges@);
    }
    if split {
        let _ = crate::refine::refine(&mut phys, n / 3);
    }
    proof {
        assert(crate::graph::same_pairs(built, phys.edges@));
        assert(crate::flow::balanced(phys.edges@, logical.edges@, n as int)) by {
            assert forall|v: int|
                0 <= v < n implies crate::graph::in_sum(phys.edges@, v) + crate::graph::out_sum(
                logical.edges@,
                v,
            ) == crate::graph::out_sum(phys.edges@, v) + crate::graph::in_sum(
                logical.edges@,
                v,
            ) by {
                crate::graph::lemma_net_is_out_minus_in(phys.edges@, v);
                crate::graph::lemma_net_is_out_minus_in(loaded, v);
            }
        }
        crate::flow::lemma_same_pairs_simple(built, phys.edges@);
        if manhattan is None {
            assert forall|v: int|
                0 <= v < n implies crate::graph::out_degree(phys.edges@, v) <= delta
                && crate::graph::in_degree(phys.edges@, v) <= delta by {
                crate::graph::lemma_same_pairs_degrees(built, phys.edges@, v);
            }
        } else {
            assert forall|v: int|
                0 <= v < n implies crate::graph::out_degree(phys.edges@, v) == 4
                && crate::graph::in_degree(phys.edges@, v) == 4 by {
                crate::graph::lemma_same_pairs_degrees(built, phys.edges@, v);
            }
        }
        if manhattan is None {
            crate::builder::lemma_same_pairs_cycle(built, phys.edges@, n as int);
        }
    }
    let maxw = crate::graph::max_edge_weight(&phys);
    proof {
        assert(phys.edges@.len() + logical.edges@.len() <= u64::MAX) by (nonlinear_arith)
            requires
                phys.edges@.len() <= n as int + (n as int) * (n as int - 1) || phys.edges@.len()
                    == 4 * n as int,
                logical.edges@.len() == (n as int) * (n as int - 1),
                2 <= n as int <= 1024,
        ;
    }
    if !crate::flow::validate_conservation(&phys, &logical) {
        return Err(Error::InfeasibleEmbedding);
    }
    Ok((phys, maxw))
}

/// Determinism of demand generation: one seed, one demand matrix. Two
/// complete demand graphs generated from the same seed are identical.
pub proof fn lemma_demand_deterministic(a: crate::graph::Graph, b: crate::graph::Graph, n: int, s0: crate::rng::XorShift)
    requires
        a.edges@ == crate::demand::demand_edges(n, s0),
        b.edges@ == crate::demand::demand_edges(n, s0),
    ensures
        a.edges@ == b.edges@,
{
}

/// Determinism of the opportunistic builder: its whole output — the
/// greedy cycle and every augmentation link — is a pure function of the
/// demand graph and the port bound. Two physical graphs built from the
/// same demands are identical.
pub proof fn lemma_builder_deterministic(
    a: Seq<crate::graph::Edge>,
    b: Seq<crate::graph::Edge>,
    demands: Seq<crate::graph::Edge>,
    n: int,
    delta: int,
)
    requires
        a == crate::builder::built_topology(demands, n, delta),
        b == crate::builder::built_topology(demands, n, delta),
    ensures
        a == b,
{
}

/// Determinism of the manhattan builder: the grid is a pure function of
/// the node count and the row length.
pub proof fn lemma_manhattan_deterministic(
    a: Seq<crate::graph::Edge>,
    b: Seq<crate::graph::Edge>,
    n: int,
    r: int,
)
    requires
        crate::grid::manhattan_form(a, n, r),
        crate::grid::manhattan_form(b, n, r),
    ensures
        a == b,
{
    assert(a =~= b);
}

} // verus!
