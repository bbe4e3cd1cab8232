use lightpath::graph::Graph;
use lightpath::rng::Seed;
use lightpath::run;
use lightpath::Error;

fn seed_1234() -> Seed {
    Seed { w0: 0, w1: 0, w2: 0, w3: 1234 }
}

fn out_degree_of(g: &Graph, v: usize) -> usize {
    let mut c = 0;
    for i in 0..g.edge_count() {
        if g.edge_at(i).src == v {
            c += 1;
        }
    }
    c
}

fn in_degree_of(g: &Graph, v: usize) -> usize {
    let mut c = 0;
    for i in 0..g.edge_count() {
        if g.edge_at(i).dst == v {
            c += 1;
        }
    }
    c
}

fn flow_imbalance(phys: &Graph, logical: &Graph, v: usize) -> i128 {
    let mut d: i128 = 0;
    for i in 0..phys.edge_count() {
        let e = phys.edge_at(i);
        if e.dst == v {
            d += e.weight as i128;
        }
        if e.src == v {
            d -= e.weight as i128;
        }
    }
    for i in 0..logical.edge_count() {
        let e = logical.edge_at(i);
        if e.src == v {
            d += e.weight as i128;
        }
        if e.dst == v {
            d -= e.weight as i128;
        }
    }
    d
}

#[test]
fn four_nodes_delta_one_is_a_single_cycle() {
    let r = run(4, 1, seed_1234(), false, None).unwrap();
    let g = r.0;
    assert_eq!(g.node_count(), 4);
    assert_eq!(g.edge_count(), 4);
    // Each node has exactly one outgoing and one incoming link.
    for v in 0..4 {
        assert_eq!(out_degree_of(&g, v), 1);
        assert_eq!(in_degree_of(&g, v), 1);
    }
    // Following the unique successor from node 0 visits all four nodes
    // and returns to 0: a single directed cycle.
    let mut seen = [false; 4];
    let mut at = 0usize;
    for _ in 0..4 {
        assert!(!seen[at]);
        seen[at] = true;
        let mut next = None;
        for i in 0..g.edge_count() {
            let e = g.edge_at(i);
            if e.src == at {
                next = Some(e.dst);
            }
        }
        at = next.unwrap();
    }
    assert_eq!(at, 0);
    assert!(seen.iter().all(|&s| s));
    // The reported maximum equals the heaviest accumulated load.
    let mut maxw = 0u64;
    for i in 0..g.edge_count() {
        maxw = maxw.max(g.edge_at(i).weight);
    }
    assert_eq!(r.1, maxw);
}

#[test]
fn identical_runs_give_identical_graphs() {
    let a = run(7, 2, seed_1234(), false, None).unwrap();
    let b = run(7, 2, seed_1234(), false, None).unwrap();
    assert_eq!(a.1, b.1);
    assert_eq!(a.0.edge_count(), b.0.edge_count());
    for i in 0..a.0.edge_count() {
        assert_eq!(a.0.edge_at(i), b.0.edge_at(i));
    }
    let c = run(9, 2, seed_1234(), true, Some(3)).unwrap();
    let d = run(9, 2, seed_1234(), true, Some(3)).unwrap();
    assert_eq!(c.1, d.1);
    assert_eq!(c.0.edge_count(), d.0.edge_count());
    for i in 0..c.0.edge_count() {
        assert_eq!(c.0.edge_at(i), d.0.edge_at(i));
    }
}

#[test]
fn manhattan_eight_by_three_is_a_dimension_mismatch() {
    let r = run(8, 1, seed_1234(), false, Some(3));
    assert_eq!(r.unwrap_err(), Error::DimensionMismatch);
}

#[test]
fn manhattan_zero_row_length_is_a_dimension_mismatch() {
    let r = run(6, 1, seed_1234(), false, Some(0));
    assert_eq!(r.unwrap_err(), Error::DimensionMismatch);
}

#[test]
fn manhattan_nine_by_three_has_degree_four_everywhere() {
    let r = run(9, 1, seed_1234(), false, Some(3)).unwrap();
    let g = r.0;
    assert_eq!(g.node_count(), 9);
    assert_eq!(g.edge_count(), 36);
    for v in 0..9 {
        assert_eq!(out_degree_of(&g, v), 4);
        assert_eq!(in_degree_of(&g, v), 4);
    }
}

#[test]
fn manhattan_six_by_three_degenerates_to_parallel_links() {
    // Two rows: the up- and down-neighbor coincide, so the grid has
    // parallel links and no exact embedding exists.
    let r = run(6, 1, seed_1234(), false, Some(3));
    assert_eq!(r.unwrap_err(), Error::InfeasibleEmbedding);
}

#[test]
fn conservation_holds_after_embedding() {
    let r = run(5, 2, seed_1234(), false, None).unwrap();
    let mut rng = lightpath::rng::XorShift::from_seed(seed_1234());
    let logical = lightpath::demand::create_logical_topology(5, &mut rng);
    for v in 0..5 {
        assert_eq!(flow_imbalance(&r.0, &logical, v), 0);
    }
    assert!(lightpath::flow::validate_conservation(&r.0, &logical));
}

#[test]
fn conservation_holds_after_refinement() {
    let r = run(9, 3, seed_1234(), true, None).unwrap();
    let mut rng = lightpath::rng::XorShift::from_seed(seed_1234());
    let logical = lightpath::demand::create_logical_topology(9, &mut rng);
    for v in 0..9 {
        assert_eq!(flow_imbalance(&r.0, &logical, v), 0);
    }
}

#[test]
fn opportunistic_degrees_stay_within_delta() {
    let r = run(6, 2, seed_1234(), false, None).unwrap();
    for v in 0..6 {
        assert!(out_degree_of(&r.0, v) <= 2);
        assert!(in_degree_of(&r.0, v) <= 2);
    }
    let r3 = run(6, 3, Seed { w0: 9, w1: 8, w2: 7, w3: 6 }, false, None).unwrap();
    for v in 0..6 {
        assert!(out_degree_of(&r3.0, v) <= 3);
        assert!(in_degree_of(&r3.0, v) <= 3);
    }
}

#[test]
fn generous_delta_fills_in_the_complete_graph() {
    // With delta >= n - 1 the augmentation pass adds every remaining
    // ordered pair, so the physical graph becomes complete.
    let r = run(4, 5, seed_1234(), false, None).unwrap();
    assert_eq!(r.0.edge_count(), 12);
    for v in 0..4 {
        assert_eq!(out_degree_of(&r.0, v), 3);
        assert_eq!(in_degree_of(&r.0, v), 3);
    }
}

#[test]
fn every_link_carries_at_least_its_direct_demand() {
    // The embedder first loads every link with the demand between its own
    // endpoints; routed demands only add on top.
    let r = run(5, 2, seed_1234(), false, None).unwrap();
    let mut rng = lightpath::rng::XorShift::from_seed(seed_1234());
    let logical = lightpath::demand::create_logical_topology(5, &mut rng);
    for i in 0..r.0.edge_count() {
        let e = r.0.edge_at(i);
        let mut demand = None;
        for k in 0..logical.edge_count() {
            let d = logical.edge_at(k);
            if d.src == e.src && d.dst == e.dst {
                demand = Some(d.weight);
            }
        }
        assert!(e.weight >= demand.unwrap());
    }
}

#[test]
fn manhattan_torus_always_succeeds() {
    // A real torus (three or more rows and columns) carries any demand
    // matrix: both grid sizes embed and balance exactly.
    assert!(run(9, 1, seed_1234(), true, Some(3)).is_ok());
    assert!(run(12, 1, Seed { w0: 4, w1: 3, w2: 2, w3: 1 }, false, Some(4)).is_ok());
}
