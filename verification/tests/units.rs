use lightpath::builder::find_start;
use lightpath::demand::create_logical_topology;
use lightpath::flow::embed_demands;
use lightpath::graph::{is_simple, Edge, Graph};
use lightpath::grid::create_manhattan_physical_topology;
use lightpath::rng::{Seed, XorShift};
use lightpath::route::shortest_path;
use lightpath::Error;

#[test]
fn generator_matches_the_xorshift_stream() {
    // An independent xorshift128 next to the library's: the k-th demand
    // weight must be the k-th word of the stream.
    let mut st = [7u32, 11, 13, 17];
    let mut expected = Vec::new();
    for _ in 0..6 {
        let t = st[0] ^ (st[0] << 11);
        let w = (st[3] ^ (st[3] >> 19)) ^ (t ^ (t >> 8));
        st = [st[1], st[2], st[3], w];
        expected.push(w as u64);
    }
    let mut rng = XorShift::from_seed(Seed { w0: 7, w1: 11, w2: 13, w3: 17 });
    let g = create_logical_topology(3, &mut rng);
    assert_eq!(g.edge_count(), 6);
    let pairs = [(0, 1), (0, 2), (1, 0), (1, 2), (2, 0), (2, 1)];
    for k in 0..6 {
        let e = g.edge_at(k);
        assert_eq!((e.src, e.dst), pairs[k]);
        assert_eq!(e.weight, expected[k]);
    }
}

fn demand_graph_3(weights: [u64; 6]) -> Graph {
    // Pairs in enumeration order over three nodes.
    let pairs = [(0, 1), (0, 2), (1, 0), (1, 2), (2, 0), (2, 1)];
    let mut g = Graph::new(3);
    for k in 0..6 {
        g.add_edge(pairs[k].0, pairs[k].1, weights[k]);
    }
    g
}

#[test]
fn find_start_prefers_the_heaviest_cycle_lowest_index_first() {
    // d01=5 d02=6 d10=1 d12=7 d20=9 d21=2.
    // Greedy from 0: 0->2 (6), 2->1 (2), close 1->0 (1): weight 9.
    // Greedy from 1: 1->2 (7), 2->0 (9), close 0->1 (5): weight 21.
    // Greedy from 2: 2->0 (9), 0->1 (5), close 1->2 (7): weight 21.
    // The tie between 1 and 2 goes to the lower index.
    let g = demand_graph_3([5, 6, 1, 7, 9, 2]);
    assert_eq!(find_start(&g), 1);
}

#[test]
fn shortest_path_returns_a_path_exactly_when_one_exists() {
    let mut g = Graph::new(3);
    g.add_edge(0, 1, 4);
    let p = shortest_path(&g, 0, 1, None).unwrap();
    assert_eq!(p, vec![0, 1]);
    assert!(shortest_path(&g, 1, 0, None).is_none());
    // Avoiding the only link makes the target unreachable.
    assert!(shortest_path(&g, 0, 1, Some(0)).is_none());
}

#[test]
fn shortest_path_takes_the_lighter_route() {
    // Two routes from 0 to 3: direct-ish over node 1 with heavy links,
    // or over node 2 with light links.
    let mut g = Graph::new(4);
    g.add_edge(0, 1, 100);
    g.add_edge(1, 3, 100);
    g.add_edge(0, 2, 1);
    g.add_edge(2, 3, 1);
    let p = shortest_path(&g, 0, 3, None).unwrap();
    assert_eq!(p, vec![0, 2, 3]);
}

#[test]
fn embedding_without_a_route_fails_with_no_path_found() {
    let mut rng = XorShift::from_seed(Seed { w0: 1, w1: 2, w2: 3, w3: 4 });
    let logical = create_logical_topology(3, &mut rng);
    // Only one physical link: the demand back to node 0 cannot be routed.
    let mut phys = Graph::new(3);
    phys.add_edge(0, 1, 0);
    let r = embed_demands(&mut phys, &logical);
    assert_eq!(r.unwrap_err(), Error::NoPathFound);
}

#[test]
fn manhattan_builder_six_by_three_has_degree_four() {
    let g = create_manhattan_physical_topology(6, 3).unwrap();
    assert_eq!(g.node_count(), 6);
    assert_eq!(g.edge_count(), 24);
    for v in 0..6 {
        let mut outd = 0;
        let mut ind = 0;
        for i in 0..g.edge_count() {
            if g.edge_at(i).src == v {
                outd += 1;
            }
            if g.edge_at(i).dst == v {
                ind += 1;
            }
        }
        assert_eq!(outd, 4);
        assert_eq!(ind, 4);
    }
}

#[test]
fn manhattan_builder_rejects_bad_dimensions() {
    assert_eq!(create_manhattan_physical_topology(8, 3).unwrap_err(), Error::DimensionMismatch);
    assert_eq!(create_manhattan_physical_topology(5, 0).unwrap_err(), Error::DimensionMismatch);
    assert!(create_manhattan_physical_topology(9, 3).is_ok());
}

#[test]
fn simplicity_check_spots_duplicates_and_self_loops() {
    let mut g = Graph::new(3);
    g.add_edge(0, 1, 0);
    g.add_edge(1, 2, 0);
    assert!(is_simple(&g));
    let mut dup = Graph::new(3);
    dup.add_edge(0, 1, 0);
    dup.add_edge(0, 1, 0);
    assert!(!is_simple(&dup));
    let mut selfloop = Graph::new(3);
    selfloop.add_edge(2, 2, 0);
    assert!(!is_simple(&selfloop));
}

#[test]
fn validator_rejects_an_unbalanced_loading() {
    let mut rng = XorShift::from_seed(Seed { w0: 1, w1: 2, w2: 3, w3: 4 });
    let logical = create_logical_topology(2, &mut rng);
    let mut phys = Graph::new(2);
    phys.add_edge(0, 1, 5);
    // One arbitrary load on one link does not balance a two-way demand.
    assert!(!lightpath::flow::validate_conservation(&phys, &logical));
}

#[test]
fn sorting_orders_demands_heaviest_first_with_fixed_ties() {
    let mut v: Vec<Edge> = Vec::new();
    v.push(Edge { src: 1, dst: 0, weight: 7 });
    v.push(Edge { src: 0, dst: 2, weight: 9 });
    v.push(Edge { src: 0, dst: 1, weight: 7 });
    let s = lightpath::builder::sort_by_demand(v);
    assert_eq!(s[0], Edge { src: 0, dst: 2, weight: 9 });
    assert_eq!(s[1], Edge { src: 0, dst: 1, weight: 7 });
    assert_eq!(s[2], Edge { src: 1, dst: 0, weight: 7 });
}

#[test]
fn find_start_breaks_full_ties_to_the_lowest_index() {
    // Every demand equal: every greedy cycle weighs the same, so the
    // lowest candidate index wins.
    let g = demand_graph_3([4, 4, 4, 4, 4, 4]);
    assert_eq!(find_start(&g), 0);
}

#[test]
fn opportunistic_graph_starts_with_a_spanning_cycle() {
    // The first n arena slots always hold the Hamiltonian cycle, also
    // when extra links are added afterwards.
    let mut rng = XorShift::from_seed(Seed { w0: 5, w1: 6, w2: 7, w3: 8 });
    let logical = create_logical_topology(6, &mut rng);
    let g = lightpath::builder::create_opportunistic_physical_topology(&logical, 3);
    assert!(g.edge_count() >= 6);
    let mut seen = [false; 6];
    let mut at = g.edge_at(0).src;
    for k in 0..6 {
        let e = g.edge_at(k);
        assert_eq!(e.src, at);
        assert!(!seen[at]);
        seen[at] = true;
        at = e.dst;
    }
    assert_eq!(at, g.edge_at(0).src);
    assert!(seen.iter().all(|&s| s));
}
