use lightpath::graph::Graph;
use lightpath::refine::{refine, refine_step, total_weight, RefineStep};
use lightpath::rng::Seed;
use lightpath::seed::parse_seed;
use lightpath::Error;

#[test]
fn refine_step_redistributes_load_exactly() {
    // Hottest link 0->1 carries 10; the detour 0->2->1 is empty.
    // Half the gap (5) moves onto each detour link, so the total grows
    // by (hops - 1) * overflow = 5.
    let mut g = Graph::new(3);
    g.add_edge(0, 1, 10);
    g.add_edge(0, 2, 0);
    g.add_edge(2, 1, 0);
    assert_eq!(total_weight(&g), 10);
    let r = refine_step(&mut g);
    assert_eq!(r, RefineStep::Split { edge: 0, hops: 2, overflow: 5 });
    assert_eq!(g.edge_at(0).weight, 5);
    assert_eq!(g.edge_at(1).weight, 5);
    assert_eq!(g.edge_at(2).weight, 5);
    assert_eq!(total_weight(&g), 15);
}

#[test]
fn refine_step_with_a_balanced_detour_keeps_the_total() {
    // The hottest link and the hottest link of its detour carry the same
    // load, so the overflow is zero and nothing moves.
    let mut g = Graph::new(3);
    g.add_edge(0, 1, 5);
    g.add_edge(0, 2, 5);
    g.add_edge(2, 1, 5);
    let before = total_weight(&g);
    let r = refine_step(&mut g);
    assert_eq!(r, RefineStep::Split { edge: 0, hops: 2, overflow: 0 });
    assert_eq!(total_weight(&g), before);
}

#[test]
fn refine_step_skips_when_no_detour_exists() {
    let mut g = Graph::new(2);
    g.add_edge(0, 1, 9);
    let r = refine_step(&mut g);
    assert_eq!(r, RefineStep::NoAlternatePath);
    assert_eq!(g.edge_at(0).weight, 9);
}

#[test]
fn refine_step_on_an_empty_graph_does_nothing() {
    let mut g = Graph::new(2);
    assert_eq!(refine_step(&mut g), RefineStep::NoEdges);
}

#[test]
fn seed_1234_parses_into_the_low_word() {
    let sd = parse_seed(b"1234").unwrap();
    assert_eq!((sd.w0, sd.w1, sd.w2, sd.w3), (0, 0, 0, 1234));
}

#[test]
fn seed_parsing_splits_words_most_significant_first() {
    // 2^96 + 2 * 2^64 + 3 * 2^32 + 4
    let sd = parse_seed(b"79228162551157825753847955460").unwrap();
    assert_eq!((sd.w0, sd.w1, sd.w2, sd.w3), (1, 2, 3, 4));
}

#[test]
fn seed_largest_value_parses() {
    let sd = parse_seed(b"340282366920938463463374607431768211455").unwrap();
    assert_eq!((sd.w0, sd.w1, sd.w2, sd.w3), (u32::MAX, u32::MAX, u32::MAX, u32::MAX));
}

#[test]
fn seed_out_of_range_is_invalid() {
    let r = parse_seed(b"340282366920938463463374607431768211456");
    assert_eq!(r.unwrap_err(), Error::InvalidSeed);
}

#[test]
fn seed_with_stray_characters_is_invalid() {
    assert_eq!(parse_seed(b"12a4").unwrap_err(), Error::InvalidSeed);
    assert_eq!(parse_seed(b"").unwrap_err(), Error::InvalidSeed);
    assert_eq!(parse_seed(b"-5").unwrap_err(), Error::InvalidSeed);
    assert_eq!(parse_seed(b" 12").unwrap_err(), Error::InvalidSeed);
}

#[test]
fn seed_leading_zeros_are_plain_decimal() {
    let sd = parse_seed(b"000").unwrap();
    assert_eq!((sd.w0, sd.w1, sd.w2, sd.w3), (0, 0, 0, 0));
    let sd2 = parse_seed(b"007").unwrap();
    assert_eq!(sd2.w3, 7);
}

#[test]
fn refine_driver_reports_each_iteration() {
    // First iteration splits the hot link (moving 5 onto each detour
    // hop); the second finds everything level and moves nothing.
    let mut g = Graph::new(3);
    g.add_edge(0, 1, 10);
    g.add_edge(0, 2, 0);
    g.add_edge(2, 1, 0);
    let steps = refine(&mut g, 2);
    assert_eq!(steps.len(), 2);
    assert_eq!(steps[0], RefineStep::Split { edge: 0, hops: 2, overflow: 5 });
    assert_eq!(steps[1], RefineStep::Split { edge: 0, hops: 2, overflow: 0 });
    assert_eq!(total_weight(&g), 15);
}

#[test]
fn refine_driver_keeps_skipping_without_a_detour() {
    let mut g = Graph::new(2);
    g.add_edge(0, 1, 9);
    g.add_edge(1, 0, 4);
    let steps = refine(&mut g, 3);
    assert_eq!(steps.len(), 3);
    for s in &steps {
        assert_eq!(*s, RefineStep::NoAlternatePath);
    }
    assert_eq!(g.edge_at(0).weight, 9);
    assert_eq!(g.edge_at(1).weight, 4);
}

#[test]
fn refine_step_never_raises_the_peak() {
    let mut g = Graph::new(4);
    g.add_edge(0, 1, 100);
    g.add_edge(0, 2, 30);
    g.add_edge(2, 1, 60);
    g.add_edge(1, 3, 7);
    let before_peak = 100u64;
    let r = refine_step(&mut g);
    assert!(matches!(r, RefineStep::Split { .. }));
    for i in 0..g.edge_count() {
        assert!(g.edge_at(i).weight <= before_peak);
    }
    // The split link drops to the midpoint of itself and the detour's
    // hottest link: (100 + 60) / 2 = 80; each detour link gains 20.
    assert_eq!(g.edge_at(0).weight, 80);
    assert_eq!(g.edge_at(1).weight, 50);
    assert_eq!(g.edge_at(2).weight, 80);
    assert_eq!(g.edge_at(3).weight, 7);
}
