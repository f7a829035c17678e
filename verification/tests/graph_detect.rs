use arb_engine::DetectionResult;
use arb_engine::EngineError;
use arb_engine::Price;
use arb_engine::RateGraph;

fn price(num: u64, den: u64) -> Price {
    Price { neg: false, num, den }
}

#[test]
fn upsert_stores_both_directions() {
    let mut g = RateGraph::new();
    g.upsert("A", "B", price(2, 1)).unwrap();
    assert_eq!(g.rate_of("A", "B"), Some((2, 1)));
    assert_eq!(g.rate_of("B", "A"), Some((1, 2)));
    assert_eq!(g.edge_count(), 2);
    assert_eq!(g.vertex_count(), 2);
}

#[test]
fn upsert_inverse_is_exact() {
    let mut g = RateGraph::new();
    // 0.05 = 5/100; the inverse edge is exactly 100/5 = 20
    g.upsert("ETH", "BTC", price(5, 100)).unwrap();
    let (n, d) = g.rate_of("BTC", "ETH").unwrap();
    assert_eq!((n, d), (100, 5));
    assert_eq!(n / d, 20);
}

#[test]
fn upsert_rejects_negative_rate() {
    let mut g = RateGraph::new();
    let r = g.upsert("A", "B", Price { neg: true, num: 2, den: 1 });
    assert_eq!(r, Err(EngineError::InvalidRate));
    assert_eq!(g.edge_count(), 0);
    assert_eq!(g.vertex_count(), 0);
}

#[test]
fn upsert_rejects_zero_rate() {
    let mut g = RateGraph::new();
    g.upsert("A", "B", price(2, 1)).unwrap();
    let r = g.upsert("A", "B", price(0, 1));
    assert_eq!(r, Err(EngineError::InvalidRate));
    assert_eq!(g.edge_count(), 2);
    assert_eq!(g.rate_of("A", "B"), Some((2, 1)));
}

#[test]
fn upsert_rejects_nonfinite_rate() {
    // a zero denominator stands for an infinite or undefined rate
    let mut g = RateGraph::new();
    let r = g.upsert("A", "B", price(2, 0));
    assert_eq!(r, Err(EngineError::InvalidRate));
    assert_eq!(g.edge_count(), 0);
}

#[test]
fn upsert_latest_tick_wins() {
    let mut g = RateGraph::new();
    g.upsert("A", "B", price(2, 1)).unwrap();
    g.upsert("A", "B", price(3, 1)).unwrap();
    assert_eq!(g.edge_count(), 2);
    assert_eq!(g.rate_of("A", "B"), Some((3, 1)));
    assert_eq!(g.rate_of("B", "A"), Some((1, 3)));
}

#[test]
fn snapshot_lists_every_edge() {
    let mut g = RateGraph::new();
    g.upsert("A", "B", price(2, 1)).unwrap();
    g.upsert("B", "C", price(3, 1)).unwrap();
    let snap = g.snapshot_edges();
    assert_eq!(snap.len(), 4);
    assert!(snap.iter().any(|e| e.from == "A" && e.to == "B" && e.num == 2 && e.den == 1));
    assert!(snap.iter().any(|e| e.from == "B" && e.to == "A" && e.num == 1 && e.den == 2));
    assert!(snap.iter().any(|e| e.from == "B" && e.to == "C" && e.num == 3 && e.den == 1));
    assert!(snap.iter().any(|e| e.from == "C" && e.to == "B" && e.num == 1 && e.den == 3));
}

#[test]
fn empty_graph_has_no_arbitrage() {
    let g = RateGraph::new();
    assert_eq!(g.find_arbitrage(), DetectionResult::NoArbitrage);
}

#[test]
fn single_pair_has_no_arbitrage() {
    let mut g = RateGraph::new();
    g.upsert("A", "B", price(2, 1)).unwrap();
    assert_eq!(g.find_arbitrage(), DetectionResult::NoArbitrage);
}

#[test]
fn detector_finds_three_leg_cycle() {
    // A->B 2.0, B->C 3.0, C->A 0.2: product 1.2 > 1
    let mut g = RateGraph::new();
    g.upsert("A", "B", price(2, 1)).unwrap();
    g.upsert("B", "C", price(3, 1)).unwrap();
    g.upsert("C", "A", price(2, 10)).unwrap();
    match g.find_arbitrage() {
        DetectionResult::Arbitrage(cyc) => {
            let c = &cyc.currencies;
            assert_eq!(c.len(), 4);
            assert_eq!(c[0], c[3]);
            let mut set: Vec<&str> = c[0..3].iter().map(|s| s.as_str()).collect();
            set.sort();
            assert_eq!(set, vec!["A", "B", "C"]);
            // a valid rotation of A -> B -> C -> A
            let i = c[0..3].iter().position(|s| s == "A").unwrap();
            assert_eq!(c[(i + 1) % 3], "B");
            assert_eq!(c[(i + 2) % 3], "C");
        }
        DetectionResult::NoArbitrage => panic!("expected an arbitrage cycle"),
    }
}

#[test]
fn detector_no_false_positive_at_product_one() {
    // A->B 2.0 and B->A 0.5: the round trip multiplies by exactly 1
    let mut g = RateGraph::new();
    g.upsert("A", "B", price(2, 1)).unwrap();
    g.upsert("B", "A", price(5, 10)).unwrap();
    assert_eq!(g.find_arbitrage(), DetectionResult::NoArbitrage);
}

#[test]
fn detector_is_idempotent_on_unchanged_graph() {
    let mut g = RateGraph::new();
    g.upsert("A", "B", price(2, 1)).unwrap();
    g.upsert("B", "C", price(3, 1)).unwrap();
    g.upsert("C", "A", price(2, 10)).unwrap();
    let first = g.find_arbitrage();
    let second = g.find_arbitrage();
    assert_eq!(first, second);
    let mut quiet = RateGraph::new();
    quiet.upsert("A", "B", price(2, 1)).unwrap();
    assert_eq!(quiet.find_arbitrage(), quiet.find_arbitrage());
}

#[test]
fn detector_finds_thin_margin_triangle() {
    // product 3/2 * 3/2 * 4001/9000 = 36009/36000, barely above one: too
    // thin for the approximate log weights, so the exact triangle pass
    // must decide it
    let mut g = RateGraph::new();
    g.upsert("A", "B", price(3, 2)).unwrap();
    g.upsert("B", "C", price(3, 2)).unwrap();
    g.upsert("C", "A", price(4001, 9000)).unwrap();
    match g.find_arbitrage() {
        DetectionResult::Arbitrage(cyc) => {
            let c = &cyc.currencies;
            assert_eq!(c[0], c[c.len() - 1]);
            let mut set: Vec<&str> = c[..c.len() - 1].iter().map(|s| s.as_str()).collect();
            set.sort();
            set.dedup();
            assert_eq!(set, vec!["A", "B", "C"]);
        }
        DetectionResult::NoArbitrage => panic!("expected an arbitrage cycle"),
    }
}

#[test]
fn detector_finds_thin_margin_reverse_triangle() {
    // forward product 3/2 * 3/2 * 3999/9000 = 35991/36000 is just under
    // one, so the profit sits on the stored inverse edges: the walk
    // A -> C -> B -> A multiplies by 36000/35991, again too thin for the
    // approximate weights
    let mut g = RateGraph::new();
    g.upsert("A", "B", price(3, 2)).unwrap();
    g.upsert("B", "C", price(3, 2)).unwrap();
    g.upsert("C", "A", price(3999, 9000)).unwrap();
    match g.find_arbitrage() {
        DetectionResult::Arbitrage(cyc) => {
            let c = &cyc.currencies;
            assert_eq!(c[0], c[c.len() - 1]);
            let mut set: Vec<&str> = c[..c.len() - 1].iter().map(|s| s.as_str()).collect();
            set.sort();
            set.dedup();
            assert_eq!(set, vec!["A", "B", "C"]);
        }
        DetectionResult::NoArbitrage => panic!("expected an arbitrage cycle"),
    }
}

#[test]
fn detector_finds_cycle_in_second_component() {
    // the profitable cycle is not reachable from the first-inserted pair
    let mut g = RateGraph::new();
    g.upsert("X", "Y", price(7, 1)).unwrap();
    g.upsert("A", "B", price(2, 1)).unwrap();
    g.upsert("B", "C", price(3, 1)).unwrap();
    g.upsert("C", "A", price(2, 10)).unwrap();
    match g.find_arbitrage() {
        DetectionResult::Arbitrage(cyc) => {
            let c = &cyc.currencies;
            assert!(c.iter().all(|s| s == "A" || s == "B" || s == "C"));
        }
        DetectionResult::NoArbitrage => panic!("expected an arbitrage cycle"),
    }
}
