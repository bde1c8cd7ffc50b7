use cargo_crev::builder::build;
use cargo_crev::distance::{cost_of_level, distances};
use cargo_crev::graph::TrustGraph;
use cargo_crev::model::{Identity, Proof, TrustLevel};
use cargo_crev::store::ProofStore;
use cargo_crev::table::TrustDistances;
use crev_lib::TrustDistanceParams;

fn id(name: &str) -> Identity {
    Identity::new(String::from(name))
}

fn budget(max_distance: u64) -> TrustDistanceParams {
    TrustDistanceParams {
        max_distance,
        high_trust_distance: 0,
        medium_trust_distance: 1,
        low_trust_distance: 5,
    }
}

fn graph(edges: &[(&str, &str, TrustLevel)], blocks: &[(&str, &str)]) -> TrustGraph {
    let mut g = TrustGraph::new();
    for (from, to, level) in edges {
        g.add_trust(&id(from), &id(to), *level);
    }
    for (from, to) in blocks {
        g.add_distrust(&id(from), &id(to));
    }
    g
}

fn listing(table: &TrustDistances) -> Vec<(String, u64)> {
    let mut all = Vec::new();
    for i in 0..table.len() {
        let e = table.entry(i);
        all.push((e.who.id.clone(), e.distance));
    }
    all.sort();
    all
}

fn pairs(items: &[(&str, u64)]) -> Vec<(String, u64)> {
    let mut all: Vec<(String, u64)> = items.iter().map(|(k, d)| (String::from(*k), *d)).collect();
    all.sort();
    all
}

#[test]
fn cost_of_each_level() {
    let p = TrustDistanceParams {
        max_distance: 9,
        high_trust_distance: 2,
        medium_trust_distance: 3,
        low_trust_distance: 7,
    };
    assert_eq!(cost_of_level(&p, TrustLevel::High), 2);
    assert_eq!(cost_of_level(&p, TrustLevel::Medium), 3);
    assert_eq!(cost_of_level(&p, TrustLevel::Low), 7);
}

#[test]
fn root_is_at_zero_in_an_empty_graph() {
    let g = TrustGraph::new();
    let table = distances(&g, &id("root"), &budget(10));
    assert_eq!(table.get(&id("root")), Some(0));
    assert_eq!(listing(&table), pairs(&[("root", 0)]));
}

#[test]
fn root_is_at_zero_with_a_budget_of_zero() {
    let g = graph(&[("root", "a", TrustLevel::Medium)], &[]);
    let table = distances(&g, &id("root"), &budget(0));
    assert_eq!(listing(&table), pairs(&[("root", 0)]));
}

#[test]
fn root_is_at_zero_when_others_trust_it() {
    let g = graph(&[("a", "root", TrustLevel::Low), ("root", "a", TrustLevel::Low)], &[]);
    let table = distances(&g, &id("root"), &budget(10));
    assert_eq!(listing(&table), pairs(&[("root", 0), ("a", 5)]));
}

#[test]
fn root_that_the_graph_does_not_hold_stands_alone() {
    let g = graph(&[("a", "b", TrustLevel::High)], &[]);
    let table = distances(&g, &id("root"), &budget(10));
    assert_eq!(listing(&table), pairs(&[("root", 0)]));
    assert!(!table.contains(&id("a")));
    assert_eq!(table.get(&id("b")), None);
}

#[test]
fn high_then_medium_within_budget_five() {
    let g = graph(&[("root", "a", TrustLevel::High), ("a", "b", TrustLevel::Medium)], &[]);
    let table = distances(&g, &id("root"), &budget(5));
    assert_eq!(table.get(&id("b")), Some(1));
    assert_eq!(table.get(&id("a")), Some(0));
    assert_eq!(listing(&table), pairs(&[("root", 0), ("a", 0), ("b", 1)]));
}

#[test]
fn low_trust_beyond_budget_three() {
    let g = graph(&[("root", "a", TrustLevel::Low), ("a", "b", TrustLevel::High)], &[]);
    let table = distances(&g, &id("root"), &budget(3));
    assert_eq!(table.get(&id("a")), None);
    assert_eq!(table.get(&id("b")), None);
    assert!(!table.contains(&id("b")));
    assert_eq!(listing(&table), pairs(&[("root", 0)]));
}

#[test]
fn a_distance_equal_to_the_budget_is_within_it() {
    let g = graph(&[("root", "a", TrustLevel::Low)], &[]);
    assert_eq!(distances(&g, &id("root"), &budget(5)).get(&id("a")), Some(5));
    assert_eq!(distances(&g, &id("root"), &budget(4)).get(&id("a")), None);
}

#[test]
fn the_cheapest_of_several_paths_counts() {
    let g = graph(
        &[
            ("root", "a", TrustLevel::Low),
            ("root", "b", TrustLevel::Medium),
            ("b", "c", TrustLevel::Medium),
            ("c", "a", TrustLevel::Medium),
            ("a", "d", TrustLevel::High),
        ],
        &[],
    );
    let table = distances(&g, &id("root"), &budget(10));
    assert_eq!(listing(&table), pairs(&[("root", 0), ("b", 1), ("c", 2), ("a", 3), ("d", 3)]));
}

#[test]
fn trust_is_not_followed_backwards() {
    let g = graph(&[("a", "root", TrustLevel::High)], &[]);
    let table = distances(&g, &id("root"), &budget(10));
    assert_eq!(table.get(&id("a")), None);
}

#[test]
fn a_cycle_ends() {
    let g = graph(
        &[
            ("root", "a", TrustLevel::High),
            ("a", "b", TrustLevel::High),
            ("b", "a", TrustLevel::High),
            ("b", "root", TrustLevel::High),
        ],
        &[],
    );
    let table = distances(&g, &id("root"), &budget(0));
    assert_eq!(listing(&table), pairs(&[("root", 0), ("a", 0), ("b", 0)]));
}

#[test]
fn no_edge_shortens_a_distance() {
    let edges = [
        ("root", "a", TrustLevel::Low),
        ("root", "b", TrustLevel::Medium),
        ("b", "a", TrustLevel::Medium),
        ("a", "c", TrustLevel::Medium),
        ("b", "c", TrustLevel::Low),
        ("c", "root", TrustLevel::High),
    ];
    let g = graph(&edges, &[]);
    let p = budget(10);
    let table = distances(&g, &id("root"), &p);
    for (from, to, level) in edges {
        let du = table.get(&id(from)).unwrap();
        let dv = table.get(&id(to)).unwrap();
        assert!(dv <= du + cost_of_level(&p, level));
    }
    assert_eq!(listing(&table), pairs(&[("root", 0), ("b", 1), ("a", 2), ("c", 3)]));
}

#[test]
fn a_larger_budget_keeps_every_distance() {
    let g = graph(
        &[
            ("root", "a", TrustLevel::Medium),
            ("a", "b", TrustLevel::Low),
            ("b", "c", TrustLevel::Low),
            ("root", "c", TrustLevel::Low),
        ],
        &[],
    );
    let small = distances(&g, &id("root"), &budget(5));
    let large = distances(&g, &id("root"), &budget(6));
    assert_eq!(listing(&small), pairs(&[("root", 0), ("a", 1), ("c", 5)]));
    assert_eq!(listing(&large), pairs(&[("root", 0), ("a", 1), ("c", 5), ("b", 6)]));
    for (who, d) in listing(&small) {
        assert_eq!(large.get(&id(&who)), Some(d));
    }
}

#[test]
fn whom_the_root_distrusts_is_absent() {
    let g = graph(
        &[("root", "a", TrustLevel::High), ("a", "x", TrustLevel::High), ("root", "x", TrustLevel::High)],
        &[("root", "x")],
    );
    let table = distances(&g, &id("root"), &budget(10));
    assert_eq!(table.get(&id("x")), None);
    assert_eq!(listing(&table), pairs(&[("root", 0), ("a", 0)]));
}

#[test]
fn nothing_is_reached_through_whom_the_root_distrusts() {
    let g = graph(
        &[("root", "x", TrustLevel::High), ("x", "y", TrustLevel::High)],
        &[("root", "x")],
    );
    let table = distances(&g, &id("root"), &budget(10));
    assert_eq!(listing(&table), pairs(&[("root", 0)]));
}

#[test]
fn root_stays_at_zero_when_it_distrusts_itself() {
    let g = graph(&[("root", "a", TrustLevel::High), ("a", "root", TrustLevel::High)], &[("root", "root")]);
    let table = distances(&g, &id("root"), &budget(10));
    assert_eq!(listing(&table), pairs(&[("root", 0), ("a", 0)]));
}

#[test]
fn distrust_stops_the_edge_of_its_issuer_only() {
    let g = graph(
        &[("root", "a", TrustLevel::High), ("a", "b", TrustLevel::High), ("root", "b", TrustLevel::Low)],
        &[("a", "b")],
    );
    let table = distances(&g, &id("root"), &budget(10));
    assert_eq!(table.get(&id("b")), Some(5));
}

#[test]
fn distrust_without_another_path_leaves_the_target_out() {
    let g = graph(&[("root", "a", TrustLevel::High), ("a", "b", TrustLevel::High)], &[("a", "b")]);
    let table = distances(&g, &id("root"), &budget(10));
    assert_eq!(table.get(&id("b")), None);
    assert_eq!(listing(&table), pairs(&[("root", 0), ("a", 0)]));
}

#[test]
fn distrust_of_an_identity_out_of_reach_counts_for_nothing() {
    let g = graph(&[("root", "b", TrustLevel::Medium)], &[("z", "b")]);
    let table = distances(&g, &id("root"), &budget(10));
    assert_eq!(table.get(&id("b")), Some(1));
}

#[test]
fn a_later_level_for_the_same_pair_replaces_the_earlier() {
    let g = graph(&[("root", "a", TrustLevel::Low), ("root", "a", TrustLevel::High)], &[]);
    assert_eq!(distances(&g, &id("root"), &budget(10)).get(&id("a")), Some(0));
    let h = graph(&[("root", "a", TrustLevel::High), ("root", "a", TrustLevel::Low)], &[]);
    assert_eq!(distances(&h, &id("root"), &budget(10)).get(&id("a")), Some(5));
}

#[test]
fn costs_that_do_not_fit_are_beyond_every_budget() {
    let p = TrustDistanceParams {
        max_distance: u64::MAX,
        high_trust_distance: 1,
        medium_trust_distance: u64::MAX,
        low_trust_distance: u64::MAX - 1,
    };
    let g = graph(
        &[
            ("root", "a", TrustLevel::High),
            ("a", "b", TrustLevel::Medium),
            ("a", "c", TrustLevel::Low),
            ("root", "d", TrustLevel::Medium),
        ],
        &[],
    );
    let table = distances(&g, &id("root"), &p);
    assert_eq!(
        listing(&table),
        pairs(&[("root", 0), ("a", 1), ("c", u64::MAX), ("d", u64::MAX)])
    );
    assert_eq!(table.get(&id("b")), None);
}

#[test]
fn the_table_lists_each_identity_once() {
    let g = graph(
        &[
            ("root", "a", TrustLevel::High),
            ("root", "b", TrustLevel::High),
            ("a", "c", TrustLevel::High),
            ("b", "c", TrustLevel::High),
            ("c", "a", TrustLevel::High),
        ],
        &[],
    );
    let table = distances(&g, &id("root"), &budget(10));
    assert_eq!(table.len(), 4);
    assert_eq!(listing(&table), pairs(&[("root", 0), ("a", 0), ("b", 0), ("c", 0)]));
}

#[test]
fn the_graph_of_a_store_has_its_trust_and_distrust() {
    let mut store = ProofStore::new();
    let proofs = [
        Proof::Trust { from: id("root"), to: id("a"), level: TrustLevel::High, date: 1 },
        Proof::Trust { from: id("a"), to: id("b"), level: TrustLevel::Medium, date: 2 },
        Proof::Trust { from: id("root"), to: id("x"), level: TrustLevel::High, date: 3 },
        Proof::Distrust { from: id("root"), to: id("x"), date: 4 },
        Proof::Trust { from: id("b"), to: id("c"), level: TrustLevel::Low, date: 5 },
    ];
    for p in proofs {
        assert_eq!(store.add(p, true, 100), Ok(()));
    }
    let g = build(&store);
    let table = distances(&g, &id("root"), &budget(5));
    assert_eq!(listing(&table), pairs(&[("root", 0), ("a", 0), ("b", 1)]));
    let wide = distances(&g, &id("root"), &budget(6));
    assert_eq!(listing(&wide), pairs(&[("root", 0), ("a", 0), ("b", 1), ("c", 6)]));
}

#[test]
fn the_same_proof_twice_leaves_the_distances_unchanged() {
    let mut store = ProofStore::new();
    let first = Proof::Trust { from: id("root"), to: id("a"), level: TrustLevel::Medium, date: 1 };
    let second = Proof::Trust { from: id("a"), to: id("b"), level: TrustLevel::Medium, date: 2 };
    assert_eq!(store.add(first.clone(), true, 100), Ok(()));
    assert_eq!(store.add(second.clone(), true, 100), Ok(()));
    let once = listing(&distances(&build(&store), &id("root"), &budget(10)));
    assert_eq!(store.add(second, true, 100), Ok(()));
    assert_eq!(store.add(first, true, 100), Ok(()));
    let twice = listing(&distances(&build(&store), &id("root"), &budget(10)));
    assert_eq!(once, twice);
    assert_eq!(twice, pairs(&[("root", 0), ("a", 1), ("b", 2)]));
}

#[test]
fn equally_near_identities_all_get_their_distance() {
    let forward = graph(
        &[
            ("root", "b", TrustLevel::Medium),
            ("root", "a", TrustLevel::Medium),
            ("a", "c", TrustLevel::Medium),
            ("b", "c", TrustLevel::High),
        ],
        &[],
    );
    let backward = graph(
        &[
            ("b", "c", TrustLevel::High),
            ("a", "c", TrustLevel::Medium),
            ("root", "a", TrustLevel::Medium),
            ("root", "b", TrustLevel::Medium),
        ],
        &[],
    );
    let want = pairs(&[("root", 0), ("a", 1), ("b", 1), ("c", 1)]);
    assert_eq!(listing(&distances(&forward, &id("root"), &budget(10))), want);
    assert_eq!(listing(&distances(&backward, &id("root"), &budget(10))), want);
}

#[test]
fn the_graph_tells_what_was_recorded() {
    let g = graph(
        &[("a", "b", TrustLevel::Low), ("b", "c", TrustLevel::High), ("a", "b", TrustLevel::Medium)],
        &[("c", "a")],
    );
    assert_eq!(g.trust_level(&id("a"), &id("b")), Some(TrustLevel::Medium));
    assert_eq!(g.trust_level(&id("b"), &id("c")), Some(TrustLevel::High));
    assert_eq!(g.trust_level(&id("b"), &id("a")), None);
    assert_eq!(g.trust_level(&id("a"), &id("c")), None);
    assert_eq!(g.trust_level(&id("a"), &id("z")), None);
    assert_eq!(g.trust_level(&id("z"), &id("a")), None);
    assert!(g.distrusts(&id("c"), &id("a")));
    assert!(!g.distrusts(&id("a"), &id("c")));
    assert!(!g.distrusts(&id("z"), &id("a")));
    assert!(!g.distrusts(&id("c"), &id("z")));
    assert!(g.names(&id("a")) && g.names(&id("b")) && g.names(&id("c")));
    assert!(!g.names(&id("z")));
    assert!(!TrustGraph::new().names(&id("a")));
}

#[test]
fn the_graph_of_a_store_leaves_reviews_and_flags_out() {
    let mut store = ProofStore::new();
    let proofs = [
        Proof::Trust { from: id("a"), to: id("b"), level: TrustLevel::Low, date: 1 },
        Proof::Distrust { from: id("b"), to: id("c"), date: 2 },
        Proof::Flag {
            from: id("d"),
            crate_: cargo_crev::opts::CrateSelector { name: Some(String::from("foo")), version: None },
            date: 3,
        },
        Proof::Trust { from: id("a"), to: id("b"), level: TrustLevel::High, date: 4 },
    ];
    for p in proofs {
        assert_eq!(store.add(p, true, 100), Ok(()));
    }
    let g = build(&store);
    assert_eq!(g.trust_level(&id("a"), &id("b")), Some(TrustLevel::High));
    assert!(g.distrusts(&id("b"), &id("c")));
    assert_eq!(g.trust_level(&id("b"), &id("c")), None);
    assert!(!g.names(&id("d")));
}
