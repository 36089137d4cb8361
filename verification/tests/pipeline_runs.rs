use anime_influence::graph::WeightMode;
use anime_influence::item::Item;
use anime_influence::meets_thresholds;
use anime_influence::pipeline::{analyze, Config};
use anime_influence::rank::{rank_entries, title_le};
use anime_influence::graph::InfluenceEntry;
use anime_influence::select::select_candidates;

fn mk_item(title: &str, genres: &[&str]) -> Item {
    Item::new(
        title.to_string(),
        genres.iter().map(|g| g.to_string()).collect(),
    )
}

fn small_config() -> Config {
    Config {
        sample_cap: 1000,
        top_k: 10,
        min_nodes: 1000,
        min_edges: 1000,
        weight_mode: WeightMode::ConstantOne,
        random_seed: None,
    }
}

#[test]
fn example_ranking_three_items() {
    let items = vec![
        mk_item("A", &["Action", "Drama"]),
        mk_item("B", &["Action"]),
        mk_item("C", &["Comedy"]),
    ];
    let analysis = analyze(items, &small_config(), 7);
    assert_eq!(analysis.graph.edges, vec![(0, 1, 1)]);
    let got: Vec<(String, usize)> = analysis
        .ranking
        .iter()
        .map(|e| (e.title.clone(), e.score))
        .collect();
    assert_eq!(
        got,
        vec![
            ("A".to_string(), 1),
            ("B".to_string(), 1),
            ("C".to_string(), 0)
        ]
    );
}

#[test]
fn empty_input_degrades_gracefully() {
    let analysis = analyze(Vec::new(), &small_config(), 0);
    assert_eq!(analysis.graph.node_count(), 0);
    assert_eq!(analysis.graph.edge_count(), 0);
    assert!(analysis.ranking.is_empty());
    assert!(analysis.top.is_empty());
    assert!(!analysis.meets);
}

#[test]
fn sampling_caps_the_node_count() {
    let items: Vec<Item> = (0..8)
        .map(|i| mk_item(&format!("T{}", i), &["g"]))
        .collect();
    let mut cfg = small_config();
    cfg.sample_cap = 3;
    let analysis = analyze(items, &cfg, 42);
    assert_eq!(analysis.graph.node_count(), 3);
    assert_eq!(analysis.graph.sel.len(), 3);
    let mut seen = analysis.graph.sel.clone();
    seen.sort();
    seen.dedup();
    assert_eq!(seen.len(), 3);
    for &i in &analysis.graph.sel {
        assert!(i < 8);
    }
}

#[test]
fn repeated_runs_same_seed_agree() {
    let build = || -> Vec<Item> {
        (0..12)
            .map(|i| {
                let g = format!("g{}", i % 4);
                mk_item(&format!("T{}", i), &[g.as_str(), "common"])
            })
            .collect()
    };
    let mut cfg = small_config();
    cfg.sample_cap = 5;
    let a1 = analyze(build(), &cfg, 99);
    let a2 = analyze(build(), &cfg, 99);
    assert_eq!(a1.graph.sel, a2.graph.sel);
    assert_eq!(a1.graph.edges, a2.graph.edges);
    let r1: Vec<(String, usize)> = a1.ranking.iter().map(|e| (e.title.clone(), e.score)).collect();
    let r2: Vec<(String, usize)> = a2.ranking.iter().map(|e| (e.title.clone(), e.score)).collect();
    assert_eq!(r1, r2);
}

#[test]
fn sampling_really_shuffles() {
    let mut selections = Vec::new();
    for seed in 0..20u64 {
        let sel = select_candidates(10, 4, seed);
        selections.push(sel);
    }
    let first = selections[0].clone();
    assert!(selections.iter().any(|s| *s != first));
}

#[test]
fn selection_under_cap_is_everything() {
    let sel = select_candidates(4, 1000, 5);
    assert_eq!(sel, vec![0, 1, 2, 3]);
}

#[test]
fn threshold_check_is_exact() {
    assert!(meets_thresholds(5, 5, 5, 5));
    assert!(!meets_thresholds(4, 5, 5, 5));
    assert!(!meets_thresholds(5, 4, 5, 5));
    assert!(meets_thresholds(0, 0, 0, 0));
}

#[test]
fn ties_break_by_title_ascending() {
    let entries = vec![
        InfluenceEntry { title: "beta".to_string(), score: 2 },
        InfluenceEntry { title: "alpha".to_string(), score: 2 },
        InfluenceEntry { title: "zeta".to_string(), score: 3 },
    ];
    let ranked = rank_entries(entries);
    let got: Vec<(String, usize)> = ranked.iter().map(|e| (e.title.clone(), e.score)).collect();
    assert_eq!(
        got,
        vec![
            ("zeta".to_string(), 3),
            ("alpha".to_string(), 2),
            ("beta".to_string(), 2)
        ]
    );
}

#[test]
fn title_order_is_lexicographic() {
    assert!(title_le("abc", "abd"));
    assert!(!title_le("abd", "abc"));
    assert!(title_le("ab", "abc"));
    assert!(!title_le("abc", "ab"));
    assert!(title_le("", "x"));
    assert!(title_le("same", "same"));
}

#[test]
fn top_k_truncates_the_ranking() {
    let items: Vec<Item> = (0..6)
        .map(|i| mk_item(&format!("T{}", i), &["g"]))
        .collect();
    let mut cfg = small_config();
    cfg.top_k = 2;
    let analysis = analyze(items, &cfg, 1);
    assert_eq!(analysis.ranking.len(), 6);
    assert_eq!(analysis.top.len(), 2);
    assert_eq!(analysis.top[0].title, analysis.ranking[0].title);
    assert_eq!(analysis.top[1].title, analysis.ranking[1].title);
}

#[test]
fn item_new_drops_duplicate_genres() {
    let item = Item::new(
        "X".to_string(),
        vec!["a".to_string(), "a".to_string(), "b".to_string()],
    );
    assert_eq!(item.genres, vec!["a".to_string(), "b".to_string()]);
}

#[test]
fn default_config_matches_the_documented_values() {
    let cfg = Config::default();
    assert_eq!(cfg.sample_cap, 1000);
    assert_eq!(cfg.top_k, 10);
    assert_eq!(cfg.min_nodes, 1000);
    assert_eq!(cfg.min_edges, 1000);
    assert!(cfg.weight_mode == WeightMode::ConstantOne);
    assert!(cfg.random_seed.is_none());
}
