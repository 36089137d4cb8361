use anime_influence::graph::{build_graph, calculate_influence_score, InfluenceEntry, WeightMode};
use anime_influence::item::Item;

fn mk_item(title: &str, genres: &[&str]) -> Item {
    Item::new(
        title.to_string(),
        genres.iter().map(|g| g.to_string()).collect(),
    )
}

fn score_of(entries: &Vec<InfluenceEntry>, title: &str) -> usize {
    for e in entries {
        if e.title == title {
            return e.score;
        }
    }
    panic!("no entry for {}", title);
}

#[test]
fn test_influence_score_calculation() {
    let items = vec![
        mk_item("Naruto", &["Action", "Adventure"]),
        mk_item("Bleach", &["Action", "Drama"]),
    ];
    let graph = build_graph(items, vec![0, 1], WeightMode::ConstantOne);
    let influence_score = calculate_influence_score(&graph);
    assert_eq!(score_of(&influence_score, "Naruto"), 1);
    assert_eq!(score_of(&influence_score, "Bleach"), 1);
}

#[test]
fn test_graph_creation() {
    let items = vec![mk_item("Naruto", &["Action"]), mk_item("Bleach", &["Action"])];
    let graph = build_graph(items, vec![0, 1], WeightMode::ConstantOne);
    assert_eq!(graph.node_count(), 2);
    assert_eq!(graph.edge_count(), 1);
}

#[test]
fn isolated_node_keeps_score_zero() {
    let items = vec![
        mk_item("A", &["Action"]),
        mk_item("B", &["Action"]),
        mk_item("C", &[]),
    ];
    let graph = build_graph(items, vec![0, 1, 2], WeightMode::ConstantOne);
    assert_eq!(graph.node_count(), 3);
    assert_eq!(graph.edge_count(), 1);
    let scores = calculate_influence_score(&graph);
    assert_eq!(score_of(&scores, "C"), 0);
}

#[test]
fn edges_join_exactly_the_overlapping_pairs() {
    let items = vec![
        mk_item("A", &["Action", "Drama"]),
        mk_item("B", &["Action"]),
        mk_item("C", &["Comedy"]),
    ];
    let graph = build_graph(items, vec![0, 1, 2], WeightMode::ConstantOne);
    assert_eq!(graph.edges, vec![(0, 1, 1)]);
}

#[test]
fn shared_genre_count_weighting_gives_weight_two_but_score_one() {
    let items = vec![
        mk_item("A", &["Action", "Drama", "Mecha"]),
        mk_item("B", &["Action", "Drama"]),
    ];
    let graph = build_graph(items, vec![0, 1], WeightMode::SharedGenreCount);
    assert_eq!(graph.edges, vec![(0, 1, 2)]);
    let scores = calculate_influence_score(&graph);
    assert_eq!(score_of(&scores, "A"), 1);
    assert_eq!(score_of(&scores, "B"), 1);
}

#[test]
fn handshake_sum_of_scores_is_twice_edge_count() {
    let items = vec![
        mk_item("A", &["x", "y"]),
        mk_item("B", &["x"]),
        mk_item("C", &["y", "z"]),
        mk_item("D", &["w"]),
    ];
    let graph = build_graph(items, vec![0, 1, 2, 3], WeightMode::ConstantOne);
    let scores = calculate_influence_score(&graph);
    let total: usize = scores.iter().map(|e| e.score).sum();
    assert_eq!(total, 2 * graph.edge_count());
}
