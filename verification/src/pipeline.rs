use vstd::prelude::*;
use crate::item::Item;
use crate::select::{select_candidates, selection_spec};
use crate::graph::{
    build_graph, calculate_influence_score, degree_of, edges_spec, InfluenceEntry, InfluenceGraph,
    WeightMode,
};
use crate::rank::{entry_view, entry_views, rank_entries, rank_sorted, ranked};

verus! {

/// The recognized configuration options.
pub struct Config {
    /// Caps the number of nodes; past it, records are sampled at random.
    pub sample_cap: usize,
    /// How many ranked entries the report keeps.
    pub top_k: usize,
    /// The node count the threshold check asks for.
    pub min_nodes: usize,
    /// The edge count the threshold check asks for.
    pub min_edges: usize,
    /// How edge weights are derived.
    pub weight_mode: WeightMode,
    /// A fixed sampling seed for reproducible runs; when absent, the caller
    /// draws one from its own source of randomness.
    pub random_seed: Option<u64>,
}

impl Default for Config {
    /// The defaults: cap 1000, top 10, thresholds 1000 nodes and 1000 edges,
    /// constant edge weight.
    fn default() -> (c: Config)
        ensures
            c.sample_cap == 1000,
            c.top_k == 10,
            c.min_nodes == 1000,
            c.min_edges == 1000,
            c.weight_mode == WeightMode::ConstantOne,
            c.random_seed is None,
    {
        Config {
            sample_cap: 1000,
            top_k: 10,
            min_nodes: 1000,
            min_edges: 1000,
            weight_mode: WeightMode::ConstantOne,
            random_seed: None,
        }
    }
}

/// The influence scores that the graph determines, as entry views: node `k`
/// maps to its record's title and its degree.
pub open spec fn scores_view(
    items: Seq<Item>,
    sel: Seq<usize>,
    edges: Seq<(usize, usize, usize)>,
) -> Seq<(Seq<char>, usize)> {
    Seq::new(
        sel.len(),
        |k: int| (items[sel[k] as int].title@, degree_of(edges, k as usize) as usize),
    )
}

/// The whole ranking, as a function of the record set, the seed and the
/// configuration alone: the ranked entry views of the scores that the
/// genre-overlap graph on the selected records determines. That the pipeline
/// returns exactly this is what makes repeated runs agree.
pub open spec fn ranking_spec(
    items: Seq<Item>,
    seed: u64,
    cap: nat,
    mode: WeightMode,
) -> Seq<(Seq<char>, usize)> {
    ranked(
        scores_view(
            items,
            selection_spec(seed, items.len(), cap),
            edges_spec(items, selection_spec(seed, items.len(), cap), mode),
        ),
    )
}

/// Copies one influence entry.
pub fn clone_entry(e: &InfluenceEntry) -> (r: InfluenceEntry)
    ensures
        entry_view(r) == entry_view(*e),
{
    InfluenceEntry { title: e.title.clone(), score: e.score }
}

/// Everything one run computes.
pub struct Analysis {
    /// The genre-overlap graph on the selected records.
    pub graph: InfluenceGraph,
    /// All nodes ranked: scores descending, ties broken by title ascending.
    pub ranking: Vec<InfluenceEntry>,
    /// The first `top_k` entries of the ranking.
    pub top: Vec<InfluenceEntry>,
    /// Whether the graph meets both minimum-size thresholds.
    pub meets: bool,
}

/// Runs the whole pipeline on a record set: selects at most `sample_cap`
/// records (sampling with `seed` past the cap), builds the genre-overlap
/// graph, scores every node by its degree, ranks the nodes, and checks the
/// size thresholds. Every output is pinned to a function of the records,
/// the seed and the configuration, so runs with equal inputs agree.
pub fn analyze(items: Vec<Item>, cfg: &Config, seed: u64) -> (r: Analysis)
    requires
        cfg.sample_cap <= 0xFFFFusize,
    ensures
        r.graph.wf(),
        r.graph.items@ == items@,
        r.graph.sel@ == selection_spec(seed, items@.len(), cfg.sample_cap as nat),
        r.graph.mode == cfg.weight_mode,
        r.graph.edges@ == edges_spec(items@, r.graph.sel@, cfg.weight_mode),
        entry_views(r.ranking@) == ranked(scores_view(items@, r.graph.sel@, r.graph.edges@)),
        entry_views(r.ranking@) == ranking_spec(items@, seed, cfg.sample_cap as nat, cfg.weight_mode),
        rank_sorted(entry_views(r.ranking@)),
        r.ranking@.len() == r.graph.sel@.len(),
        entry_views(r.top@) == entry_views(r.ranking@).take(
            if cfg.top_k <= r.ranking@.len() {
                cfg.top_k as int
            } else {
                r.ranking@.len() as int
            },
        ),
        r.meets == (r.graph.sel@.len() >= cfg.min_nodes && r.graph.edges@.len()
            >= cfg.min_edges),
{
    let n = items.len();
    let sel = select_candidates(n, cfg.sample_cap, seed);
    let g = build_graph(items, sel, cfg.weight_mode);
    let scores = calculate_influence_score(&g);
    proof {
        assert forall|k: int| 0 <= k < scores@.len() implies #[trigger] entry_views(scores@)[k]
            == scores_view(g.items@, g.sel@, g.edges@)[k] by {
            assert(entry_views(scores@)[k] == entry_view(scores@[k]));
        }
        assert(entry_views(scores@) =~= scores_view(g.items@, g.sel@, g.edges@));
    }
    let ranking = rank_entries(scores);
    let count = if cfg.top_k <= ranking.len() {
        cfg.top_k
    } else {
        ranking.len()
    };
    let mut top: Vec<InfluenceEntry> = Vec::new();
    let mut k: usize = 0;
    while k < count
        invariant
            k <= count,
            count <= ranking@.len(),
            top@.len() == k as int,
            forall|i: int| 0 <= i < k ==> #[trigger] entry_views(top@)[i]
                == entry_views(ranking@)[i],
        decreases count - k,
    {
        let e = clone_entry(&ranking[k]);
        let ghost oldtop = top@;
        top.push(e);
        proof {
            assert(entry_views(ranking@)[k as int] == entry_view(ranking@[k as int]));
            assert forall|i: int| 0 <= i <= k implies #[trigger] entry_views(top@)[i]
                == entry_views(ranking@)[i] by {
                assert(entry_views(top@)[i] == entry_view(top@[i]));
                if i < k {
                    assert(top@[i] == oldtop[i]);
                    assert(entry_views(oldtop)[i] == entry_view(oldtop[i]));
                }
            }
        }
        k = k + 1;
    }
    proof {
        assert(entry_views(top@) =~= entry_views(ranking@).take(count as int));
    }
    let nodes = g.node_count();
    let edges_n = g.edge_count();
    let meets = crate::meets_thresholds(nodes, edges_n, cfg.min_nodes, cfg.min_edges);
    Analysis { graph: g, ranking, top, meets }
}

} // verus!
