use vstd::prelude::*;
use crate::item::{Item, shared_genre_count, genres_intersect, lemma_shared_count_pos};

verus! {

#[verifier::external_type_specification]
#[verifier::external_body]
#[verifier::reject_recursive_types(N)]
#[verifier::reject_recursive_types(E)]
#[verifier::reject_recursive_types(Ty)]
#[verifier::reject_recursive_types(Ix)]
pub struct ExGraph<N, E, Ty, Ix>(petgraph::graph::Graph<N, E, Ty, Ix>);

#[verifier::external_type_specification]
#[verifier::external_body]
pub struct ExUndirected(petgraph::Undirected);

/// The node weights of the backing graph, in node-index order. Node weights
/// here are the positions of the selected records.
pub uninterp spec fn graph_node_seq(
    g: petgraph::graph::Graph<usize, usize, petgraph::Undirected, u32>,
) -> Seq<usize>;

/// The edges of the backing graph, in edge-index order: endpoints as node
/// indices, then the edge weight.
pub uninterp spec fn graph_edge_seq(
    g: petgraph::graph::Graph<usize, usize, petgraph::Undirected, u32>,
) -> Seq<(usize, usize, usize)>;

/// Relies on petgraph's `Graph::new_undirected`: the new graph has no nodes
/// and no edges.
#[verifier::external_body]
fn graph_new() -> (g: petgraph::graph::Graph<usize, usize, petgraph::Undirected, u32>)
    ensures
        graph_node_seq(g) == Seq::<usize>::empty(),
        graph_edge_seq(g) == Seq::<(usize, usize, usize)>::empty(),
{
    petgraph::graph::Graph::new_undirected()
}

/// Relies on petgraph's `Graph::add_node`: it appends one node with the given
/// weight and returns its index, the former node count. It panics only at the
/// index type's capacity, which the precondition rules out.
#[verifier::external_body]
fn graph_add_node(
    g: &mut petgraph::graph::Graph<usize, usize, petgraph::Undirected, u32>,
    w: usize,
) -> (ix: usize)
    requires
        graph_node_seq(*old(g)).len() < 0xFFFF_FFFFusize,
    ensures
        graph_node_seq(*final(g)) == graph_node_seq(*old(g)).push(w),
        graph_edge_seq(*final(g)) == graph_edge_seq(*old(g)),
        ix == graph_node_seq(*old(g)).len(),
{
    g.add_node(w).index()
}

/// Relies on petgraph's `Graph::add_edge`: it appends one edge between the
/// two existing nodes (parallel edges are kept, not merged). It panics only
/// on a missing endpoint or at the index type's capacity, which the
/// preconditions rule out.
#[verifier::external_body]
fn graph_add_edge(
    g: &mut petgraph::graph::Graph<usize, usize, petgraph::Undirected, u32>,
    a: usize,
    b: usize,
    w: usize,
)
    requires
        a < graph_node_seq(*old(g)).len(),
        b < graph_node_seq(*old(g)).len(),
        graph_edge_seq(*old(g)).len() < 0xFFFF_FFFFusize,
    ensures
        graph_node_seq(*final(g)) == graph_node_seq(*old(g)),
        graph_edge_seq(*final(g)) == graph_edge_seq(*old(g)).push((a, b, w)),
{
    g.add_edge(
        petgraph::graph::NodeIndex::new(a),
        petgraph::graph::NodeIndex::new(b),
        w,
    );
}

/// Relies on petgraph's `Graph::node_count`: the number of nodes.
#[verifier::external_body]
fn graph_count_nodes(
    g: &petgraph::graph::Graph<usize, usize, petgraph::Undirected, u32>,
) -> (n: usize)
    ensures
        n == graph_node_seq(*g).len(),
{
    g.node_count()
}

/// Relies on petgraph's `Graph::edge_count`: the number of edges.
#[verifier::external_body]
fn graph_count_edges(
    g: &petgraph::graph::Graph<usize, usize, petgraph::Undirected, u32>,
) -> (m: usize)
    ensures
        m == graph_edge_seq(*g).len(),
{
    g.edge_count()
}

/// Whether edge `e` touches node `k`.
pub open spec fn incident(e: (usize, usize, usize), k: usize) -> bool {
    e.0 == k || e.1 == k
}

/// The degree of node `k`: how many of the listed edges touch it, each edge
/// counted once.
pub open spec fn degree_of(edges: Seq<(usize, usize, usize)>, k: usize) -> nat
    decreases edges.len(),
{
    if edges.len() == 0 {
        0
    } else {
        degree_of(edges.drop_last(), k) + if incident(edges.last(), k) {
            1nat
        } else {
            0nat
        }
    }
}

/// Relies on petgraph's `Graph::neighbors` on an undirected graph: it yields
/// one neighbor per incident edge (a self-loop yielded once), so its count is
/// the node's degree.
#[verifier::external_body]
fn graph_degree(
    g: &petgraph::graph::Graph<usize, usize, petgraph::Undirected, u32>,
    k: usize,
) -> (d: usize)
    requires
        k < graph_node_seq(*g).len(),
    ensures
        d == degree_of(graph_edge_seq(*g), k),
{
    g.neighbors(petgraph::graph::NodeIndex::new(k)).count()
}

/// How an edge's weight is derived from the genre overlap of its endpoints.
#[derive(Clone, Copy, PartialEq, Eq, Debug, Structural)]
pub enum WeightMode {
    /// The weight is the number of shared genres.
    SharedGenreCount,
    /// Every edge weighs 1; only connectivity matters.
    ConstantOne,
}

/// The weight that an edge between node positions `k` and `l` gets.
pub open spec fn pair_weight(
    items: Seq<Item>,
    sel: Seq<usize>,
    mode: WeightMode,
    k: int,
    l: int,
) -> usize {
    if mode == WeightMode::SharedGenreCount {
        shared_genre_count(
            items[sel[k] as int].genres_view(),
            items[sel[l] as int].genres_view(),
        ) as usize
    } else {
        1usize
    }
}

/// Whether the items at node positions `k` and `l` share a genre.
pub open spec fn pair_overlaps(items: Seq<Item>, sel: Seq<usize>, k: int, l: int) -> bool {
    shared_genre_count(
        items[sel[k] as int].genres_view(),
        items[sel[l] as int].genres_view(),
    ) > 0
}

/// The edges still to be generated once the pairwise scan has reached the
/// pair `(k, l)`: one edge for every later pair of overlapping items, in
/// lexicographic pair order.
pub open spec fn edges_from(
    items: Seq<Item>,
    sel: Seq<usize>,
    mode: WeightMode,
    k: nat,
    l: nat,
) -> Seq<(usize, usize, usize)>
    decreases sel.len() - k, sel.len() - l,
{
    if k >= sel.len() {
        Seq::empty()
    } else if l >= sel.len() {
        edges_from(items, sel, mode, k + 1, k + 2)
    } else {
        let rest = edges_from(items, sel, mode, k, l + 1);
        if pair_overlaps(items, sel, k as int, l as int) {
            seq![(k as usize, l as usize, pair_weight(items, sel, mode, k as int, l as int))]
                + rest
        } else {
            rest
        }
    }
}

/// The full edge list of the genre-overlap graph on the selected records:
/// one edge for every unordered pair of distinct node positions whose items
/// share a genre.
pub open spec fn edges_spec(
    items: Seq<Item>,
    sel: Seq<usize>,
    mode: WeightMode,
) -> Seq<(usize, usize, usize)> {
    edges_from(items, sel, mode, 0, 1)
}

/// Whether the edge list holds an edge with endpoints `(a, b)`.
pub open spec fn has_pair(edges: Seq<(usize, usize, usize)>, a: usize, b: usize) -> bool {
    exists|j: int| 0 <= j < edges.len() && edges[j].0 == a && edges[j].1 == b
}

/// The node pairs that the scan starting at `(k, l)` still has to visit.
pub open spec fn pair_in_range(n: nat, k: nat, l: nat, a: usize, b: usize) -> bool {
    k <= a && a < b && b < n && (a == k ==> b >= l)
}

/// Strict lexicographic order on edge endpoints.
pub open spec fn lex_pair_lt(e1: (usize, usize, usize), e2: (usize, usize, usize)) -> bool {
    e1.0 < e2.0 || (e1.0 == e2.0 && e1.1 < e2.1)
}

/// The edge list visits endpoint pairs in strictly increasing lexicographic
/// order; in particular no pair occurs twice.
pub open spec fn pairs_sorted(edges: Seq<(usize, usize, usize)>) -> bool {
    forall|j1: int, j2: int| 0 <= j1 < j2 < edges.len() ==>
        lex_pair_lt(edges[j1], edges[j2])
}

/// What the pairwise scan emits, exactly: every emitted edge is an overlapping
/// in-range pair with the configured weight (soundness); every overlapping
/// in-range pair is emitted (completeness); and the pairs come out strictly
/// ordered, so none is emitted twice.
pub proof fn lemma_edges_from_props(
    items: Seq<Item>,
    sel: Seq<usize>,
    mode: WeightMode,
    k: nat,
    l: nat,
)
    requires
        k < l,
        sel.len() <= usize::MAX,
    ensures
        forall|j: int| 0 <= j < edges_from(items, sel, mode, k, l).len() ==> {
            let e = #[trigger] edges_from(items, sel, mode, k, l)[j];
            pair_in_range(sel.len(), k, l, e.0, e.1)
                && pair_overlaps(items, sel, e.0 as int, e.1 as int)
                && e.2 == pair_weight(items, sel, mode, e.0 as int, e.1 as int)
        },
        forall|a: usize, b: usize|
            pair_in_range(sel.len(), k, l, a, b) && pair_overlaps(items, sel, a as int, b as int)
                ==> #[trigger] has_pair(edges_from(items, sel, mode, k, l), a, b),
        pairs_sorted(edges_from(items, sel, mode, k, l)),
    decreases sel.len() - k, sel.len() - l,
{
    let n = sel.len();
    let cur = edges_from(items, sel, mode, k, l);
    if k >= n {
        assert forall|a: usize, b: usize|
            pair_in_range(n, k, l, a, b) && pair_overlaps(items, sel, a as int, b as int)
                implies #[trigger] has_pair(cur, a, b) by {
            assert(false);
        }
    } else if l >= n {
        lemma_edges_from_props(items, sel, mode, k + 1, k + 2);
        let nxt = edges_from(items, sel, mode, k + 1, k + 2);
        assert(cur == nxt);
        assert forall|j: int| 0 <= j < cur.len() implies {
            let e = #[trigger] cur[j];
            pair_in_range(n, k, l, e.0, e.1)
                && pair_overlaps(items, sel, e.0 as int, e.1 as int)
                && e.2 == pair_weight(items, sel, mode, e.0 as int, e.1 as int)
        } by {
            let e2 = edges_from(items, sel, mode, k + 1, k + 2)[j];
            assert(cur[j] == e2);
            assert(pair_in_range(n, k + 1, k + 2, e2.0, e2.1)
                && pair_overlaps(items, sel, e2.0 as int, e2.1 as int)
                && e2.2 == pair_weight(items, sel, mode, e2.0 as int, e2.1 as int));
        }
        assert forall|a: usize, b: usize|
            pair_in_range(n, k, l, a, b) && pair_overlaps(items, sel, a as int, b as int)
                implies #[trigger] has_pair(cur, a, b) by {
            assert(a != k);
            assert(pair_in_range(n, k + 1, k + 2, a, b));
        }
    } else {
        lemma_edges_from_props(items, sel, mode, k, l + 1);
        let rest = edges_from(items, sel, mode, k, l + 1);
        let overlap_here = pair_overlaps(items, sel, k as int, l as int);
        let e0 = (k as usize, l as usize, pair_weight(items, sel, mode, k as int, l as int));
        if overlap_here {
            assert(cur =~= seq![e0] + rest);
            assert forall|j: int| 0 <= j < cur.len() implies {
                let e = #[trigger] cur[j];
                pair_in_range(n, k, l, e.0, e.1)
                    && pair_overlaps(items, sel, e.0 as int, e.1 as int)
                    && e.2 == pair_weight(items, sel, mode, e.0 as int, e.1 as int)
            } by {
                if j == 0 {
                    assert(cur[0] == e0);
                } else {
                    let er = edges_from(items, sel, mode, k, l + 1)[j - 1];
                    assert(cur[j] == er);
                    assert(pair_in_range(n, k, l + 1, er.0, er.1)
                        && pair_overlaps(items, sel, er.0 as int, er.1 as int)
                        && er.2 == pair_weight(items, sel, mode, er.0 as int, er.1 as int));
                }
            }
            assert forall|a: usize, b: usize|
                pair_in_range(n, k, l, a, b) && pair_overlaps(items, sel, a as int, b as int)
                    implies #[trigger] has_pair(cur, a, b) by {
                if a == k && b == l {
                    assert(cur[0].0 == a && cur[0].1 == b);
                } else {
                    assert(pair_in_range(n, k, l + 1, a, b));
                    assert(has_pair(edges_from(items, sel, mode, k, l + 1), a, b));
                    let j = choose|j: int|
                        0 <= j < rest.len() && rest[j].0 == a && rest[j].1 == b;
                    assert(cur[j + 1].0 == a && cur[j + 1].1 == b);
                }
            }
            assert forall|j1: int, j2: int| 0 <= j1 < j2 < cur.len() implies
                lex_pair_lt(cur[j1], cur[j2]) by {
                if j1 == 0 {
                    let er = edges_from(items, sel, mode, k, l + 1)[j2 - 1];
                    assert(cur[j2] == er);
                    assert(pair_in_range(n, k, l + 1, er.0, er.1)
                        && pair_overlaps(items, sel, er.0 as int, er.1 as int));
                } else {
                    assert(cur[j1] == rest[j1 - 1] && cur[j2] == rest[j2 - 1]);
                    assert(lex_pair_lt(rest[j1 - 1], rest[j2 - 1]));
                }
            }
        } else {
            assert(cur == rest);
            assert forall|j: int| 0 <= j < cur.len() implies {
                let e = #[trigger] cur[j];
                pair_in_range(n, k, l, e.0, e.1)
                    && pair_overlaps(items, sel, e.0 as int, e.1 as int)
                    && e.2 == pair_weight(items, sel, mode, e.0 as int, e.1 as int)
            } by {
                let er = edges_from(items, sel, mode, k, l + 1)[j];
                assert(cur[j] == er);
                assert(pair_in_range(n, k, l + 1, er.0, er.1)
                    && pair_overlaps(items, sel, er.0 as int, er.1 as int)
                    && er.2 == pair_weight(items, sel, mode, er.0 as int, er.1 as int));
            }
            assert forall|a: usize, b: usize|
                pair_in_range(n, k, l, a, b) && pair_overlaps(items, sel, a as int, b as int)
                    implies #[trigger] has_pair(cur, a, b) by {
                assert(!(a == k && b == l));
                assert(pair_in_range(n, k, l + 1, a, b));
                assert(has_pair(edges_from(items, sel, mode, k, l + 1), a, b));
            }
        }
    }
}

/// The genre-overlap graph on a selected subset of a record set. Node `k`
/// stands for the record `items[sel[k]]`; edges connect exactly the node
/// pairs whose records share a genre.
pub struct InfluenceGraph {
    /// The full record set.
    pub items: Vec<Item>,
    /// The indices of the selected records; node `k` is `items[sel[k]]`.
    pub sel: Vec<usize>,
    /// The configured edge weighting.
    pub mode: WeightMode,
    /// The edge list: node endpoints (lower first) and weight.
    pub edges: Vec<(usize, usize, usize)>,
    /// The backing petgraph value.
    pub graph: petgraph::graph::Graph<usize, usize, petgraph::Undirected, u32>,
}

impl InfluenceGraph {
    /// The backing petgraph value mirrors the node and edge lists, and those
    /// lists are exactly the genre-overlap graph of the selected records.
    pub open spec fn wf(&self) -> bool {
        &&& graph_node_seq(self.graph) == self.sel@
        &&& graph_edge_seq(self.graph) == self.edges@
        &&& self.edges@ == edges_spec(self.items@, self.sel@, self.mode)
        &&& forall|k: int| 0 <= k < self.sel@.len() ==> self.sel@[k] < self.items@.len()
        &&& self.sel@.no_duplicates()
        &&& self.sel@.len() <= 0xFFFFusize
    }

    /// The number of nodes, reported by the backing graph.
    pub fn node_count(&self) -> (n: usize)
        requires
            self.wf(),
        ensures
            n == self.sel@.len(),
    {
        graph_count_nodes(&self.graph)
    }

    /// The number of edges, reported by the backing graph.
    pub fn edge_count(&self) -> (m: usize)
        requires
            self.wf(),
        ensures
            m == self.edges@.len(),
    {
        graph_count_edges(&self.graph)
    }
}

/// The graph is exactly the genre-overlap graph on the selected records:
/// every edge joins two distinct nodes whose items share a genre and carries
/// the configured weight (soundness); two distinct nodes are joined whenever
/// their items share a genre (completeness); and no pair is joined twice.
pub proof fn lemma_graph_exact(g: InfluenceGraph)
    requires
        g.wf(),
    ensures
        forall|j: int| 0 <= j < g.edges@.len() ==> {
            let e = #[trigger] g.edges@[j];
            e.0 < e.1 && e.1 < g.sel@.len()
                && genres_intersect(
                    g.items@[g.sel@[e.0 as int] as int].genres_view(),
                    g.items@[g.sel@[e.1 as int] as int].genres_view(),
                )
                && e.2 == pair_weight(g.items@, g.sel@, g.mode, e.0 as int, e.1 as int)
        },
        forall|a: usize, b: usize| a < b && b < g.sel@.len() ==>
            (#[trigger] has_pair(g.edges@, a, b) <==> genres_intersect(
                g.items@[g.sel@[a as int] as int].genres_view(),
                g.items@[g.sel@[b as int] as int].genres_view(),
            )),
        pairs_sorted(g.edges@),
{
    lemma_edges_from_props(g.items@, g.sel@, g.mode, 0, 1);
    assert forall|j: int| 0 <= j < g.edges@.len() implies {
        let e = #[trigger] g.edges@[j];
        e.0 < e.1 && e.1 < g.sel@.len()
            && genres_intersect(
                g.items@[g.sel@[e.0 as int] as int].genres_view(),
                g.items@[g.sel@[e.1 as int] as int].genres_view(),
            )
            && e.2 == pair_weight(g.items@, g.sel@, g.mode, e.0 as int, e.1 as int)
    } by {
        let e = g.edges@[j];
        assert(pair_in_range(g.sel@.len(), 0, 1, e.0, e.1)
            && pair_overlaps(g.items@, g.sel@, e.0 as int, e.1 as int)
            && e.2 == pair_weight(g.items@, g.sel@, g.mode, e.0 as int, e.1 as int));
        lemma_shared_count_pos(
            g.items@[g.sel@[e.0 as int] as int].genres_view(),
            g.items@[g.sel@[e.1 as int] as int].genres_view(),
        );
    }
    assert forall|a: usize, b: usize| a < b && b < g.sel@.len() implies
        (#[trigger] has_pair(g.edges@, a, b) <==> genres_intersect(
            g.items@[g.sel@[a as int] as int].genres_view(),
            g.items@[g.sel@[b as int] as int].genres_view(),
        )) by {
        lemma_shared_count_pos(
            g.items@[g.sel@[a as int] as int].genres_view(),
            g.items@[g.sel@[b as int] as int].genres_view(),
        );
        if has_pair(g.edges@, a, b) {
            let j = choose|j: int|
                0 <= j < g.edges@.len() && g.edges@[j].0 == a && g.edges@[j].1 == b;
            assert(pair_overlaps(g.items@, g.sel@, a as int, b as int));
        }
        if genres_intersect(
            g.items@[g.sel@[a as int] as int].genres_view(),
            g.items@[g.sel@[b as int] as int].genres_view(),
        ) {
            assert(pair_in_range(g.sel@.len(), 0, 1, a, b));
        }
    }
}

/// Builds the genre-overlap graph over the selected records: one node per
/// selected record, and an edge between every two distinct nodes whose
/// records share at least one genre, weighted according to `mode`.
pub fn build_graph(items: Vec<Item>, sel: Vec<usize>, mode: WeightMode) -> (g: InfluenceGraph)
    requires
        forall|k: int| 0 <= k < sel@.len() ==> sel@[k] < items@.len(),
        sel@.no_duplicates(),
        sel@.len() <= 0xFFFFusize,
    ensures
        g.wf(),
        g.items@ == items@,
        g.sel@ == sel@,
        g.mode == mode,
        g.edges@ == edges_spec(items@, sel@, mode),
{
    let n = sel.len();
    let mut graph = graph_new();
    let mut k: usize = 0;
    while k < n
        invariant
            k <= n,
            n == sel@.len(),
            n <= 0xFFFFusize,
            graph_node_seq(graph) =~= sel@.take(k as int),
            graph_edge_seq(graph) == Seq::<(usize, usize, usize)>::empty(),
        decreases n - k,
    {
        graph_add_node(&mut graph, sel[k]);
        assert(graph_node_seq(graph) =~= sel@.take(k + 1));
        k = k + 1;
    }
    assert(graph_node_seq(graph) =~= sel@);

    let mut edges: Vec<(usize, usize, usize)> = Vec::new();
    let ghost full = edges_spec(items@, sel@, mode);
    assert(edges@ + edges_from(items@, sel@, mode, 0, 1) =~= full);
    let mut k: usize = 0;
    while k < n
        invariant
            k <= n,
            n == sel@.len(),
            n <= 0xFFFFusize,
            forall|j: int| 0 <= j < sel@.len() ==> sel@[j] < items@.len(),
            edges@ + edges_from(items@, sel@, mode, k as nat, (k + 1) as nat) =~= full,
            edges@.len() <= k * n,
        decreases n - k,
    {
        let mut l: usize = k + 1;
        while l < n
            invariant
                k < l,
                l <= n,
                k < n,
                n == sel@.len(),
                n <= 0xFFFFusize,
                forall|j: int| 0 <= j < sel@.len() ==> sel@[j] < items@.len(),
                edges@ + edges_from(items@, sel@, mode, k as nat, l as nat) =~= full,
                edges@.len() <= k * n + l - k - 1,
            decreases n - l,
        {
            let c = crate::item::count_shared_genres(
                &items[sel[k]].genres,
                &items[sel[l]].genres,
            );
            let ghost before = edges@;
            let ghost rest = edges_from(items@, sel@, mode, k as nat, (l + 1) as nat);
            if c > 0 {
                let w = if mode == WeightMode::SharedGenreCount {
                    c
                } else {
                    1
                };
                assert(w == pair_weight(items@, sel@, mode, k as int, l as int));
                edges.push((k, l, w));
                proof {
                    let e = (k, l, pair_weight(items@, sel@, mode, k as int, l as int));
                    assert(edges_from(items@, sel@, mode, k as nat, l as nat) =~= seq![e] + rest);
                    assert(edges@ =~= before + seq![e]);
                    assert(edges@ + rest =~= before + (seq![e] + rest));
                }
            } else {
                proof {
                    assert(edges_from(items@, sel@, mode, k as nat, l as nat) =~= rest);
                }
            }
            l = l + 1;
        }
        proof {
            assert(edges_from(items@, sel@, mode, k as nat, n as nat)
                =~= edges_from(items@, sel@, mode, (k + 1) as nat, (k + 2) as nat));
            assert(k * n + n == (k + 1) * n) by (nonlinear_arith);
        }
        k = k + 1;
    }
    proof {
        assert(edges_from(items@, sel@, mode, n as nat, (n + 1) as nat) =~= Seq::empty());
        assert(edges@ =~= full);
        assert(n * n <= 0xFFFFusize * 0xFFFFusize) by (nonlinear_arith)
            requires n <= 0xFFFFusize;
        lemma_edges_from_props(items@, sel@, mode, 0, 1);
    }

    let m = edges.len();
    let mut j: usize = 0;
    while j < m
        invariant
            j <= m,
            m == edges@.len(),
            m < 0xFFFF_FFFFusize,
            edges@ == full,
            n == sel@.len(),
            graph_node_seq(graph) == sel@,
            graph_edge_seq(graph) =~= edges@.take(j as int),
            forall|i: int| 0 <= i < edges@.len()
                ==> (#[trigger] edges@[i]).0 < n && edges@[i].1 < n,
        decreases m - j,
    {
        let (a, b, w) = edges[j];
        graph_add_edge(&mut graph, a, b, w);
        assert(graph_edge_seq(graph) =~= edges@.take(j + 1));
        j = j + 1;
    }
    assert(graph_edge_seq(graph) =~= edges@);

    InfluenceGraph { items, sel, mode, edges, graph }
}

/// One influence entry: a node's title and its influence score.
pub struct InfluenceEntry {
    /// The title of the record behind the node.
    pub title: String,
    /// The node's degree in the genre-overlap graph.
    pub score: usize,
}

/// Computes each node's influence score: the count of distinct edges
/// incident to it (its degree, read off the backing graph), not the sum of
/// their weights. Entry `k` belongs to node `k`.
pub fn calculate_influence_score(g: &InfluenceGraph) -> (r: Vec<InfluenceEntry>)
    requires
        g.wf(),
    ensures
        r@.len() == g.sel@.len(),
        forall|k: int| 0 <= k < r@.len() ==> (#[trigger] r@[k]).title@
            == g.items@[g.sel@[k] as int].title@
            && r@[k].score == degree_of(g.edges@, k as usize),
{
    let n = g.sel.len();
    let mut r: Vec<InfluenceEntry> = Vec::new();
    let mut k: usize = 0;
    while k < n
        invariant
            k <= n,
            n == g.sel@.len(),
            g.wf(),
            r@.len() == k as int,
            forall|i: int| 0 <= i < k ==> (#[trigger] r@[i]).title@
                == g.items@[g.sel@[i] as int].title@
                && r@[i].score == degree_of(g.edges@, i as usize),
        decreases n - k,
    {
        let d = graph_degree(&g.graph, k);
        let idx = g.sel[k];
        let t = g.items[idx].title.clone();
        r.push(InfluenceEntry { title: t, score: d });
        k = k + 1;
    }
    r
}

/// The sum of the degrees of nodes `0 .. n`.
pub open spec fn degree_sum(edges: Seq<(usize, usize, usize)>, n: nat) -> nat
    decreases n,
{
    if n == 0 {
        0
    } else {
        degree_sum(edges, (n - 1) as nat) + degree_of(edges, (n - 1) as usize)
    }
}

proof fn lemma_degree_sum_empty(n: nat)
    ensures
        degree_sum(Seq::<(usize, usize, usize)>::empty(), n) == 0,
    decreases n,
{
    if n > 0 {
        lemma_degree_sum_empty((n - 1) as nat);
    }
}

proof fn lemma_degree_of_push(s: Seq<(usize, usize, usize)>, e: (usize, usize, usize), k: usize)
    ensures
        degree_of(s.push(e), k) == degree_of(s, k) + if incident(e, k) {
            1nat
        } else {
            0nat
        },
{
    assert(s.push(e).drop_last() =~= s);
    assert(s.push(e).last() == e);
}

proof fn lemma_degree_sum_push(s: Seq<(usize, usize, usize)>, e: (usize, usize, usize), n: nat)
    requires
        e.0 != e.1,
        n <= usize::MAX,
    ensures
        degree_sum(s.push(e), n) == degree_sum(s, n) + (if (e.0 as nat) < n {
            1nat
        } else {
            0nat
        }) + (if (e.1 as nat) < n {
            1nat
        } else {
            0nat
        }),
    decreases n,
{
    if n > 0 {
        lemma_degree_sum_push(s, e, (n - 1) as nat);
        lemma_degree_of_push(s, e, (n - 1) as usize);
    }
}

/// The handshake invariant: over any edge list whose endpoints are distinct
/// nodes below `n`, the degrees of the nodes `0 .. n` add up to twice the
/// number of edges.
pub proof fn lemma_handshake(edges: Seq<(usize, usize, usize)>, n: nat)
    requires
        n <= usize::MAX,
        forall|j: int| 0 <= j < edges.len() ==> ((#[trigger] edges[j]).0 as nat) < n
            && (edges[j].1 as nat) < n && edges[j].0 != edges[j].1,
    ensures
        degree_sum(edges, n) == 2 * edges.len(),
    decreases edges.len(),
{
    if edges.len() == 0 {
        assert(edges =~= Seq::<(usize, usize, usize)>::empty());
        lemma_degree_sum_empty(n);
    } else {
        let s = edges.drop_last();
        let e = edges.last();
        assert(forall|j: int| 0 <= j < s.len() ==> #[trigger] s[j] == edges[j]);
        lemma_handshake(s, n);
        assert(e == edges[edges.len() - 1]);
        assert((e.0 as nat) < n && (e.1 as nat) < n && e.0 != e.1);
        assert(edges =~= s.push(e));
        lemma_degree_sum_push(s, e, n);
        assert(degree_sum(edges, n) == degree_sum(s.push(e), n));
    }
}

/// The handshake invariant on the genre-overlap graph itself: influence
/// scores, summed over all nodes, equal twice the edge count.
pub proof fn lemma_influence_handshake(g: InfluenceGraph)
    requires
        g.wf(),
    ensures
        degree_sum(g.edges@, g.sel@.len()) == 2 * g.edges@.len(),
{
    lemma_graph_exact(g);
    assert forall|j: int| 0 <= j < g.edges@.len() implies ((#[trigger] g.edges@[j]).0 as nat)
        < g.sel@.len() && (g.edges@[j].1 as nat) < g.sel@.len()
        && g.edges@[j].0 != g.edges@[j].1 by {
        let e = g.edges@[j];
        assert(e.0 < e.1 && e.1 < g.sel@.len());
    }
    lemma_handshake(g.edges@, g.sel@.len());
}

} // verus!
