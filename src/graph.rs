use crate::error::RateError;
use crate::merge_datasets::CombinedDataPoint;
use std::collections::HashMap;
use petgraph::graph::{EdgeIndex, NodeIndex};
use vstd::prelude::*;

verus! {

/// petgraph's adjacency-list graph, held opaque; what it holds is read through
/// `graph_nodes` and `graph_edges`.
#[verifier::external_type_specification]
#[verifier::external_body]
#[verifier::reject_recursive_types(N)]
#[verifier::reject_recursive_types(E)]
#[verifier::reject_recursive_types(Ty)]
#[verifier::reject_recursive_types(Ix)]
pub struct ExPetGraph<N, E, Ty, Ix>(petgraph::Graph<N, E, Ty, Ix>);

/// petgraph's marker for directed edges.
#[verifier::external_type_specification]
#[verifier::external_body]
pub struct ExDirected(petgraph::Directed);

/// A vertex of the chain graph: a date and its two rates, in hundredths.
pub struct Vertex {
    pub date: String,
    pub inflation_rate: i64,
    pub interest_rate: i64,
}

impl View for Vertex {
    type V = (Seq<char>, i64, i64);

    open spec fn view(&self) -> (Seq<char>, i64, i64) {
        (self.date@, self.inflation_rate, self.interest_rate)
    }
}

/// Directed graph whose edges carry the squared distance between their
/// endpoints, in squared hundredths.
pub type RateGraph = petgraph::Graph<Vertex, u128>;

/// The vertices of a graph, in the order in which they were added.
pub uninterp spec fn graph_nodes(g: RateGraph) -> Seq<(Seq<char>, i64, i64)>;

/// The edges of a graph as (source index, target index, weight), in the order
/// in which they were added.
pub uninterp spec fn graph_edges(g: RateGraph) -> Seq<(int, int, u128)>;

/// Squared Euclidean distance between two vertices in the
/// (interest rate, inflation rate) plane.
pub open spec fn sq_dist(a: (Seq<char>, i64, i64), b: (Seq<char>, i64, i64)) -> int {
    (a.2 - b.2) * (a.2 - b.2) + (a.1 - b.1) * (a.1 - b.1)
}

/// The edges that the chain rule gives over the first `n` vertices: an edge
/// from `i - 1` to `i` wherever their squared distance is at most `limit`.
pub open spec fn chain_edges(nodes: Seq<(Seq<char>, i64, i64)>, limit: u128, n: int) -> Seq<
    (int, int, u128),
>
    decreases n,
{
    if n < 2 {
        Seq::empty()
    } else {
        let prev = chain_edges(nodes, limit, n - 1);
        let d = sq_dist(nodes[n - 2], nodes[n - 1]);
        if d <= limit {
            prev.push((n - 2, n - 1, d as u128))
        } else {
            prev
        }
    }
}

/// Number of edges in `edges` whose source is `v`.
pub open spec fn out_count(edges: Seq<(int, int, u128)>, v: int) -> nat
    decreases edges.len(),
{
    if edges.len() == 0 {
        0
    } else {
        out_count(edges.drop_last(), v) + if edges.last().0 == v {
            1nat
        } else {
            0nat
        }
    }
}

/// Number of the vertices `0..n` whose out-degree is `d`.
pub open spec fn degree_count(edges: Seq<(int, int, u128)>, n: int, d: nat) -> nat
    decreases n,
{
    if n <= 0 {
        0
    } else {
        degree_count(edges, n - 1, d) + if out_count(edges, n - 1) == d {
            1nat
        } else {
            0nat
        }
    }
}

/// Sum of `degree_count(edges, n, d)` over the degrees `d < k`.
pub open spec fn degree_total(edges: Seq<(int, int, u128)>, n: int, k: nat) -> nat
    decreases k,
{
    if k == 0 {
        0
    } else {
        degree_total(edges, n, (k - 1) as nat) + degree_count(edges, n, (k - 1) as nat)
    }
}

/// Sum of the counts that `m` gives to the degrees `d < k` (0 for a degree
/// that is no key).
pub open spec fn map_total(m: Map<usize, usize>, k: nat) -> nat
    decreases k,
{
    if k == 0 {
        0
    } else {
        map_total(m, (k - 1) as nat) + if m.contains_key((k - 1) as usize) {
            m[(k - 1) as usize] as nat
        } else {
            0nat
        }
    }
}

proof fn lemma_map_total_is_degree_total(
    m: Map<usize, usize>,
    edges: Seq<(int, int, u128)>,
    n: int,
    k: nat,
)
    requires
        k <= usize::MAX + 1,
        forall|d: usize| #[trigger] m.contains_key(d) <==> degree_count(edges, n, d as nat) > 0,
        forall|d: usize| #[trigger] m.contains_key(d) ==> m[d] as nat == degree_count(edges, n, d as nat),
    ensures
        map_total(m, k) == degree_total(edges, n, k),
    decreases k,
{
    if k > 0 {
        lemma_map_total_is_degree_total(m, edges, n, (k - 1) as nat);
        let d = (k - 1) as usize;
        assert(d as nat == k - 1);
        if !m.contains_key(d) {
            assert(degree_count(edges, n, d as nat) == 0);
        }
    }
}

/// Sum of `d * degree_count(edges, n, d)` over the degrees `d < k`.
pub open spec fn degree_weighted_total(edges: Seq<(int, int, u128)>, n: int, k: nat) -> nat
    decreases k,
{
    if k == 0 {
        0
    } else {
        degree_weighted_total(edges, n, (k - 1) as nat) + (k - 1) as nat * degree_count(
            edges,
            n,
            (k - 1) as nat,
        )
    }
}

/// Sum of `d * m[d]` over the degrees `d < k` that are keys of `m`.
pub open spec fn map_weighted_total(m: Map<usize, usize>, k: nat) -> nat
    decreases k,
{
    if k == 0 {
        0
    } else {
        map_weighted_total(m, (k - 1) as nat) + if m.contains_key((k - 1) as usize) {
            (k - 1) as nat * m[(k - 1) as usize] as nat
        } else {
            0nat
        }
    }
}

/// Sum of the out-degrees of the vertices `0..n`.
pub open spec fn out_total(edges: Seq<(int, int, u128)>, n: int) -> nat
    decreases n,
{
    if n <= 0 {
        0
    } else {
        out_total(edges, n - 1) + out_count(edges, n - 1)
    }
}

proof fn lemma_map_weighted_is_degree_weighted(
    m: Map<usize, usize>,
    edges: Seq<(int, int, u128)>,
    n: int,
    k: nat,
)
    requires
        k <= usize::MAX + 1,
        forall|d: usize| #[trigger] m.contains_key(d) <==> degree_count(edges, n, d as nat) > 0,
        forall|d: usize| #[trigger] m.contains_key(d) ==> m[d] as nat == degree_count(edges, n, d as nat),
    ensures
        map_weighted_total(m, k) == degree_weighted_total(edges, n, k),
    decreases k,
{
    if k > 0 {
        lemma_map_weighted_is_degree_weighted(m, edges, n, (k - 1) as nat);
        let d = (k - 1) as usize;
        let j = (k - 1) as nat;
        assert(d as nat == j);
        if m.contains_key(d) {
            assert(m[d] as nat == degree_count(edges, n, j));
        } else {
            assert(degree_count(edges, n, j) == 0);
            assert(j * 0nat == 0) by (nonlinear_arith);
        }
    }
}

proof fn lemma_degree_weighted_step(edges: Seq<(int, int, u128)>, n: int, k: nat)
    requires
        n >= 0,
    ensures
        degree_weighted_total(edges, n + 1, k) == degree_weighted_total(edges, n, k) + if out_count(
            edges,
            n,
        ) < k {
            out_count(edges, n)
        } else {
            0nat
        },
    decreases k,
{
    if k > 0 {
        lemma_degree_weighted_step(edges, n, (k - 1) as nat);
        let j = (k - 1) as nat;
        let c = degree_count(edges, n, j);
        assert(degree_count(edges, n + 1, j) == c + if out_count(edges, n) == j {
            1nat
        } else {
            0nat
        });
        assert(j * (c + 1) == j * c + j) by (nonlinear_arith);
    }
}

proof fn lemma_degree_weighted_is_out_total(edges: Seq<(int, int, u128)>, n: int)
    requires
        n >= 0,
    ensures
        degree_weighted_total(edges, n, edges.len() + 1) == out_total(edges, n),
    decreases n,
{
    if n > 0 {
        lemma_degree_weighted_is_out_total(edges, n - 1);
        lemma_out_count_bound(edges, n - 1);
        lemma_degree_weighted_step(edges, n - 1, edges.len() + 1);
    } else {
        lemma_degree_weighted_empty(edges, edges.len() + 1);
    }
}

proof fn lemma_degree_weighted_empty(edges: Seq<(int, int, u128)>, k: nat)
    ensures
        degree_weighted_total(edges, 0, k) == 0,
    decreases k,
{
    if k > 0 {
        lemma_degree_weighted_empty(edges, (k - 1) as nat);
        let j = (k - 1) as nat;
        assert(degree_count(edges, 0, j) == 0);
        assert(j * 0nat == 0) by (nonlinear_arith);
    }
}

proof fn lemma_out_total_push(edges: Seq<(int, int, u128)>, x: (int, int, u128), n: int)
    requires
        n >= 0,
    ensures
        out_total(edges.push(x), n) == out_total(edges, n) + if 0 <= x.0 < n {
            1nat
        } else {
            0nat
        },
    decreases n,
{
    if n > 0 {
        lemma_out_total_push(edges, x, n - 1);
        assert(edges.push(x).drop_last() == edges);
    }
}

proof fn lemma_out_total_is_edge_count(edges: Seq<(int, int, u128)>, n: int)
    requires
        n >= 0,
        forall|k: int| 0 <= k < edges.len() ==> 0 <= #[trigger] edges[k].0 < n,
    ensures
        out_total(edges, n) == edges.len(),
    decreases edges.len(),
{
    if edges.len() == 0 {
        lemma_out_total_empty(edges, n);
    } else {
        let front = edges.drop_last();
        assert forall|k: int| 0 <= k < front.len() implies 0 <= #[trigger] front[k].0 < n by {
            assert(front[k] == edges[k]);
        }
        lemma_out_total_is_edge_count(front, n);
        lemma_out_total_push(front, edges.last(), n);
        assert(front.push(edges.last()) == edges);
    }
}

proof fn lemma_out_total_empty(edges: Seq<(int, int, u128)>, n: int)
    requires
        edges.len() == 0,
    ensures
        out_total(edges, n) == 0,
    decreases n,
{
    if n > 0 {
        lemma_out_total_empty(edges, n - 1);
    }
}

/// Relies on petgraph's `Graph::new`: a directed graph with no nodes and no edges.
#[verifier::external_body]
fn new_graph() -> (g: RateGraph)
    ensures
        graph_nodes(g) == Seq::<(Seq<char>, i64, i64)>::empty(),
        graph_edges(g) == Seq::<(int, int, u128)>::empty(),
{
    petgraph::Graph::new()
}

/// Relies on petgraph's `Graph::add_node`: appends the node, returns its
/// position, leaves the edges alone; it panics only at `u32::MAX` nodes.
#[verifier::external_body]
fn add_vertex(g: &mut RateGraph, v: Vertex) -> (r: usize)
    requires
        graph_nodes(*old(g)).len() < u32::MAX,
    ensures
        graph_nodes(*final(g)) == graph_nodes(*old(g)).push(v@),
        graph_edges(*final(g)) == graph_edges(*old(g)),
        r == graph_nodes(*old(g)).len(),
{
    g.add_node(v).index()
}

/// Relies on petgraph's `Graph::add_edge`: appends the edge from `a` to `b`,
/// leaves the nodes alone; it panics on a missing node or at `u32::MAX` edges.
#[verifier::external_body]
fn add_link(g: &mut RateGraph, a: usize, b: usize, w: u128)
    requires
        a < graph_nodes(*old(g)).len(),
        b < graph_nodes(*old(g)).len(),
        graph_edges(*old(g)).len() < u32::MAX,
    ensures
        graph_nodes(*final(g)) == graph_nodes(*old(g)),
        graph_edges(*final(g)) == graph_edges(*old(g)).push((a as int, b as int, w)),
{
    g.add_edge(NodeIndex::new(a), NodeIndex::new(b), w);
}

/// Relies on petgraph's indexing of a graph by a node: the weight of node `v`.
#[verifier::external_body]
fn vertex_at(g: &RateGraph, v: usize) -> (r: &Vertex)
    requires
        v < graph_nodes(*g).len(),
    ensures
        r@ == graph_nodes(*g)[v as int],
{
    &g[NodeIndex::new(v)]
}

/// Relies on petgraph's `Graph::node_count`; every edge joins two of the
/// nodes counted, since `add_edge` panics on a missing node.
#[verifier::external_body]
fn node_total(g: &RateGraph) -> (r: usize)
    ensures
        r == graph_nodes(*g).len(),
        forall|k: int|
            0 <= k < graph_edges(*g).len() ==> 0 <= #[trigger] graph_edges(*g)[k].0 < r && 0
                <= graph_edges(*g)[k].1 < r,
{
    g.node_count()
}

/// Relies on petgraph's `Graph::edge_count`.
#[verifier::external_body]
fn edge_total(g: &RateGraph) -> (r: usize)
    ensures
        r == graph_edges(*g).len(),
{
    g.edge_count()
}

/// Relies on petgraph's `Graph::edge_weight`: the weight of the edge at `e`.
#[verifier::external_body]
fn edge_weight_at(g: &RateGraph, e: usize) -> (r: u128)
    requires
        e < graph_edges(*g).len(),
    ensures
        r == graph_edges(*g)[e as int].2,
{
    *g.edge_weight(EdgeIndex::new(e)).unwrap()
}

/// Relies on petgraph's `Graph::edges_directed` with `Outgoing`: on a directed
/// graph it yields exactly the edges whose source is `v`.
#[verifier::external_body]
fn out_degree(g: &RateGraph, v: usize) -> (r: usize)
    requires
        v < graph_nodes(*g).len(),
    ensures
        r == out_count(graph_edges(*g), v as int),
{
    g.edges_directed(NodeIndex::new(v), petgraph::Direction::Outgoing).count()
}

/// Largest rate magnitude, in hundredths, that the graph takes: squared
/// distances between such rates fit in a `u128` edge weight.
pub const RATE_LIMIT: i64 = 0x4000_0000_0000_0000;

/// Both rates of a vertex view lie within `RATE_LIMIT`.
pub open spec fn rates_in_range(v: (Seq<char>, i64, i64)) -> bool {
    -RATE_LIMIT <= v.1 <= RATE_LIMIT && -RATE_LIMIT <= v.2 <= RATE_LIMIT
}

/// Squared distance between two vertices in the (interest rate, inflation
/// rate) plane, in squared hundredths. The distance itself is its square root
/// divided by 100.
pub fn squared_distance(a: &Vertex, b: &Vertex) -> (r: u128)
    requires
        rates_in_range(a@),
        rates_in_range(b@),
    ensures
        r as int == sq_dist(a@, b@),
{
    let dx: i128 = a.interest_rate as i128 - b.interest_rate as i128;
    let dy: i128 = a.inflation_rate as i128 - b.inflation_rate as i128;
    let ax: u128 = if dx < 0 { (-dx) as u128 } else { dx as u128 };
    let ay: u128 = if dy < 0 { (-dy) as u128 } else { dy as u128 };
    assert(ax <= 0x8000_0000_0000_0000u128 && ay <= 0x8000_0000_0000_0000u128);
    assert(ax * ax <= 0x8000_0000_0000_0000u128 * 0x8000_0000_0000_0000u128) by (nonlinear_arith)
        requires ax <= 0x8000_0000_0000_0000u128;
    assert(ay * ay <= 0x8000_0000_0000_0000u128 * 0x8000_0000_0000_0000u128) by (nonlinear_arith)
        requires ay <= 0x8000_0000_0000_0000u128;
    assert(ax * ax == dx * dx && ay * ay == dy * dy) by (nonlinear_arith)
        requires ax == dx || ax == -dx, ay == dy || ay == -dy;
    ax * ax + ay * ay
}

/// Builds the chain graph: one vertex per record, in order, and an edge from
/// vertex `i - 1` to vertex `i`, weighted by their squared distance, wherever
/// that squared distance is at most `limit` (in squared hundredths). Since
/// squared distances are whole numbers, a distance threshold `T` in hundredths
/// is met exactly by `limit = floor(T * T)`.
pub fn construct_graph(combined_data: Vec<CombinedDataPoint>, limit: u128) -> (g: RateGraph)
    requires
        combined_data@.len() < u32::MAX,
        forall|k: int| 0 <= k < combined_data@.len() ==> rates_in_range(#[trigger] combined_data@[k]@),
    ensures
        graph_nodes(g) == combined_data@.map_values(|c: CombinedDataPoint| c@),
        graph_edges(g) == chain_edges(graph_nodes(g), limit, combined_data@.len() as int),
{
    let mut graph = new_graph();
    let n = combined_data.len();
    let mut i: usize = 0;
    while i < n
        invariant
            i <= n,
            n == combined_data@.len(),
            n < u32::MAX,
            graph_nodes(graph) == combined_data@.take(i as int).map_values(
                |c: CombinedDataPoint| c@,
            ),
            graph_edges(graph) == Seq::<(int, int, u128)>::empty(),
        decreases n - i,
    {
        let dp = &combined_data[i];
        let vertex = Vertex {
            date: dp.date.clone(),
            inflation_rate: dp.inflation_rate,
            interest_rate: dp.interest_rate,
        };
        add_vertex(&mut graph, vertex);
        proof {
            assert(combined_data@.take(i + 1) == combined_data@.take(i as int).push(
                combined_data@[i as int],
            ));
        }
        i = i + 1;
    }
    let ghost nodes = graph_nodes(graph);
    proof {
        assert(combined_data@.take(n as int) == combined_data@);
    }
    let mut j: usize = 1;
    while j < n
        invariant
            1 <= j,
            j <= n || (n == 0 && j == 1),
            n == nodes.len(),
            n < u32::MAX,
            graph_nodes(graph) == nodes,
            forall|k: int| 0 <= k < n ==> rates_in_range(#[trigger] nodes[k]),
            graph_edges(graph) == chain_edges(nodes, limit, j as int),
            graph_edges(graph).len() < j,
        decreases n - j,
    {
        let d = squared_distance(vertex_at(&graph, j - 1), vertex_at(&graph, j));
        if d <= limit {
            add_link(&mut graph, j - 1, j, d);
        }
        j = j + 1;
    }
    proof {
        if n == 0 {
            assert(chain_edges(nodes, limit, 0) =~= chain_edges(nodes, limit, 1));
        }
    }
    graph
}

/// The weights of the edges, in the order in which they were added; an error
/// where the graph has no edge, since no average is defined then.
pub fn edge_weights(graph: &RateGraph) -> (r: Result<Vec<u128>, RateError>)
    ensures
        graph_edges(*graph).len() == 0 <==> r is Err,
        r is Err ==> r == Err::<Vec<u128>, RateError>(RateError::EmptyGraphStatistics),
        r is Ok ==> r->Ok_0@ == graph_edges(*graph).map_values(|e: (int, int, u128)| e.2),
{
    let m = edge_total(graph);
    if m == 0 {
        return Err(RateError::EmptyGraphStatistics);
    }
    let mut weights: Vec<u128> = Vec::new();
    let mut e: usize = 0;
    while e < m
        invariant
            e <= m,
            m == graph_edges(*graph).len(),
            weights@ == graph_edges(*graph).take(e as int).map_values(|x: (int, int, u128)| x.2),
        decreases m - e,
    {
        weights.push(edge_weight_at(graph, e));
        proof {
            assert(graph_edges(*graph).take(e + 1) == graph_edges(*graph).take(e as int).push(
                graph_edges(*graph)[e as int],
            ));
        }
        e = e + 1;
    }
    proof {
        assert(graph_edges(*graph).take(m as int) == graph_edges(*graph));
    }
    Ok(weights)
}

proof fn lemma_degree_count_bound(edges: Seq<(int, int, u128)>, n: int, d: nat)
    requires
        n >= 0,
    ensures
        degree_count(edges, n, d) <= n,
    decreases n,
{
    if n > 0 {
        lemma_degree_count_bound(edges, n - 1, d);
    }
}

/// How many vertices have each out-degree: a degree maps to its number of
/// vertices, and only degrees that some vertex has are keys.
pub fn degree_distribution(graph: &RateGraph) -> (m: HashMap<usize, usize>)
    ensures
        forall|d: usize| #[trigger]
            m@.contains_key(d) <==> degree_count(
                graph_edges(*graph),
                graph_nodes(*graph).len() as int,
                d as nat,
            ) > 0,
        forall|d: usize| #[trigger]
            m@.contains_key(d) ==> m@[d] as nat == degree_count(
                graph_edges(*graph),
                graph_nodes(*graph).len() as int,
                d as nat,
            ),
        map_total(m@, graph_edges(*graph).len() + 1) == graph_nodes(*graph).len(),
        map_weighted_total(m@, graph_edges(*graph).len() + 1) == graph_edges(*graph).len(),
{
    broadcast use vstd::std_specs::hash::group_hash_axioms;

    let ghost edges = graph_edges(*graph);
    let n = node_total(graph);
    let mut degree_map: HashMap<usize, usize> = HashMap::new();
    let mut v: usize = 0;
    while v < n
        invariant
            v <= n,
            n == graph_nodes(*graph).len(),
            edges == graph_edges(*graph),
            forall|d: usize| #[trigger]
                degree_map@.contains_key(d) <==> degree_count(edges, v as int, d as nat) > 0,
            forall|d: usize| #[trigger]
                degree_map@.contains_key(d) ==> degree_map@[d] as nat == degree_count(
                    edges,
                    v as int,
                    d as nat,
                ),
        decreases n - v,
    {
        let degree = out_degree(graph, v);
        let count: usize = match degree_map.get(&degree) {
            Some(c) => *c,
            None => 0,
        };
        proof {
            lemma_degree_count_bound(edges, v as int, degree as nat);
        }
        degree_map.insert(degree, count + 1);
        v = v + 1;
    }
    let edge_count = edge_total(graph);
    proof {
        lemma_map_total_is_degree_total(degree_map@, edges, n as int, (edge_count + 1) as nat);
        lemma_degree_counts_sum(edges, n as int);
        lemma_map_weighted_is_degree_weighted(
            degree_map@,
            edges,
            n as int,
            (edge_count + 1) as nat,
        );
        lemma_degree_weighted_is_out_total(edges, n as int);
        lemma_out_total_is_edge_count(edges, n as int);
    }
    degree_map
}

/// Distance is reflexive and symmetric: a vertex is at distance zero from
/// itself, and the distance from `a` to `b` is that from `b` to `a`.
pub proof fn lemma_distance_reflexive_symmetric(
    a: (Seq<char>, i64, i64),
    b: (Seq<char>, i64, i64),
)
    ensures
        sq_dist(a, a) == 0,
        sq_dist(a, b) == sq_dist(b, a),
{
    assert((a.2 - b.2) * (a.2 - b.2) == (b.2 - a.2) * (b.2 - a.2)) by (nonlinear_arith);
    assert((a.1 - b.1) * (a.1 - b.1) == (b.1 - a.1) * (b.1 - a.1)) by (nonlinear_arith);
}

/// The chain graph over `n >= 2` records has at most `n - 1` edges, and each
/// of them goes from some vertex `i - 1` to vertex `i`, both below `n`.
pub proof fn lemma_chain_shape(nodes: Seq<(Seq<char>, i64, i64)>, limit: u128, n: int)
    requires
        n >= 2,
    ensures
        chain_edges(nodes, limit, n).len() <= n - 1,
        forall|k: int|
            0 <= k < chain_edges(nodes, limit, n).len() ==> {
                let e = #[trigger] chain_edges(nodes, limit, n)[k];
                &&& 1 <= e.1 < n
                &&& e.0 == e.1 - 1
            },
    decreases n,
{
    if n > 2 {
        lemma_chain_shape(nodes, limit, n - 1);
    }
    let prev = chain_edges(nodes, limit, n - 1);
    assert(prev.len() <= n - 2) by {
        if n == 2 {
            assert(prev.len() == 0);
        }
    }
}

proof fn lemma_degree_total_step(edges: Seq<(int, int, u128)>, n: int, k: nat)
    requires
        n >= 0,
    ensures
        degree_total(edges, n + 1, k) == degree_total(edges, n, k) + if out_count(edges, n) < k {
            1nat
        } else {
            0nat
        },
    decreases k,
{
    if k > 0 {
        lemma_degree_total_step(edges, n, (k - 1) as nat);
    }
}

proof fn lemma_out_count_bound(edges: Seq<(int, int, u128)>, v: int)
    ensures
        out_count(edges, v) <= edges.len(),
    decreases edges.len(),
{
    if edges.len() > 0 {
        lemma_out_count_bound(edges.drop_last(), v);
    }
}

proof fn lemma_degree_total_empty(edges: Seq<(int, int, u128)>, k: nat)
    ensures
        degree_total(edges, 0, k) == 0,
    decreases k,
{
    if k > 0 {
        lemma_degree_total_empty(edges, (k - 1) as nat);
    }
}

/// Over the degrees `0..=e`, where `e` is the number of edges (no vertex has
/// more), the number of vertices per degree sums to the number of vertices.
pub proof fn lemma_degree_counts_sum(edges: Seq<(int, int, u128)>, n: int)
    requires
        n >= 0,
    ensures
        degree_total(edges, n, edges.len() + 1) == n,
    decreases n,
{
    if n > 0 {
        lemma_degree_counts_sum(edges, n - 1);
        lemma_out_count_bound(edges, n - 1);
        lemma_degree_total_step(edges, n - 1, edges.len() + 1);
    } else {
        lemma_degree_total_empty(edges, edges.len() + 1);
    }
}

} // verus!
