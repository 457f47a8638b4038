use vstd::prelude::*;

verus! {

/// Edge weights are fixed-point values of `-log2(price)`: this is the weight
/// of one whole unit, the magnitude of the weight of a price of 2 or 1/2.
pub const WEIGHT_ONE: i64 = 4294967296;

/// A directed convertibility edge. `weight` is the fixed-point log-weight
/// `-log2(price)` of converting one unit of `source` into `target`.
#[derive(Clone, Copy, Debug, PartialEq, Eq, Structural)]
pub struct Edge {
    pub source: usize,
    pub target: usize,
    pub weight: i64,
}

/// A directed weighted multigraph of assets. Node handles are positions in
/// `nodes`; parallel edges are kept, in insertion order.
pub struct Graph {
    pub nodes: Vec<String>,
    pub edges: Vec<Edge>,
}

/// The mathematical model of a `Graph`: asset labels and the edge list.
pub struct GraphView {
    pub nodes: Seq<Seq<char>>,
    pub edges: Seq<Edge>,
}

impl View for Graph {
    type V = GraphView;

    open spec fn view(&self) -> GraphView {
        GraphView { nodes: self.nodes@.map_values(|s: String| s@), edges: self.edges@ }
    }
}

/// The handle that node `x` gets once the node at handle `v` is removed.
pub open spec fn shifted(x: usize, v: usize) -> usize {
    if x > v {
        (x - 1) as usize
    } else {
        x
    }
}

/// The edges that survive removing node `v`, renumbered, in their old order.
pub open spec fn kept_edges(edges: Seq<Edge>, v: usize) -> Seq<Edge>
    decreases edges.len(),
{
    if edges.len() == 0 {
        Seq::empty()
    } else {
        let rest = kept_edges(edges.drop_last(), v);
        let e = edges.last();
        if e.source == v || e.target == v {
            rest
        } else {
            rest.push(Edge { source: shifted(e.source, v), target: shifted(e.target, v), weight: e.weight })
        }
    }
}

/// Number of edges in `edges` that leave node `v`.
pub open spec fn count_out(edges: Seq<Edge>, v: int) -> nat
    decreases edges.len(),
{
    if edges.len() == 0 {
        0
    } else {
        count_out(edges.drop_last(), v) + if edges.last().source == v { 1nat } else { 0nat }
    }
}

/// Sum of the out-degrees of nodes `0 .. n`.
pub open spec fn out_degree_sum(edges: Seq<Edge>, n: int) -> nat
    decreases n,
{
    if n <= 0 {
        0
    } else {
        out_degree_sum(edges, n - 1) + count_out(edges, n - 1)
    }
}

proof fn lemma_out_degree_sum_step(edges: Seq<Edge>, m: int)
    requires
        edges.len() > 0,
        m >= 0,
    ensures
        out_degree_sum(edges, m) == out_degree_sum(edges.drop_last(), m) + if (edges.last().source as int)
            < m {
            1nat
        } else {
            0nat
        },
    decreases m,
{
    if m > 0 {
        lemma_out_degree_sum_step(edges, m - 1);
    }
}

proof fn lemma_out_degree_sum_empty(edges: Seq<Edge>, m: int)
    requires
        edges.len() == 0,
    ensures
        out_degree_sum(edges, m) == 0,
    decreases m,
{
    if m > 0 {
        lemma_out_degree_sum_empty(edges, m - 1);
    }
}

proof fn lemma_out_degree_sum_total(edges: Seq<Edge>, n: int)
    requires
        n >= 0,
        forall|i: int| 0 <= i < edges.len() ==> (edges[i].source as int) < n,
    ensures
        out_degree_sum(edges, n) == edges.len(),
    decreases edges.len(),
{
    if edges.len() > 0 {
        let init = edges.drop_last();
        assert forall|i: int| 0 <= i < init.len() implies (init[i].source as int) < n by {
            assert(init[i] == edges[i]);
        };
        assert(edges.last() == edges[edges.len() - 1]);
        assert((edges.last().source as int) < n);
        lemma_out_degree_sum_total(init, n);
        lemma_out_degree_sum_step(edges, n);
        assert(init.len() + 1 == edges.len());
    } else {
        lemma_out_degree_sum_empty(edges, n);
    }
}

impl GraphView {
    pub open spec fn empty() -> GraphView {
        GraphView { nodes: Seq::empty(), edges: Seq::empty() }
    }

    /// Every edge joins present nodes, and asset labels are unique.
    pub open spec fn wf(self) -> bool {
        &&& forall|i: int|
            0 <= i < self.edges.len() ==> (self.edges[i].source as int) < self.nodes.len()
                && (self.edges[i].target as int) < self.nodes.len()
        &&& forall|i: int, j: int| 0 <= i < j < self.nodes.len() ==> self.nodes[i] != self.nodes[j]
    }

    pub open spec fn has_node(self, label: Seq<char>) -> bool {
        exists|i: int| 0 <= i < self.nodes.len() && self.nodes[i] == label
    }

    /// The handle of the node labelled `label` (meaningful when `has_node`).
    pub open spec fn node_index(self, label: Seq<char>) -> int {
        choose|i: int| 0 <= i < self.nodes.len() && self.nodes[i] == label
    }

    /// The graph with a node for `label`, added at the end if it was missing.
    pub open spec fn with_node(self, label: Seq<char>) -> GraphView {
        if self.has_node(label) {
            self
        } else {
            GraphView { nodes: self.nodes.push(label), edges: self.edges }
        }
    }

    pub open spec fn with_edge(self, s: int, t: int, w: int) -> GraphView {
        GraphView {
            nodes: self.nodes,
            edges: self.edges.push(Edge { source: s as usize, target: t as usize, weight: w as i64 }),
        }
    }

    pub open spec fn is_edge(self, k: int, s: int, t: int) -> bool {
        0 <= k < self.edges.len() && self.edges[k].source == s && self.edges[k].target == t
    }

    /// The position of the first edge from `s` to `t`, if there is one.
    #[verifier::opaque]
    pub open spec fn first_edge(self, s: int, t: int) -> Option<int> {
        if exists|k: int| self.is_edge(k, s, t) {
            Some(choose|k: int| self.is_edge(k, s, t) && forall|j: int| 0 <= j < k ==> !self.is_edge(j, s, t))
        } else {
            None
        }
    }

    /// The graph after removing node `v` and every edge that touches it.
    pub open spec fn without_node(self, v: usize) -> GraphView {
        GraphView { nodes: self.nodes.remove(v as int), edges: kept_edges(self.edges, v) }
    }

    pub open spec fn out_degree(self, v: int) -> nat {
        count_out(self.edges, v)
    }
}

proof fn lemma_kept_edges_bounded(edges: Seq<Edge>, v: usize, n: int)
    requires
        (v as int) < n,
        forall|i: int| 0 <= i < edges.len() ==> (edges[i].source as int) < n && (edges[i].target as int) < n,
    ensures
        forall|i: int|
            0 <= i < kept_edges(edges, v).len() ==> (kept_edges(edges, v)[i].source as int) < n - 1
                && (kept_edges(edges, v)[i].target as int) < n - 1,
    decreases edges.len(),
{
    if edges.len() > 0 {
        let init = edges.drop_last();
        assert forall|i: int| 0 <= i < init.len() implies (init[i].source as int) < n && (init[i].target
            as int) < n by {
            assert(init[i] == edges[i]);
        };
        lemma_kept_edges_bounded(init, v, n);
        let e = edges[edges.len() - 1];
        assert(edges.last() == e);
        let rest = kept_edges(init, v);
        let out = kept_edges(edges, v);
        if !(e.source == v || e.target == v) {
            assert forall|i: int| 0 <= i < out.len() implies (out[i].source as int) < n - 1 && (
            out[i].target as int) < n - 1 by {
                if i < rest.len() {
                    assert(out[i] == rest[i]);
                }
            };
        }
    }
}

impl Graph {
    /// An empty graph.
    pub fn new() -> (g: Graph)
        ensures
            g@ == GraphView::empty(),
    {
        let g = Graph { nodes: Vec::new(), edges: Vec::new() };
        assert(g@.nodes =~= Seq::<Seq<char>>::empty());
        g
    }

    pub fn node_count(&self) -> (r: usize)
        ensures
            r == self@.nodes.len(),
    {
        self.nodes.len()
    }

    pub fn edge_count(&self) -> (r: usize)
        ensures
            r == self@.edges.len(),
    {
        self.edges.len()
    }

    /// The handle of the node labelled `label`, if there is one.
    pub fn find_node(&self, label: &String) -> (r: Option<usize>)
        requires
            self@.wf(),
        ensures
            r is None <==> !self@.has_node(label@),
            r matches Some(i) ==> i == self@.node_index(label@) && (i as int) < self@.nodes.len(),
    {
        let mut i: usize = 0;
        while i < self.nodes.len()
            invariant
                i <= self.nodes.len(),
                self@.wf(),
                forall|j: int| 0 <= j < i ==> self@.nodes[j] != label@,
            decreases self.nodes.len() - i,
        {
            if self.nodes[i] == *label {
                assert(self@.nodes[i as int] == label@);
                assert(self@.has_node(label@));
                let ghost c = self@.node_index(label@);
                assert(c == i as int) by {
                    assert(self@.nodes[c] == label@);
                    if c < i as int {
                        assert(self@.nodes[c] != self@.nodes[i as int]);
                    } else if c > i as int {
                        assert(self@.nodes[i as int] != self@.nodes[c]);
                    }
                };
                return Some(i);
            }
            i += 1;
        }
        None
    }

    /// The handle of the node labelled `label`, inserting the node if it is new.
    pub fn node_for(&mut self, label: &String) -> (r: usize)
        requires
            old(self)@.wf(),
        ensures
            final(self)@ == old(self)@.with_node(label@),
            final(self)@.wf(),
            r as int == final(self)@.node_index(label@),
            final(self)@.has_node(label@),
            (r as int) < final(self)@.nodes.len(),
    {
        match self.find_node(label) {
            Some(i) => i,
            None => {
                let ghost before = self@;
                let i = self.nodes.len();
                self.nodes.push(label.clone());
                assert(self@.nodes =~= before.nodes.push(label@));
                assert(self@.nodes[i as int] == label@);
                i
            },
        }
    }

    /// Appends an edge; parallel edges are kept.
    pub fn add_edge(&mut self, source: usize, target: usize, weight: i64)
        requires
            old(self)@.wf(),
            (source as int) < old(self)@.nodes.len(),
            (target as int) < old(self)@.nodes.len(),
        ensures
            final(self)@ == old(self)@.with_edge(source as int, target as int, weight as int),
            final(self)@.wf(),
    {
        let ghost before = self@;
        self.edges.push(Edge { source, target, weight });
        assert(self@.edges =~= before.edges.push(Edge { source, target, weight }));
        assert(self@.nodes =~= before.nodes);
    }

    /// The position of the first edge from `source` to `target`, if any.
    pub fn find_edge(&self, source: usize, target: usize) -> (r: Option<usize>)
        ensures
            r is None <==> self@.first_edge(source as int, target as int) is None,
            r matches Some(k) ==> self@.first_edge(source as int, target as int) == Some(k as int)
                && self@.is_edge(k as int, source as int, target as int),
    {
        proof {
            reveal(GraphView::first_edge);
        }
        let mut k: usize = 0;
        while k < self.edges.len()
            invariant
                k <= self.edges.len(),
                forall|j: int| 0 <= j < k ==> !self@.is_edge(j, source as int, target as int),
            decreases self.edges.len() - k,
        {
            let e = self.edges[k];
            if e.source == source && e.target == target {
                proof {
                    reveal(GraphView::first_edge);
                }
                let ghost g = self@;
                assert(g.is_edge(k as int, source as int, target as int));
                let ghost c = choose|c: int|
                    g.is_edge(c, source as int, target as int) && forall|j: int|
                        0 <= j < c ==> !g.is_edge(j, source as int, target as int);
                assert(c == k as int) by {
                    if c < k as int {
                    } else if c > k as int {
                        assert(!g.is_edge(k as int, source as int, target as int));
                    }
                };
                return Some(k);
            }
            k += 1;
        }
        proof {
            reveal(GraphView::first_edge);
        }
        None
    }

    /// Number of edges leaving node `v`.
    pub fn out_degree(&self, v: usize) -> (r: usize)
        ensures
            r == self@.out_degree(v as int),
    {
        let mut count: usize = 0;
        let mut k: usize = 0;
        while k < self.edges.len()
            invariant
                k <= self.edges.len(),
                count == count_out(self@.edges.subrange(0, k as int), v as int),
                count <= k,
            decreases self.edges.len() - k,
        {
            assert(self@.edges.subrange(0, k + 1).drop_last() =~= self@.edges.subrange(0, k as int));
            if self.edges[k].source == v {
                count += 1;
            }
            k += 1;
        }
        assert(self@.edges.subrange(0, k as int) =~= self@.edges);
        count
    }

    /// Sum of the out-degrees of all nodes: every edge leaves exactly one node.
    pub fn total_out_degree(&self) -> (r: usize)
        requires
            self@.wf(),
        ensures
            r == out_degree_sum(self@.edges, self@.nodes.len() as int),
            r == self@.edges.len(),
    {
        proof {
            lemma_out_degree_sum_total(self@.edges, self@.nodes.len() as int);
        }
        self.edges.len()
    }

    /// Removes node `v` and every edge incident to it. Later nodes move down
    /// one handle, and the remaining edges keep their order. Moving the last
    /// node into the freed handle instead would be cheaper, but it would
    /// reorder the nodes: keeping insertion order means the search start, handle
    /// 0, is always the earliest-added node that remains, and that the first of
    /// several parallel edges stays the first.
    pub fn remove_node(&mut self, v: usize)
        requires
            old(self)@.wf(),
            (v as int) < old(self)@.nodes.len(),
        ensures
            final(self)@ == old(self)@.without_node(v),
            final(self)@.wf(),
            final(self)@.nodes.len() == old(self)@.nodes.len() - 1,
    {
        let ghost before = self@;
        let mut kept: Vec<Edge> = Vec::new();
        let mut k: usize = 0;
        while k < self.edges.len()
            invariant
                k <= self.edges.len(),
                self@ == before,
                kept@ == kept_edges(before.edges.subrange(0, k as int), v),
            decreases self.edges.len() - k,
        {
            assert(before.edges.subrange(0, k + 1).drop_last() =~= before.edges.subrange(0, k as int));
            let e = self.edges[k];
            if e.source != v && e.target != v {
                let s = if e.source > v { e.source - 1 } else { e.source };
                let t = if e.target > v { e.target - 1 } else { e.target };
                kept.push(Edge { source: s, target: t, weight: e.weight });
            }
            k += 1;
        }
        assert(before.edges.subrange(0, k as int) =~= before.edges);
        self.nodes.remove(v);
        self.edges = kept;
        assert(self@.nodes =~= before.nodes.remove(v as int));
        proof {
            lemma_kept_edges_bounded(before.edges, v, before.nodes.len() as int);
        }
        assert forall|i: int, j: int| 0 <= i < j < self@.nodes.len() implies self@.nodes[i] != self@.nodes[j] by {
            let oi = if i < v { i } else { i + 1 };
            let oj = if j < v { j } else { j + 1 };
            assert(self@.nodes[i] == before.nodes[oi]);
            assert(self@.nodes[j] == before.nodes[oj]);
        };
    }
}

} // verus!
