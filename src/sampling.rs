use vstd::prelude::*;

use crate::graph::{Edge, Graph, GraphView};

verus! {

/// How many of the first `i` entries of `keep` are set: the handle that a
/// kept node `i` gets in the induced subgraph.
pub open spec fn kept_before(keep: Seq<bool>, i: int) -> int
    decreases i,
{
    if i <= 0 {
        0
    } else {
        kept_before(keep, i - 1) + if keep[i - 1] { 1int } else { 0int }
    }
}

/// The labels of the kept nodes, in their old order.
pub open spec fn induced_nodes(nodes: Seq<Seq<char>>, keep: Seq<bool>) -> Seq<Seq<char>>
    decreases nodes.len(),
{
    if nodes.len() == 0 {
        Seq::empty()
    } else {
        let rest = induced_nodes(nodes.drop_last(), keep);
        if keep[nodes.len() - 1] {
            rest.push(nodes.last())
        } else {
            rest
        }
    }
}

/// The edges whose two ends are kept, renumbered, in their old order.
pub open spec fn induced_edges(edges: Seq<Edge>, keep: Seq<bool>) -> Seq<Edge>
    decreases edges.len(),
{
    if edges.len() == 0 {
        Seq::empty()
    } else {
        let rest = induced_edges(edges.drop_last(), keep);
        let e = edges.last();
        if keep[e.source as int] && keep[e.target as int] {
            rest.push(
                Edge {
                    source: kept_before(keep, e.source as int) as usize,
                    target: kept_before(keep, e.target as int) as usize,
                    weight: e.weight,
                },
            )
        } else {
            rest
        }
    }
}

/// The subgraph of `g` induced by the nodes that `keep` marks.
pub open spec fn induced(g: GraphView, keep: Seq<bool>) -> GraphView {
    GraphView { nodes: induced_nodes(g.nodes, keep), edges: induced_edges(g.edges, keep) }
}

proof fn lemma_kept_before_monotone(keep: Seq<bool>, i: int, j: int)
    requires
        0 <= i <= j,
    ensures
        kept_before(keep, i) <= kept_before(keep, j),
        0 <= kept_before(keep, i),
    decreases j,
{
    if j > i {
        lemma_kept_before_monotone(keep, i, j - 1);
    } else if i > 0 {
        lemma_kept_before_monotone(keep, i - 1, i - 1);
    }
}

/// The subgraph induced by the nodes `i` with `keep[i]`: kept nodes keep
/// their order, and an edge stays when both of its ends are kept.
pub fn induced_subgraph(g: &Graph, keep: &Vec<bool>) -> (r: Graph)
    requires
        g@.wf(),
        keep@.len() == g@.nodes.len(),
    ensures
        r@ == induced(g@, keep@),
        r@.wf(),
{
    let ghost gv = g@;
    let n = g.nodes.len();
    let mut nodes: Vec<String> = Vec::new();
    let mut handle: Vec<usize> = Vec::new();
    let mut i: usize = 0;
    while i < n
        invariant
            gv == g@,
            gv.wf(),
            n == gv.nodes.len(),
            keep@.len() == n,
            i <= n,
            handle@.len() == i,
            nodes@.map_values(|s: String| s@) == induced_nodes(gv.nodes.subrange(0, i as int), keep@),
            nodes@.len() == kept_before(keep@, i as int),
            forall|j: int| 0 <= j < i ==> handle@[j] as int == kept_before(keep@, j),
            forall|k: int|
                0 <= k < nodes@.len() ==> exists|j: int| 0 <= j < i && #[trigger] nodes@[k]@ == gv.nodes[j],
            forall|k: int, l: int| 0 <= k < l < nodes@.len() ==> nodes@[k]@ != nodes@[l]@,
        decreases n - i,
    {
        let ghost prefix = gv.nodes.subrange(0, i + 1);
        assert(prefix.drop_last() =~= gv.nodes.subrange(0, i as int));
        assert(prefix.last() == gv.nodes[i as int]);
        handle.push(nodes.len());
        if keep[i] {
            let ghost old_nodes = nodes@;
            assert forall|k: int| 0 <= k < old_nodes.len() implies old_nodes[k]@ != gv.nodes[i as int] by {
                let j = choose|j: int| 0 <= j < i && old_nodes[k]@ == gv.nodes[j];
                assert(gv.nodes[j] != gv.nodes[i as int]);
            };
            nodes.push(g.nodes[i].clone());
            assert(nodes@.map_values(|s: String| s@) =~= old_nodes.map_values(|s: String| s@).push(
                gv.nodes[i as int],
            ));
            assert forall|k: int| 0 <= k < nodes@.len() implies exists|j: int|
                0 <= j < i + 1 && #[trigger] nodes@[k]@ == gv.nodes[j] by {
                if k < old_nodes.len() {
                    assert(nodes@[k] == old_nodes[k]);
                } else {
                    assert(nodes@[k]@ == gv.nodes[i as int]);
                }
            };
        }
        i += 1;
    }
    assert(gv.nodes.subrange(0, n as int) =~= gv.nodes);
    let mut edges: Vec<Edge> = Vec::new();
    let mut k: usize = 0;
    while k < g.edges.len()
        invariant
            gv == g@,
            gv.wf(),
            n == gv.nodes.len(),
            keep@.len() == n,
            handle@.len() == n,
            nodes@.len() == kept_before(keep@, n as int),
            forall|j: int| 0 <= j < n ==> handle@[j] as int == kept_before(keep@, j),
            k <= gv.edges.len(),
            edges@ == induced_edges(gv.edges.subrange(0, k as int), keep@),
            forall|j: int|
                0 <= j < edges@.len() ==> (edges@[j].source as int) < nodes@.len() && (edges@[j].target as int)
                    < nodes@.len(),
        decreases gv.edges.len() - k,
    {
        let ghost prefix = gv.edges.subrange(0, k + 1);
        assert(prefix.drop_last() =~= gv.edges.subrange(0, k as int));
        let e = g.edges[k];
        assert(prefix.last() == e);
        if keep[e.source] && keep[e.target] {
            proof {
                lemma_kept_before_monotone(keep@, e.source as int + 1, n as int);
                lemma_kept_before_monotone(keep@, e.target as int + 1, n as int);
                lemma_kept_before_monotone(keep@, e.source as int, e.source as int);
                lemma_kept_before_monotone(keep@, e.target as int, e.target as int);
            }
            edges.push(Edge { source: handle[e.source], target: handle[e.target], weight: e.weight });
        }
        k += 1;
    }
    assert(gv.edges.subrange(0, k as int) =~= gv.edges);
    Graph { nodes, edges }
}

} // verus!
