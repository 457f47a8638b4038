use vstd::prelude::*;

use crate::graph::{Graph, GraphView};

verus! {

/// The asset pair that a quote symbol stands for: a quote gives the amount
/// of `other` obtainable for one unit of `base`.
pub struct PairMapping {
    pub symbol: String,
    pub base: String,
    pub other: String,
}

/// One quote record. `log_weight` is the fixed-point `-log2(price)` of its
/// price, or `None` when the price was unparsable or not strictly positive.
pub struct QuoteRecord {
    pub symbol: String,
    pub log_weight: Option<i64>,
}

pub open spec fn maps_symbol(mapping: Seq<PairMapping>, k: int, symbol: Seq<char>) -> bool {
    0 <= k < mapping.len() && mapping[k].symbol@ == symbol
}

/// The position of the first entry of `mapping` for `symbol`, if any.
#[verifier::opaque]
pub open spec fn lookup_pair(mapping: Seq<PairMapping>, symbol: Seq<char>) -> Option<int> {
    if exists|k: int| maps_symbol(mapping, k, symbol) {
        Some(
            choose|k: int|
                maps_symbol(mapping, k, symbol) && forall|j: int| 0 <= j < k ==> !maps_symbol(mapping, j, symbol),
        )
    } else {
        None
    }
}

/// `g` with the edges of one quote of log-weight `w` on the pair `base`/`other`:
/// both nodes, then `base -> other` of weight `w` and `other -> base` of `-w`.
pub open spec fn with_quote(g: GraphView, base: Seq<char>, other: Seq<char>, w: int) -> GraphView {
    let g2 = g.with_node(base).with_node(other);
    let a = g2.node_index(base);
    let b = g2.node_index(other);
    g2.with_edge(a, b, w).with_edge(b, a, -w)
}

/// `g` after one record: unchanged when its symbol is unmapped or it has no
/// usable weight.
pub open spec fn apply_record(g: GraphView, mapping: Seq<PairMapping>, q: QuoteRecord) -> GraphView {
    match (lookup_pair(mapping, q.symbol@), q.log_weight) {
        (Some(k), Some(w)) => with_quote(g, mapping[k].base@, mapping[k].other@, w as int),
        _ => g,
    }
}

/// The graph built from `records`, taken in order, starting from an empty graph.
pub open spec fn built_graph(mapping: Seq<PairMapping>, records: Seq<QuoteRecord>) -> GraphView
    decreases records.len(),
{
    if records.len() == 0 {
        GraphView::empty()
    } else {
        apply_record(built_graph(mapping, records.drop_last()), mapping, records.last())
    }
}

/// A weight whose negation is an `i64` too.
pub open spec fn negatable(records: Seq<QuoteRecord>) -> bool {
    forall|i: int| 0 <= i < records.len() ==> records[i].log_weight != Some(i64::MIN)
}

fn find_pair(mapping: &Vec<PairMapping>, symbol: &String) -> (r: Option<usize>)
    ensures
        r is None <==> lookup_pair(mapping@, symbol@) is None,
        r matches Some(k) ==> lookup_pair(mapping@, symbol@) == Some(k as int) && maps_symbol(
            mapping@,
            k as int,
            symbol@,
        ),
{
    let mut k: usize = 0;
    while k < mapping.len()
        invariant
            k <= mapping.len(),
            forall|j: int| 0 <= j < k ==> !maps_symbol(mapping@, j, symbol@),
        decreases mapping.len() - k,
    {
        if mapping[k].symbol == *symbol {
            proof {
                reveal(lookup_pair);
            }
            let ghost m = mapping@;
            assert(maps_symbol(m, k as int, symbol@));
            let ghost c = choose|c: int|
                maps_symbol(m, c, symbol@) && forall|j: int| 0 <= j < c ==> !maps_symbol(m, j, symbol@);
            assert(c == k as int) by {
                if c > k as int {
                    assert(!maps_symbol(m, k as int, symbol@));
                }
            };
            return Some(k);
        }
        k += 1;
    }
    proof {
        reveal(lookup_pair);
    }
    None
}

/// Builds the asset graph from quote records and a symbol-to-pair mapping.
/// A record whose symbol is unmapped, or whose price gave no weight, is
/// skipped; every other record adds a forward and a reverse edge, so repeated
/// quotes for a pair give parallel edges.
pub fn graph_builder(mapping: &Vec<PairMapping>, records: &Vec<QuoteRecord>) -> (g: Graph)
    requires
        negatable(records@),
    ensures
        g@ == built_graph(mapping@, records@),
        g@.wf(),
{
    let mut g = Graph::new();
    let mut i: usize = 0;
    while i < records.len()
        invariant
            i <= records.len(),
            negatable(records@),
            g@ == built_graph(mapping@, records@.subrange(0, i as int)),
            g@.wf(),
        decreases records.len() - i,
    {
        let ghost before = g@;
        let q = &records[i];
        assert(records@.subrange(0, i + 1).drop_last() =~= records@.subrange(0, i as int));
        assert(records@.subrange(0, i + 1).last() == records@[i as int]);
        if let Some(k) = find_pair(mapping, &q.symbol) {
            if let Some(w) = q.log_weight {
                assert(w != i64::MIN);
                let a = g.node_for(&mapping[k].base);
                let b = g.node_for(&mapping[k].other);
                let ghost g2 = g@;
                assert(g2 == before.with_node(mapping@[k as int].base@).with_node(mapping@[k as int].other@));
                assert(g2.nodes[a as int] == mapping@[k as int].base@);
                assert(a as int == g2.node_index(mapping@[k as int].base@)) by {
                    let c = g2.node_index(mapping@[k as int].base@);
                    assert(g2.has_node(mapping@[k as int].base@));
                    if c < a as int {
                        assert(g2.nodes[c] != g2.nodes[a as int]);
                    } else if c > a as int {
                        assert(g2.nodes[a as int] != g2.nodes[c]);
                    }
                };
                g.add_edge(a, b, w);
                g.add_edge(b, a, -w);
            }
        }
        i += 1;
    }
    assert(records@.subrange(0, i as int) =~= records@);
    g
}

} // verus!
