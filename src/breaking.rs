use vstd::prelude::*;

use crate::cycle::{cycle_log_weight, detect, negative_finder, Cycle};
use crate::graph::{out_degree_sum, Graph, GraphView};

verus! {

/// The position, within a reported cycle, of the node that a step removes.
pub const REMOVED_POSITION: usize = 2;

/// What one step of the breaking loop found and did.
pub struct CycleReport {
    /// The nodes of the negative cycle found, in forward order.
    pub cycle: Vec<usize>,
    /// The positions of its edges: `cycle_links[i]` leaves `cycle[i]`.
    pub cycle_links: Vec<usize>,
    /// Its total log-weight; the profit multiplier is `2^(-cycle_weight)`.
    pub cycle_weight: i128,
    /// Sum of the out-degrees of all nodes before the removal.
    pub out_degree_sum: usize,
    /// Number of nodes before the removal.
    pub node_count: usize,
    /// The handle of the node removed, if the cycle was long enough.
    pub removed: Option<usize>,
}

/// The graph after the removal step for `cycle`: its node at
/// `REMOVED_POSITION` is removed when the cycle is longer than that position.
pub open spec fn after_removal(g: GraphView, cycle: Seq<usize>) -> GraphView {
    if cycle.len() > REMOVED_POSITION {
        g.without_node(cycle[REMOVED_POSITION as int])
    } else {
        g
    }
}

/// Removes the cycle's node at `REMOVED_POSITION`, with its edges; a cycle of
/// two nodes or fewer leaves the graph unchanged.
pub fn remove_nodes(g: &mut Graph, cycle: &Vec<usize>)
    requires
        old(g)@.wf(),
        forall|i: int| 0 <= i < cycle@.len() ==> (cycle@[i] as int) < old(g)@.nodes.len(),
    ensures
        final(g)@ == after_removal(old(g)@, cycle@),
        final(g)@.wf(),
        cycle@.len() > REMOVED_POSITION ==> final(g)@.nodes.len() == old(g)@.nodes.len() - 1,
        cycle@.len() <= REMOVED_POSITION ==> final(g)@.nodes.len() == old(g)@.nodes.len(),
{
    if cycle.len() > REMOVED_POSITION {
        g.remove_node(cycle[REMOVED_POSITION]);
    }
}

/// One step of the arbitrage-breaking loop: search for a negative cycle and,
/// if one is found, report it with the graph's degree statistics and remove
/// one of its nodes. `None` means no cycle was found: the loop is done.
pub fn break_step(g: &mut Graph) -> (r: Option<CycleReport>)
    requires
        old(g)@.wf(),
    ensures
        final(g)@.wf(),
        r is None ==> final(g)@ == old(g)@ && detect(old(g)@) is None,
        old(g)@.nodes.len() <= 1 ==> r is None,
        old(g)@.all_weights_nonnegative() ==> r is None,
        r matches Some(rep) ==> {
            &&& detect(old(g)@) == Some((rep.cycle@, rep.cycle_links@))
            &&& old(g)@.is_negative_cycle(rep.cycle@, rep.cycle_links@)
            &&& rep.cycle_weight == old(g)@.cycle_weight(rep.cycle_links@)
            &&& rep.out_degree_sum == out_degree_sum(old(g)@.edges, old(g)@.nodes.len() as int)
            &&& rep.node_count == old(g)@.nodes.len()
            &&& final(g)@ == after_removal(old(g)@, rep.cycle@)
            &&& rep.cycle@.len() > REMOVED_POSITION ==> final(g)@.nodes.len() == old(g)@.nodes.len() - 1
            &&& rep.removed == if rep.cycle@.len() > REMOVED_POSITION {
                Some(rep.cycle@[REMOVED_POSITION as int])
            } else {
                None
            }
        },
{
    match negative_finder(g) {
        None => None,
        Some(found) => {
            let Cycle { nodes: cycle, links: cycle_links } = found;
            let cycle_weight = cycle_log_weight(g, &cycle_links);
            let out_degree_sum = g.total_out_degree();
            let node_count = g.node_count();
            let removed = if cycle.len() > REMOVED_POSITION {
                Some(cycle[REMOVED_POSITION])
            } else {
                None
            };
            remove_nodes(g, &cycle);
            Some(CycleReport { cycle, cycle_links, cycle_weight, out_degree_sum, node_count, removed })
        },
    }
}

} // verus!
