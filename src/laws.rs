use vstd::prelude::*;

use crate::breaking::{after_removal, REMOVED_POSITION};
use crate::cycle::{detect, lemma_detect_is_negative_cycle, nonnegative_weights_have_no_negative_cycle};
use crate::graph::GraphView;

verus! {

/// Whenever the detector reports a cycle, the evaluator's total log-weight of
/// that cycle is negative, so its profit multiplier `2^(-weight)` exceeds one.
pub proof fn reported_cycle_is_profitable(g: GraphView, cycle: Seq<usize>, links: Seq<usize>)
    requires
        detect(g) == Some((cycle, links)),
    ensures
        g.cycle_weight(links) < 0,
        g.is_closed_walk(cycle, links),
{
    lemma_detect_is_negative_cycle(g);
}

/// On a graph whose edge weights are all non-negative the detector reports
/// no cycle.
pub proof fn no_cycle_without_negative_weights(g: GraphView)
    requires
        g.all_weights_nonnegative(),
    ensures
        detect(g) is None,
{
    lemma_detect_is_negative_cycle(g);
    if let Some((c, l)) = detect(g) {
        nonnegative_weights_have_no_negative_cycle(g, c, l);
    }
}

/// The detector's answer is a function of the graph alone: on graphs with the
/// same nodes and edges it reports the same cycle, or no cycle both times, so
/// running it twice on an unmodified graph gives the same answer.
pub proof fn detection_is_repeatable(g: GraphView, h: GraphView)
    requires
        g == h,
    ensures
        detect(g) == detect(h),
{
}

proof fn lemma_node_count_after_steps(gs: Seq<GraphView>, cycles: Seq<Seq<usize>>, links: Seq<Seq<usize>>, k: int)
    requires
        gs.len() == cycles.len() + 1,
        links.len() == cycles.len(),
        0 <= k < gs.len(),
        forall|i: int|
            0 <= i < cycles.len() ==> {
                &&& detect(#[trigger] gs[i]) == Some((cycles[i], links[i]))
                &&& cycles[i].len() > REMOVED_POSITION
                &&& gs[i + 1] == after_removal(gs[i], cycles[i])
            },
    ensures
        gs[k].nodes.len() == gs[0].nodes.len() - k,
    decreases k,
{
    if k > 0 {
        lemma_node_count_after_steps(gs, cycles, links, k - 1);
        let g = gs[k - 1];
        let c = cycles[k - 1];
        assert(detect(g) == Some((c, links[k - 1])));
        lemma_detect_is_negative_cycle(g);
        assert(g.is_negative_cycle(c, links[k - 1]));
        assert((c[REMOVED_POSITION as int] as int) < g.nodes.len());
    }
}

/// A run of breaking steps, each of which was reported a cycle longer than
/// the removal position by the detector and removed its node, takes at most
/// as many steps as the first graph has nodes, and each step leaves exactly
/// one node fewer.
pub proof fn breaking_steps_bounded(gs: Seq<GraphView>, cycles: Seq<Seq<usize>>, links: Seq<Seq<usize>>)
    requires
        gs.len() == cycles.len() + 1,
        links.len() == cycles.len(),
        forall|i: int|
            0 <= i < cycles.len() ==> {
                &&& detect(#[trigger] gs[i]) == Some((cycles[i], links[i]))
                &&& cycles[i].len() > REMOVED_POSITION
                &&& gs[i + 1] == after_removal(gs[i], cycles[i])
            },
    ensures
        cycles.len() <= gs[0].nodes.len(),
        gs.last().nodes.len() == gs[0].nodes.len() - cycles.len(),
{
    lemma_node_count_after_steps(gs, cycles, links, cycles.len() as int);
}

} // verus!
