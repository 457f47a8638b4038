use vstd::prelude::*;

use crate::graph::{Edge, Graph, GraphView};

verus! {

/// The position that follows `i` in the closed cycle `c`.
pub open spec fn next_index(c: Seq<usize>, i: int) -> int {
    if i + 1 < c.len() {
        i + 1
    } else {
        0
    }
}

/// A cycle as its nodes in forward order and the positions of its edges:
/// `links[i]` runs from `nodes[i]` to the node after it, the last one back
/// to the first.
#[derive(Clone, Debug, PartialEq, Eq)]
pub struct Cycle {
    pub nodes: Vec<usize>,
    pub links: Vec<usize>,
}

impl GraphView {
    /// Weight of the edge at position `k`, or 0 when there is none.
    pub open spec fn weight_at(self, k: usize) -> int {
        if (k as int) < self.edges.len() {
            self.edges[k as int].weight as int
        } else {
            0
        }
    }

    /// Sum of the weights of the first `k` edges that `links` names.
    pub open spec fn partial_weight(self, links: Seq<usize>, k: int) -> int
        decreases k,
    {
        if k <= 0 {
            0
        } else {
            self.partial_weight(links, k - 1) + self.weight_at(links[k - 1])
        }
    }

    /// Total log-weight of the edges that `links` names.
    pub open spec fn cycle_weight(self, links: Seq<usize>) -> int {
        self.partial_weight(links, links.len() as int)
    }

    /// `nodes` is non-empty, and `links[i]` is an edge of the graph from
    /// `nodes[i]` to the node after it, the last node's back to the first.
    pub open spec fn is_closed_walk(self, nodes: Seq<usize>, links: Seq<usize>) -> bool {
        &&& nodes.len() >= 1
        &&& links.len() == nodes.len()
        &&& forall|i: int|
            0 <= i < nodes.len() ==> {
                &&& (#[trigger] nodes[i] as int) < self.nodes.len()
                &&& (links[i] as int) < self.edges.len()
                &&& self.edges[links[i] as int].source == nodes[i]
                &&& self.edges[links[i] as int].target == nodes[next_index(nodes, i)]
            }
    }

    /// A closed walk through distinct nodes, so no longer than the node count,
    /// whose total log-weight is negative: an arbitrage cycle.
    pub open spec fn is_negative_cycle(self, nodes: Seq<usize>, links: Seq<usize>) -> bool {
        &&& self.is_closed_walk(nodes, links)
        &&& is_simple(nodes)
        &&& nodes.len() <= self.nodes.len()
        &&& self.cycle_weight(links) < 0
    }

    /// No edge has a negative weight.
    pub open spec fn all_weights_nonnegative(self) -> bool {
        forall|k: int| 0 <= k < self.edges.len() ==> self.edges[k].weight >= 0
    }
}

/// No node occurs twice in `nodes`.
pub open spec fn is_simple(nodes: Seq<usize>) -> bool {
    forall|i: int, j: int| 0 <= i < j < nodes.len() ==> nodes[i] != nodes[j]
}

proof fn lemma_partial_weight_nonnegative(g: GraphView, links: Seq<usize>, k: int)
    requires
        g.all_weights_nonnegative(),
        0 <= k <= links.len(),
    ensures
        g.partial_weight(links, k) >= 0,
    decreases k,
{
    if k > 0 {
        lemma_partial_weight_nonnegative(g, links, k - 1);
    }
}

/// A graph whose edge weights are all non-negative has no negative cycle.
pub proof fn nonnegative_weights_have_no_negative_cycle(g: GraphView, nodes: Seq<usize>, links: Seq<usize>)
    requires
        g.all_weights_nonnegative(),
    ensures
        !g.is_negative_cycle(nodes, links),
{
    lemma_partial_weight_nonnegative(g, links, links.len() as int);
}

/// Total log-weight of the edges at the positions `links`, skipping a
/// position that names no edge. Converting one unit of the first asset round
/// the cycle yields `2^(-r)` units, in weight units.
pub fn cycle_log_weight(g: &Graph, links: &Vec<usize>) -> (r: i128)
    ensures
        r == g@.cycle_weight(links@),
{
    let ghost gv = g@;
    let n = links.len();
    let mut total: i128 = 0;
    let mut i: usize = 0;
    while i < n
        invariant
            gv == g@,
            n == links@.len(),
            i <= n,
            total == gv.partial_weight(links@, i as int),
            -(i as int) * 0x8000_0000_0000_0000 <= total <= (i as int) * 0x8000_0000_0000_0000,
        decreases n - i,
    {
        if links[i] < g.edges.len() {
            total = total + g.edges[links[i]].weight as i128;
        }
        i += 1;
    }
    total
}

/// Whether `links` closes `nodes` into a walk of `g`.
pub fn is_closed_walk(g: &Graph, nodes: &Vec<usize>, links: &Vec<usize>) -> (r: bool)
    ensures
        r == g@.is_closed_walk(nodes@, links@),
{
    let ghost gv = g@;
    let n = nodes.len();
    if n == 0 || links.len() != n {
        return false;
    }
    let mut i: usize = 0;
    while i < n
        invariant
            gv == g@,
            n == nodes@.len(),
            n == links@.len(),
            n >= 1,
            i <= n,
            forall|j: int|
                0 <= j < i ==> {
                    &&& (#[trigger] nodes@[j] as int) < gv.nodes.len()
                    &&& (links@[j] as int) < gv.edges.len()
                    &&& gv.edges[links@[j] as int].source == nodes@[j]
                    &&& gv.edges[links@[j] as int].target == nodes@[next_index(nodes@, j)]
                },
        decreases n - i,
    {
        let j = if i + 1 < n { i + 1 } else { 0 };
        assert(j == next_index(nodes@, i as int));
        if nodes[i] >= g.nodes.len() || links[i] >= g.edges.len() {
            return false;
        }
        let e = g.edges[links[i]];
        if e.source != nodes[i] || e.target != nodes[j] {
            return false;
        }
        assert(gv.edges[links@[i as int] as int] == e);
        i += 1;
    }
    true
}

/// Whether no node occurs twice in `nodes`.
fn is_simple_exec(nodes: &Vec<usize>) -> (r: bool)
    ensures
        r == is_simple(nodes@),
{
    let n = nodes.len();
    let mut i: usize = 0;
    while i < n
        invariant
            n == nodes@.len(),
            i <= n,
            forall|a: int, b: int| 0 <= a < i && a < b < n ==> nodes@[a] != nodes@[b],
        decreases n - i,
    {
        let mut j: usize = i + 1;
        while j < n
            invariant
                n == nodes@.len(),
                i < n,
                i + 1 <= j <= n,
                forall|a: int, b: int| 0 <= a < i && a < b < n ==> nodes@[a] != nodes@[b],
                forall|b: int| i < b < j ==> nodes@[i as int] != nodes@[b],
            decreases n - j,
        {
            if nodes[i] == nodes[j] {
                assert(nodes@[i as int] == nodes@[j as int]);
                return false;
            }
            j += 1;
        }
        assert forall|a: int, b: int| 0 <= a < i + 1 && a < b < n implies nodes@[a] != nodes@[b] by {
            if a == i as int {
                assert(nodes@[i as int] != nodes@[b]);
            }
        };
        i += 1;
    }
    true
}

/// The lowered distance of `e.target` when relaxing `e` against `dist`
/// strictly lowers it; a sum that does not fit in an `i128` is not relaxed.
pub open spec fn relaxation(dist: Seq<Option<i128>>, e: Edge) -> Option<i128> {
    match dist[e.source as int] {
        None => None,
        Some(du) => {
            let s = du + e.weight;
            if s > i128::MAX || s < i128::MIN {
                None
            } else {
                match dist[e.target as int] {
                    None => Some(s as i128),
                    Some(dv) => if s < dv {
                        Some(s as i128)
                    } else {
                        None
                    },
                }
            }
        },
    }
}

/// Distances, predecessors, the edges that set them, and whether anything changed, after relaxing the
/// first `k` edges in order, each against the distances left by the previous.
pub open spec fn relax_edges(
    edges: Seq<Edge>,
    dist: Seq<Option<i128>>,
    pred: Seq<Option<usize>>,
    link: Seq<Option<usize>>,
    k: int,
) -> (Seq<Option<i128>>, Seq<Option<usize>>, Seq<Option<usize>>, bool)
    decreases k,
{
    if k <= 0 {
        (dist, pred, link, false)
    } else {
        let (d, p, l, u) = relax_edges(edges, dist, pred, link, k - 1);
        let e = edges[k - 1];
        match relaxation(d, e) {
            Some(nd) => (
                d.update(e.target as int, Some(nd)),
                p.update(e.target as int, Some(e.source)),
                l.update(e.target as int, Some((k - 1) as usize)),
                true,
            ),
            None => (d, p, l, u),
        }
    }
}

/// Up to `rounds` passes over all edges, stopping after a pass that changed nothing.
pub open spec fn relax_rounds(
    edges: Seq<Edge>,
    dist: Seq<Option<i128>>,
    pred: Seq<Option<usize>>,
    link: Seq<Option<usize>>,
    rounds: int,
) -> (Seq<Option<i128>>, Seq<Option<usize>>, Seq<Option<usize>>)
    decreases rounds,
{
    if rounds <= 0 {
        (dist, pred, link)
    } else {
        let (d, p, l, u) = relax_edges(edges, dist, pred, link, edges.len() as int);
        if !u {
            (d, p, l)
        } else {
            relax_rounds(edges, d, p, l, rounds - 1)
        }
    }
}

/// The position of the first of the first `k` edges that still relaxes, if any.
pub open spec fn first_relaxable(edges: Seq<Edge>, dist: Seq<Option<i128>>, k: int) -> Option<usize>
    decreases k,
{
    if k <= 0 {
        None
    } else {
        match first_relaxable(edges, dist, k - 1) {
            Some(j) => Some(j),
            None => if relaxation(dist, edges[k - 1]) is Some {
                Some((k - 1) as usize)
            } else {
                None
            },
        }
    }
}

/// The node reached from `x` by following `steps` predecessor links.
pub open spec fn walk_back(pred: Seq<Option<usize>>, x: usize, steps: int) -> Option<usize>
    decreases steps,
{
    if steps <= 0 {
        Some(x)
    } else {
        match pred[x as int] {
            None => None,
            Some(p) => walk_back(pred, p, steps - 1),
        }
    }
}

/// `path[i - 1], path[i - 2], ...` down to the last occurrence of `x`.
pub open spec fn reversed_until(path: Seq<usize>, x: usize, i: int) -> Seq<usize>
    decreases i,
{
    if i <= 0 {
        Seq::empty()
    } else if path[i - 1] == x {
        seq![x]
    } else {
        seq![path[i - 1]] + reversed_until(path, x, i - 1)
    }
}

/// Walks predecessor links from `x`, recording the walk in `path`, until a
/// node repeats; the cycle is then the walk back to that node, reversed.
pub open spec fn collect_cycle(pred: Seq<Option<usize>>, path: Seq<usize>, seen: Seq<bool>, x: usize, fuel: int) -> Option<
    Seq<usize>,
>
    decreases fuel,
{
    if fuel <= 0 {
        None
    } else {
        let path2 = path.push(x);
        let seen2 = seen.update(x as int, true);
        match pred[x as int] {
            None => None,
            Some(p) => if seen2[p as int] {
                Some(reversed_until(path2, p, path2.len() as int))
            } else {
                collect_cycle(pred, path2, seen2, p, fuel - 1)
            },
        }
    }
}

pub open spec fn initial_dist(n: int, start: int) -> Seq<Option<i128>> {
    Seq::new(n as nat, |i: int| if i == start { Some(0i128) } else { None })
}

pub open spec fn no_preds(n: int) -> Seq<Option<usize>> {
    Seq::new(n as nat, |i: int| None)
}

pub open spec fn none_seen(n: int) -> Seq<bool> {
    Seq::new(n as nat, |i: int| false)
}

/// The cycle that predecessor tracing finds from `from`: `n` links back,
/// then round the cycle reached.
pub open spec fn traced_cycle(pred: Seq<Option<usize>>, from: usize) -> Option<Seq<usize>> {
    let n = pred.len() as int;
    match walk_back(pred, from, n) {
        None => None,
        Some(x) => collect_cycle(pred, Seq::empty(), none_seen(n), x, n),
    }
}

/// What the detector returns on `g`: Bellman-Ford relaxation from
/// `START_NODE`, a search for an edge that still relaxes, predecessor tracing
/// from its target, and a check that the traced cycle is negative.
#[verifier::opaque]
pub open spec fn detect(g: GraphView) -> Option<(Seq<usize>, Seq<usize>)> {
    let n = g.nodes.len() as int;
    if n <= 1 {
        None
    } else {
        let (d, p, l) = relax_rounds(g.edges, initial_dist(n, START_NODE as int), no_preds(n), no_preds(n), n - 1);
        match first_relaxable(g.edges, d, g.edges.len() as int) {
            None => None,
            Some(k) => {
                let e = g.edges[k as int];
                let p2 = p.update(e.target as int, Some(e.source));
                let l2 = l.update(e.target as int, Some(k));
                match traced_cycle(p2, e.target) {
                None => None,
                Some(c) => match cycle_links(l2, c) {
                    None => None,
                    Some(links) => if g.is_negative_cycle(c, links) {
                        Some((c, links))
                    } else {
                        None
                    },
                },
            }
            },
        }
    }
}

/// The edge that set the predecessor link into each node of `c` after the
/// first, and into the first: the edges of `c` in forward order.
pub open spec fn link_at(link: Seq<Option<usize>>, c: Seq<usize>, i: int) -> usize {
    link[c[next_index(c, i)] as int]->Some_0
}

#[verifier::opaque]
pub open spec fn cycle_links(link: Seq<Option<usize>>, c: Seq<usize>) -> Option<Seq<usize>> {
    if forall|i: int|
        0 <= i < c.len() ==> (#[trigger] c[i] as int) < link.len() && link[c[next_index(c, i)] as int] is Some {
        Some(Seq::new(c.len(), |i: int| link_at(link, c, i)))
    } else {
        None
    }
}

#[verifier::rlimit(60)]
fn collect_links(link: &Vec<Option<usize>>, c: &Vec<usize>) -> (r: Option<Vec<usize>>)
    ensures
        match r {
            Some(links) => cycle_links(link@, c@) == Some(links@),
            None => cycle_links(link@, c@) is None,
        },
{
    let n = c.len();
    let mut i: usize = 0;
    while i < n
        invariant
            n == c@.len(),
            i <= n,
            forall|j: int| 0 <= j < i ==> (#[trigger] c@[j] as int) < link@.len(),
        decreases n - i,
    {
        if c[i] >= link.len() {
            assert(!((c@[i as int] as int) < link@.len()));
            proof {
                reveal(cycle_links);
            }
            return None;
        }
        i += 1;
    }
    let mut links: Vec<usize> = Vec::new();
    let mut i: usize = 0;
    while i < n
        invariant
            n == c@.len(),
            i <= n,
            forall|j: int| 0 <= j < n ==> (#[trigger] c@[j] as int) < link@.len(),
            links@.len() == i,
            forall|j: int|
                0 <= j < i ==> #[trigger] links@[j] == link_at(link@, c@, j) && link@[c@[next_index(c@, j)] as int] is Some,
        decreases n - i,
    {
        let j = if i + 1 < n { i + 1 } else { 0 };
        assert(j == next_index(c@, i as int));
        match link[c[j]] {
            Some(k) => {
                let ghost before = links@;
                links.push(k);
                assert(links@[i as int] == link_at(link@, c@, i as int));
                assert(forall|t: int| 0 <= t < i ==> #[trigger] links@[t] == before[t]);
            },
            None => {
                assert(!(link@[c@[next_index(c@, i as int)] as int] is Some));
                assert((c@[i as int] as int) < link@.len());
                proof {
                    reveal(cycle_links);
                    assert(!((c@[i as int] as int) < link@.len() && link@[c@[next_index(c@, i as int)] as int] is Some));
                }
                return None;
            },
        }
        i += 1;
    }
    assert(links@ =~= Seq::new(c@.len(), |i: int| link_at(link@, c@, i)));
    assert forall|t: int| 0 <= t < c@.len() implies (#[trigger] c@[t] as int) < link@.len() && link@[c@[next_index(
        c@,
        t,
    )] as int] is Some by {
        assert(links@[t] == link_at(link@, c@, t));
    };
    proof {
        reveal(cycle_links);
    }
    Some(links)
}

/// A cycle that `detect` reports is a negative cycle of the graph.
pub proof fn lemma_detect_is_negative_cycle(g: GraphView)
    ensures
        detect(g) matches Some((c, l)) ==> g.is_negative_cycle(c, l),
{
    reveal(detect);
}

fn relaxed_distance(dist: &Vec<Option<i128>>, e: Edge) -> (r: Option<i128>)
    requires
        (e.source as int) < dist@.len(),
        (e.target as int) < dist@.len(),
    ensures
        r == relaxation(dist@, e),
{
    match dist[e.source] {
        None => None,
        Some(du) => match du.checked_add(e.weight as i128) {
            None => None,
            Some(nd) => match dist[e.target] {
                None => Some(nd),
                Some(dv) => if nd < dv {
                    Some(nd)
                } else {
                    None
                },
            },
        },
    }
}

/// Bellman-Ford relaxation from `start`: up to `|V| - 1` passes over every
/// edge. Returns the distances (`None` for unreached), the predecessors, and
/// the positions of the edges that set them.
fn relax_all(g: &Graph, start: usize) -> (r: (Vec<Option<i128>>, Vec<Option<usize>>, Vec<Option<usize>>))
    requires
        g@.wf(),
        (start as int) < g@.nodes.len(),
    ensures
        r.0@.len() == g@.nodes.len(),
        r.1@.len() == g@.nodes.len(),
        r.2@.len() == g@.nodes.len(),
        forall|i: int| 0 <= i < r.1@.len() ==> (#[trigger] r.1@[i] matches Some(p) ==> (p as int) < g@.nodes.len()),
        (r.0@, r.1@, r.2@) == relax_rounds(
            g@.edges,
            initial_dist(g@.nodes.len() as int, start as int),
            no_preds(g@.nodes.len() as int),
            no_preds(g@.nodes.len() as int),
            g@.nodes.len() - 1,
        ),
{
    let ghost edges = g@.edges;
    let n = g.nodes.len();
    let mut dist: Vec<Option<i128>> = vec![None; n];
    let mut pred: Vec<Option<usize>> = vec![None; n];
    let mut link: Vec<Option<usize>> = vec![None; n];
    dist.set(start, Some(0));
    assert(dist@ =~= initial_dist(n as int, start as int));
    assert(pred@ =~= no_preds(n as int));
    assert(link@ =~= no_preds(n as int));
    let ghost goal = relax_rounds(edges, dist@, pred@, link@, n - 1);
    let mut pass: usize = 1;
    while pass < n
        invariant
            g@.wf(),
            edges == g@.edges,
            n == g@.nodes.len(),
            1 <= pass <= n,
            dist@.len() == n,
            pred@.len() == n,
            link@.len() == n,
            forall|i: int| 0 <= i < n ==> (#[trigger] pred@[i] matches Some(p) ==> (p as int) < n),
            goal == relax_rounds(edges, dist@, pred@, link@, n - pass),
            goal == relax_rounds(
                edges,
                initial_dist(n as int, start as int),
                no_preds(n as int),
                no_preds(n as int),
                n - 1,
            ),
        decreases n - pass,
    {
        let ghost dist_start = dist@;
        let ghost pred_start = pred@;
        let ghost link_start = link@;
        let mut updated = false;
        let mut k: usize = 0;
        while k < g.edges.len()
            invariant
                g@.wf(),
                edges == g@.edges,
                n == g@.nodes.len(),
                k <= edges.len(),
                dist@.len() == n,
                pred@.len() == n,
                link@.len() == n,
                forall|i: int| 0 <= i < n ==> (#[trigger] pred@[i] matches Some(p) ==> (p as int) < n),
                (dist@, pred@, link@, updated) == relax_edges(edges, dist_start, pred_start, link_start, k as int),
            decreases edges.len() - k,
        {
            let e = g.edges[k];
            assert((e.source as int) < n && (e.target as int) < n);
            if let Some(nd) = relaxed_distance(&dist, e) {
                dist.set(e.target, Some(nd));
                pred.set(e.target, Some(e.source));
                link.set(e.target, Some(k));
                updated = true;
            }
            k += 1;
        }
        if !updated {
            assert(relax_edges(edges, dist_start, pred_start, link_start, edges.len() as int) == (
            dist@, pred@, link@, false));
            assert(relax_rounds(edges, dist_start, pred_start, link_start, n - pass) == (dist@, pred@, link@));
            return (dist, pred, link);
        }
        assert(relax_rounds(edges, dist_start, pred_start, link_start, n - pass) == relax_rounds(
            edges,
            dist@,
            pred@,
            link@,
            n - pass - 1,
        ));
        pass += 1;
    }
    (dist, pred, link)
}

/// Follows predecessor links back from `from` into a cycle and returns that
/// cycle in forward edge order, or `None` when the links run out.
fn trace_cycle(pred: &Vec<Option<usize>>, from: usize) -> (r: Option<Vec<usize>>)
    requires
        (from as int) < pred@.len(),
        forall|i: int| 0 <= i < pred@.len() ==> (#[trigger] pred@[i] matches Some(p) ==> (p as int) < pred@.len()),
    ensures
        match r {
            Some(c) => traced_cycle(pred@, from) == Some(c@),
            None => traced_cycle(pred@, from) is None,
        },
{
    let n = pred.len();
    let mut x = from;
    let mut steps: usize = 0;
    while steps < n
        invariant
            n == pred@.len(),
            steps <= n,
            (x as int) < n,
            forall|i: int| 0 <= i < n ==> (#[trigger] pred@[i] matches Some(p) ==> (p as int) < n),
            walk_back(pred@, from, n as int) == walk_back(pred@, x, n - steps),
        decreases n - steps,
    {
        match pred[x] {
            Some(p) => x = p,
            None => return None,
        }
        steps += 1;
    }
    let mut path: Vec<usize> = Vec::new();
    let mut seen: Vec<bool> = vec![false; n];
    assert(seen@ =~= none_seen(n as int));
    assert(path@ =~= Seq::<usize>::empty());
    let ghost goal = collect_cycle(pred@, path@, seen@, x, n as int);
    assert(walk_back(pred@, x, 0) == Some(x));
    assert(goal == traced_cycle(pred@, from));
    let mut count: usize = 0;
    while count < n
        invariant
            n == pred@.len(),
            count <= n,
            seen@.len() == n,
            (x as int) < n,
            forall|i: int| 0 <= i < n ==> (#[trigger] pred@[i] matches Some(p) ==> (p as int) < n),
            goal == collect_cycle(pred@, path@, seen@, x, n - count),
            goal == traced_cycle(pred@, from),
        decreases n - count,
    {
        let ghost old_path = path@;
        let ghost old_seen = seen@;
        let ghost old_x = x;
        path.push(x);
        seen.set(x, true);
        assert(path@ == old_path.push(old_x));
        assert(seen@ == old_seen.update(old_x as int, true));
        match pred[x] {
            Some(p) => x = p,
            None => {
                assert(collect_cycle(pred@, old_path, old_seen, old_x, n - count) is None);
                return None;
            },
        }
        if seen[x] {
            assert(goal == Some(reversed_until(path@, x, path@.len() as int)));
            let ghost full = reversed_until(path@, x, path@.len() as int);
            let mut cycle: Vec<usize> = Vec::new();
            let mut i: usize = path.len();
            let mut closed = false;
            while i > 0 && !closed
                invariant
                    i <= path@.len(),
                    full == reversed_until(path@, x, path@.len() as int),
                    !closed ==> cycle@ + reversed_until(path@, x, i as int) == full,
                    closed ==> cycle@ == full,
                decreases i,
            {
                i -= 1;
                let ghost before = cycle@;
                cycle.push(path[i]);
                if path[i] == x {
                    closed = true;
                    assert(reversed_until(path@, x, i + 1) == seq![x]);
                    assert(before + seq![x] =~= before.push(x));
                } else {
                    assert(before + reversed_until(path@, x, i + 1) =~= cycle@ + reversed_until(
                        path@,
                        x,
                        i as int,
                    ));
                }
            }
            if !closed {
                assert(cycle@ + Seq::<usize>::empty() =~= cycle@);
            }
            return Some(cycle);
        }
        assert(goal == collect_cycle(pred@, path@, seen@, x, n - count - 1));
        count += 1;
    }
    None
}

/// The handle from which cycles are searched for.
pub const START_NODE: usize = 0;

/// Searches for a negative cycle reachable from `START_NODE` by Bellman-Ford
/// relaxation, recording on each predecessor link the edge that set it. A
/// cycle is reported in forward order with those edges, once it is checked
/// to be a closed walk through distinct nodes of negative total log-weight.
pub fn negative_finder(g: &Graph) -> (r: Option<Cycle>)
    requires
        g@.wf(),
    ensures
        g@.nodes.len() <= 1 ==> r is None,
        r matches Some(c) ==> g@.is_negative_cycle(c.nodes@, c.links@),
        g@.all_weights_nonnegative() ==> r is None,
        match r {
            Some(c) => detect(g@) == Some((c.nodes@, c.links@)),
            None => detect(g@) is None,
        },
{
    proof {
        reveal(detect);
    }
    let n = g.nodes.len();
    if n <= 1 {
        return None;
    }
    let (dist, mut pred, mut link) = relax_all(g, START_NODE);
    let mut k: usize = 0;
    let mut found: Option<usize> = None;
    while k < g.edges.len()
        invariant
            g@.wf(),
            n == g@.nodes.len(),
            dist@.len() == n,
            k <= g@.edges.len(),
            found == first_relaxable(g@.edges, dist@, k as int),
            found matches Some(j) ==> (j as int) < g@.edges.len(),
        decreases g@.edges.len() - k,
    {
        let e = g.edges[k];
        assert((e.source as int) < n && (e.target as int) < n);
        if found.is_none() && relaxed_distance(&dist, e).is_some() {
            found = Some(k);
        }
        k += 1;
    }
    let r = match found {
        None => None,
        Some(j) => {
            // The edge that still relaxes becomes the link into its target, so
            // that tracing starts on the edge that proves the cycle.
            let e = g.edges[j];
            assert((e.source as int) < n && (e.target as int) < n);
            pred.set(e.target, Some(e.source));
            link.set(e.target, Some(j));
            match trace_cycle(&pred, e.target) {
            None => None,
            Some(nodes) => match collect_links(&link, &nodes) {
                None => None,
                Some(links) => {
                    if is_closed_walk(g, &nodes, &links) && is_simple_exec(&nodes) && nodes.len() <= n
                        && cycle_log_weight(g, &links) < 0 {
                        Some(Cycle { nodes, links })
                    } else {
                        None
                    }
                },
            },
        }
        },
    };
    proof {
        if r is Some && g@.all_weights_nonnegative() {
            nonnegative_weights_have_no_negative_cycle(g@, r->Some_0.nodes@, r->Some_0.links@);
        }
    }
    r
}

} // verus!
