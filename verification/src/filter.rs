//! The neighbourhood filter: which nodes lie close enough to a target node,
//! in either direction, to be kept.
//!
//! Each direction is walked with a last-in, first-out work list and no
//! visited set, so a node may be visited several times, at several depths.
//! Which nodes are kept and which are marked as truncated does not depend on
//! the order of visits; the recorded distance is the depth of the latest
//! visit.

use vstd::prelude::*;
use crate::digraph::{adjacent, oriented, lemma_adjacent};
use crate::graph::{RefGraph, DescriptorView};

verus! {

/// The limits of a traversal.
pub struct Limits {
    /// How many hops to follow outgoing edges.
    pub outgoing_depth: usize,
    /// How many hops to follow incoming edges.
    pub incoming_depth: usize,
    /// A node with more edges than this in the direction walked is not
    /// expanded; `None` switches the rule off.
    pub degree_threshold: Option<usize>,
    /// A node with this id is not expanded.
    pub excluded_id: Option<usize>,
    /// A node whose filename contains this text is not expanded.
    pub excluded_marker: Option<String>,
}

impl Limits {
    /// The usual limits: the given depths and degree threshold, and the
    /// exclusions of the corpus this library was written for.
    pub fn standard(outgoing_depth: usize, incoming_depth: usize, degree_threshold: usize) -> (rule: Limits)
        ensures
            rule.outgoing_depth == outgoing_depth,
            rule.incoming_depth == incoming_depth,
            rule.degree_threshold == Some(degree_threshold),
            rule.excluded_id == Some(472400usize),
            rule.excluded_marker is Some,
            rule.excluded_marker->0@ == "World/"@,
    {
        Limits {
            outgoing_depth,
            incoming_depth,
            degree_threshold: Some(degree_threshold),
            excluded_id: Some(472400),
            excluded_marker: Some("World/".to_owned()),
        }
    }

    /// Depth limits alone: no node is pruned.
    pub fn depth_only(outgoing_depth: usize, incoming_depth: usize) -> (rule: Limits)
        ensures
            rule.outgoing_depth == outgoing_depth,
            rule.incoming_depth == incoming_depth,
            rule.degree_threshold is None,
            rule.excluded_id is None,
            rule.excluded_marker is None,
    {
        Limits { outgoing_depth, incoming_depth, degree_threshold: None, excluded_id: None, excluded_marker: None }
    }
}

/// Why no neighbourhood was computed.
#[derive(Debug, PartialEq, Eq, Clone, Copy)]
pub enum FilterError {
    /// No node of the graph has the target id.
    TargetNotFound,
}

/// `needle` occurs in `hay` as a contiguous run of characters.
pub open spec fn is_substring(hay: Seq<char>, needle: Seq<char>) -> bool {
    exists|i: int| 0 <= i && i + needle.len() <= hay.len() && #[trigger] hay.subrange(i, i + needle.len()) == needle
}

/// `str::contains` with a string pattern: whether the pattern occurs in the
/// text as a substring.
#[verifier::external_body]
fn text_contains(hay: &str, needle: &str) -> (found: bool)
    ensures
        found == is_substring(hay@, needle@),
{
    hay.contains(needle)
}

/// The depth limit of a direction.
pub open spec fn depth_limit(rule: &Limits, outgoing: bool) -> nat {
    if outgoing {
        rule.outgoing_depth as nat
    } else {
        rule.incoming_depth as nat
    }
}

/// The prune predicate: a node that is not expanded when reached past the
/// target, because of its filename, its id or its degree in the direction
/// walked.
pub open spec fn prunes(g: &RefGraph, rule: &Limits, n: int, outgoing: bool) -> bool {
    let d = g.descriptors()[n];
    ||| match rule.excluded_marker {
        Some(m) => is_substring(d.filename, m@),
        None => false,
    }
    ||| rule.excluded_id == Some(d.id)
    ||| match rule.degree_threshold {
        Some(t) => adjacent(g.edges(), n, outgoing).len() > t,
        None => false,
    }
}

/// A visit of node `n` at depth `d` goes on to the node's neighbours.
pub open spec fn expands(g: &RefGraph, rule: &Limits, outgoing: bool, n: int, d: nat) -> bool {
    d != depth_limit(rule, outgoing) && !(d > 0 && prunes(g, rule, n, outgoing))
}

/// An edge leads from `m` to `n` when read in the given direction.
pub open spec fn linked(g: &RefGraph, outgoing: bool, m: int, n: int) -> bool {
    g.edges().contains(oriented((m, n), outgoing))
}

/// The traversal visits node `n` at depth `d`: the target at depth 0, and at
/// depth `d + 1` each neighbour of a node whose visit at depth `d` expands.
pub open spec fn reached(g: &RefGraph, rule: &Limits, outgoing: bool, target: int, n: int, d: nat) -> bool
    decreases d,
{
    if d == 0 {
        n == target
    } else {
        exists|m: int|
            0 <= m < g.size() && #[trigger] linked(g, outgoing, m, n) && reached(
                g,
                rule,
                outgoing,
                target,
                m,
                (d - 1) as nat,
            ) && expands(g, rule, outgoing, m, (d - 1) as nat)
    }
}

/// The traversal visits node `n` at some depth.
pub open spec fn visited(g: &RefGraph, rule: &Limits, outgoing: bool, target: int, n: int) -> bool {
    exists|d: nat| #[trigger] reached(g, rule, outgoing, target, n, d)
}

/// Some visit of node `n` does not expand.
pub open spec fn stopped(g: &RefGraph, rule: &Limits, outgoing: bool, target: int, n: int) -> bool {
    exists|d: nat| #[trigger] reached(g, rule, outgoing, target, n, d) && !expands(g, rule, outgoing, n, d)
}

/// The prune predicate, computed. `degree` is the number of edges of the node
/// in the direction walked.
pub fn should_prune(g: &RefGraph, rule: &Limits, node: usize, degree: usize, outgoing: bool) -> (pruned: bool)
    requires
        g.wf(),
        node < g.size(),
        degree == adjacent(g.edges(), node as int, outgoing).len(),
    ensures
        pruned == prunes(g, rule, node as int, outgoing),
{
    let d = g.node(node);
    let by_name = match &rule.excluded_marker {
        Some(m) => text_contains(d.filename.as_str(), m.as_str()),
        None => false,
    };
    let by_id = match rule.excluded_id {
        Some(x) => x == d.id,
        None => false,
    };
    let by_degree = match rule.degree_threshold {
        Some(t) => degree > t,
        None => false,
    };
    by_name || by_id || by_degree
}

// ---------------------------------------------------------------------------
// Termination: what a work list can still cost.
// ---------------------------------------------------------------------------

/// An upper bound on the visits that one work-list entry can cause, with
/// `remaining` hops left and at most `bound` neighbours per node.
pub open spec fn cost(bound: nat, remaining: nat) -> nat
    decreases remaining,
{
    if remaining == 0 {
        1
    } else {
        1 + bound * cost(bound, (remaining - 1) as nat)
    }
}

/// The sum of `cost` over a work list of (depth, node) entries.
pub open spec fn total(work: Seq<(usize, usize)>, bound: nat, limit: nat) -> nat
    decreases work.len(),
{
    if work.len() == 0 {
        0
    } else {
        total(work.drop_last(), bound, limit) + cost(bound, (limit - work.last().0) as nat)
    }
}

proof fn lemma_total_push(work: Seq<(usize, usize)>, e: (usize, usize), bound: nat, limit: nat)
    ensures
        total(work.push(e), bound, limit) == total(work, bound, limit) + cost(bound, (limit - e.0) as nat),
{
    assert(work.push(e).drop_last() =~= work);
}

/// The work-list entries that expanding a node adds: its neighbours, in the
/// order of `adjacent`, at depth `d`.
pub open spec fn frontier(ns: Seq<int>, d: int) -> Seq<(usize, usize)> {
    Seq::new(ns.len(), |i: int| (d as usize, ns[i] as usize))
}

proof fn lemma_total_frontier(rest: Seq<(usize, usize)>, ns: Seq<int>, d: int, bound: nat, limit: nat)
    requires
        0 <= d <= limit <= usize::MAX,
    ensures
        total(rest + frontier(ns, d), bound, limit) == total(rest, bound, limit) + ns.len() * cost(
            bound,
            (limit - d) as nat,
        ),
    decreases ns.len(),
{
    let unit = cost(bound, (limit - d) as nat);
    if ns.len() == 0 {
        assert(rest + frontier(ns, d) =~= rest);
        assert(ns.len() * unit == 0) by (nonlinear_arith)
            requires
                ns.len() == 0,
        ;
    } else {
        let front = ns.drop_last();
        lemma_total_frontier(rest, front, d, bound, limit);
        let all = rest + frontier(ns, d);
        assert(all.drop_last() =~= rest + frontier(front, d));
        assert(all.last() == (d as usize, ns.last() as usize));
        assert(ns.len() * unit == front.len() * unit + unit) by (nonlinear_arith)
            requires
                ns.len() == front.len() + 1,
        ;
    }
}

/// The visits of a traversal that starts from the work list `work`, in the
/// order in which they are made: the last entry is visited first, and where
/// it expands, its neighbours are put on the list, one level deeper.
pub open spec fn walk(g: &RefGraph, rule: &Limits, outgoing: bool, work: Seq<(usize, usize)>) -> Seq<(usize, usize)>
    decreases total(work, g.edges().len(), depth_limit(rule, outgoing)),
    via walk_decreases
{
    if work.len() == 0 {
        Seq::empty()
    } else {
        let top = work.last();
        let rest = work.drop_last();
        if top.0 < depth_limit(rule, outgoing) && expands(g, rule, outgoing, top.1 as int, top.0 as nat) {
            seq![top] + walk(
                g,
                rule,
                outgoing,
                rest + frontier(adjacent(g.edges(), top.1 as int, outgoing), top.0 + 1),
            )
        } else {
            seq![top] + walk(g, rule, outgoing, rest)
        }
    }
}

#[via_fn]
proof fn walk_decreases(g: &RefGraph, rule: &Limits, outgoing: bool, work: Seq<(usize, usize)>) {
    if work.len() > 0 {
        let top = work.last();
        let rest = work.drop_last();
        let bound = g.edges().len();
        let limit = depth_limit(rule, outgoing);
        if top.0 < limit && expands(g, rule, outgoing, top.1 as int, top.0 as nat) {
            let ns = adjacent(g.edges(), top.1 as int, outgoing);
            let unit = cost(bound, (limit - (top.0 + 1)) as nat);
            lemma_adjacent(g.edges(), top.1 as int, outgoing);
            lemma_total_frontier(rest, ns, top.0 + 1, bound, limit);
            assert(ns.len() * unit <= bound * unit) by (nonlinear_arith)
                requires
                    ns.len() <= bound,
                    unit >= 0,
            ;
            assert(cost(bound, (limit - top.0) as nat) == 1 + bound * unit);
        }
    }
}

/// The depth of the last visit of node `n` in a sequence of visits, or
/// `otherwise` where there is none.
pub open spec fn last_depth(log: Seq<(usize, usize)>, n: usize, otherwise: usize) -> usize
    decreases log.len(),
{
    if log.len() == 0 {
        otherwise
    } else if log.last().1 == n {
        log.last().0
    } else {
        last_depth(log.drop_last(), n, otherwise)
    }
}

/// The visits of the traversal of one direction from the target.
pub open spec fn visits(g: &RefGraph, rule: &Limits, outgoing: bool, target: int) -> Seq<(usize, usize)> {
    walk(g, rule, outgoing, seq![(0usize, target as usize)])
}

// ---------------------------------------------------------------------------
// The set of visits made so far.
// ---------------------------------------------------------------------------

spec fn hop(g: &RefGraph, outgoing: bool, m: usize, n: usize) -> bool {
    g.edges().contains(oriented((m as int, n as int), outgoing))
}

spec fn covered(done: Set<(usize, usize)>, work: Seq<(usize, usize)>, e: (usize, usize)) -> bool {
    done.contains(e) || work.contains(e)
}

spec fn seen(done: Set<(usize, usize)>, n: usize) -> bool {
    exists|d: usize| #[trigger] done.contains((d, n))
}

spec fn halted(g: &RefGraph, rule: &Limits, outgoing: bool, done: Set<(usize, usize)>, n: usize) -> bool {
    exists|d: usize| #[trigger] done.contains((d, n)) && !expands(g, rule, outgoing, n as int, d as nat)
}

/// Every visit in `done` is one that the traversal makes.
spec fn sound(g: &RefGraph, rule: &Limits, outgoing: bool, target: usize, done: Set<(usize, usize)>) -> bool {
    forall|e: (usize, usize)| #[trigger]
        done.contains(e) ==> e.1 < g.size() && e.0 <= depth_limit(rule, outgoing) && reached(
            g,
            rule,
            outgoing,
            target as int,
            e.1 as int,
            e.0 as nat,
        )
}

/// What follows from the visits in `done` is in `done` or waits in `work`.
spec fn closed(
    g: &RefGraph,
    rule: &Limits,
    outgoing: bool,
    target: usize,
    done: Set<(usize, usize)>,
    work: Seq<(usize, usize)>,
) -> bool {
    &&& covered(done, work, (0usize, target))
    &&& forall|e: (usize, usize), n: usize|
        #[trigger] done.contains(e) && #[trigger] hop(g, outgoing, e.1, n) && expands(
            g,
            rule,
            outgoing,
            e.1 as int,
            e.0 as nat,
        ) ==> covered(done, work, ((e.0 + 1) as usize, n))
}

proof fn lemma_complete(
    g: &RefGraph,
    rule: &Limits,
    outgoing: bool,
    target: usize,
    done: Set<(usize, usize)>,
    n: int,
    d: nat,
)
    requires
        g.shape_ok(),
        target < g.size(),
        sound(g, rule, outgoing, target, done),
        closed(g, rule, outgoing, target, done, Seq::empty()),
        reached(g, rule, outgoing, target as int, n, d),
    ensures
        0 <= n < g.size(),
        d <= depth_limit(rule, outgoing),
        done.contains((d as usize, n as usize)),
    decreases d,
{
    if d == 0 {
        assert(covered(done, Seq::empty(), (0usize, target)));
    } else {
        let m = choose|m: int|
            0 <= m < g.size() && #[trigger] linked(g, outgoing, m, n) && reached(
                g,
                rule,
                outgoing,
                target as int,
                m,
                (d - 1) as nat,
            ) && expands(g, rule, outgoing, m, (d - 1) as nat);
        lemma_complete(g, rule, outgoing, target, done, m, (d - 1) as nat);
        let e = oriented((m, n), outgoing);
        let k = choose|k: int| 0 <= k < g.edges().len() && g.edges()[k] == e;
        assert(0 <= g.edges()[k].0 < g.size() && 0 <= g.edges()[k].1 < g.size());
        let prev = ((d - 1) as usize, m as usize);
        assert(done.contains(prev));
        assert(hop(g, outgoing, prev.1, n as usize));
        assert(covered(done, Seq::empty(), ((prev.0 + 1) as usize, n as usize)));
    }
}

// ---------------------------------------------------------------------------
// One direction.
// ---------------------------------------------------------------------------

/// Walks one direction from the target. `kept`, `dist` and `trunc` hold, by
/// node index, whether the node is kept, its distance and its truncation flag
/// for this direction.
fn sweep(
    g: &RefGraph,
    rule: &Limits,
    outgoing: bool,
    target: usize,
    kept: &mut Vec<bool>,
    dist: &mut Vec<usize>,
    trunc: &mut Vec<bool>,
)
    requires
        g.wf(),
        target < g.size(),
        old(kept)@.len() == g.size(),
        old(dist)@.len() == g.size(),
        old(trunc)@.len() == g.size(),
    ensures
        final(kept)@.len() == g.size(),
        final(dist)@.len() == g.size(),
        final(trunc)@.len() == g.size(),
        forall|n: int|
            0 <= n < g.size() ==> #[trigger] final(kept)@[n] == (old(kept)@[n] || visited(
                g,
                rule,
                outgoing,
                target as int,
                n,
            )),
        forall|n: int|
            0 <= n < g.size() ==> #[trigger] final(trunc)@[n] == (old(trunc)@[n] || stopped(
                g,
                rule,
                outgoing,
                target as int,
                n,
            )),
        forall|n: int|
            0 <= n < g.size() ==> if visited(g, rule, outgoing, target as int, n) {
                reached(g, rule, outgoing, target as int, n, (#[trigger] final(dist)@[n]) as nat)
            } else {
                final(dist)@[n] == old(dist)@[n]
            },
        forall|n: int|
            0 <= n < g.size() ==> #[trigger] final(dist)@[n] == last_depth(
                visits(g, rule, outgoing, target as int),
                n as usize,
                old(dist)@[n],
            ),
{
    let limit: usize = if outgoing {
        rule.outgoing_depth
    } else {
        rule.incoming_depth
    };
    let bound: usize = g.edge_count();
    let mut work: Vec<(usize, usize)> = Vec::new();
    work.push((0, target));
    let ghost mut done: Set<(usize, usize)> = Set::empty();
    let ghost mut log: Seq<(usize, usize)> = Seq::empty();
    proof {
        g.lemma_wf_shape();
        assert(work@[0] == (0usize, target));
        assert(work@ =~= seq![(0usize, target)]);
        assert(log + walk(g, rule, outgoing, work@) =~= visits(g, rule, outgoing, target as int));
    }
    while work.len() > 0
        invariant
            g.wf(),
            g.shape_ok(),
            target < g.size(),
            kept@.len() == g.size(),
            dist@.len() == g.size(),
            trunc@.len() == g.size(),
            limit == depth_limit(rule, outgoing),
            bound == g.edges().len(),
            forall|k: int|
                0 <= k < work@.len() ==> (#[trigger] work@[k]).1 < g.size() && work@[k].0 <= limit && reached(
                    g,
                    rule,
                    outgoing,
                    target as int,
                    work@[k].1 as int,
                    work@[k].0 as nat,
                ),
            sound(g, rule, outgoing, target, done),
            closed(g, rule, outgoing, target, done, work@),
            forall|n: int| 0 <= n < g.size() ==> #[trigger] kept@[n] == (old(kept)@[n] || seen(done, n as usize)),
            forall|n: int|
                0 <= n < g.size() ==> #[trigger] trunc@[n] == (old(trunc)@[n] || halted(
                    g,
                    rule,
                    outgoing,
                    done,
                    n as usize,
                )),
            forall|n: int|
                0 <= n < g.size() ==> if seen(done, n as usize) {
                    done.contains((#[trigger] dist@[n], n as usize))
                } else {
                    dist@[n] == old(dist)@[n]
                },
            log + walk(g, rule, outgoing, work@) == visits(g, rule, outgoing, target as int),
            forall|n: int| 0 <= n < g.size() ==> #[trigger] dist@[n] == last_depth(log, n as usize, old(dist)@[n]),
        decreases total(work@, bound as nat, limit as nat),
    {
        let ghost before = work@;
        let ghost done0 = done;
        let ghost log0 = log;
        let top: (usize, usize) = work.pop().unwrap();
        let depth: usize = top.0;
        let node: usize = top.1;
        proof {
            assert(work@ =~= before.drop_last());
            assert(before.last() == top);
            assert(before[before.len() - 1] == top);
            done = done0.insert(top);
            log = log0.push(top);
            assert(log.drop_last() =~= log0);
            assert forall|e: (usize, usize)| covered(done0, before, e) implies covered(done, work@, e) by {
                if before.contains(e) && e != top {
                    let k = choose|k: int| 0 <= k < before.len() && before[k] == e;
                    assert(work@[k] == e);
                }
            }
        }
        dist.set(node, depth);
        kept.set(node, true);
        let nbrs = g.neighbors(node, outgoing);
        proof {
            lemma_adjacent(g.edges(), node as int, outgoing);
            assert forall|n: int| 0 <= n < g.size() implies (#[trigger] seen(done, n as usize) <==> (seen(
                done0,
                n as usize,
            ) || n == node)) by {
                if seen(done0, n as usize) {
                    let d = choose|d: usize| #[trigger] done0.contains((d, n as usize));
                    assert(done.contains((d, n as usize)));
                }
                if n == node {
                    assert(done.contains((depth, n as usize)));
                }
                if seen(done, n as usize) {
                    let d = choose|d: usize| #[trigger] done.contains((d, n as usize));
                    if n != node {
                        assert(done0.contains((d, n as usize)));
                    }
                }
            }
        }
        let pruned = depth > 0 && should_prune(g, rule, node, nbrs.len(), outgoing);
        let ghost grows = expands(g, rule, outgoing, node as int, depth as nat);
        assert(grows == !(pruned || depth == limit));
        proof {
            assert forall|n: int| 0 <= n < g.size() implies (#[trigger] halted(g, rule, outgoing, done, n as usize) <==> (halted(
                g,
                rule,
                outgoing,
                done0,
                n as usize,
            ) || (n == node && !grows))) by {
                if halted(g, rule, outgoing, done0, n as usize) {
                    let d = choose|d: usize| #[trigger]
                        done0.contains((d, n as usize)) && !expands(g, rule, outgoing, n, d as nat);
                    assert(done.contains((d, n as usize)));
                }
                if n == node && !grows {
                    assert(done.contains((depth, n as usize)));
                }
                if halted(g, rule, outgoing, done, n as usize) {
                    let d = choose|d: usize| #[trigger]
                        done.contains((d, n as usize)) && !expands(g, rule, outgoing, n, d as nat);
                    if !(n == node && d == depth) {
                        assert(done0.contains((d, n as usize)));
                    }
                }
            }
        }
        if pruned || depth == limit {
            trunc.set(node, true);
            proof {
                assert(walk(g, rule, outgoing, before) == seq![top] + walk(g, rule, outgoing, work@));
                assert(log + walk(g, rule, outgoing, work@) =~= log0 + walk(g, rule, outgoing, before));
            }
        } else {
            let ghost base = work@;
            let ghost unit = cost(bound as nat, (limit - depth - 1) as nat);
            let mut i: usize = 0;
            while i < nbrs.len()
                invariant
                    g.shape_ok(),
                    i <= nbrs@.len(),
                    depth < limit,
                    node < g.size(),
                    expands(g, rule, outgoing, node as int, depth as nat),
                    reached(g, rule, outgoing, target as int, node as int, depth as nat),
                    nbrs@.len() == adjacent(g.edges(), node as int, outgoing).len(),
                    forall|j: int|
                        0 <= j < nbrs@.len() ==> nbrs@[j] as int == adjacent(g.edges(), node as int, outgoing)[j],
                    forall|n: int| #[trigger]
                        adjacent(g.edges(), node as int, outgoing).contains(n) <==> g.edges().contains(
                            oriented((node as int, n), outgoing),
                        ),
                    work@.len() == base.len() + i,
                    forall|k: int| 0 <= k < base.len() ==> work@[k] == base[k],
                    forall|j: int| 0 <= j < i ==> work@[base.len() + j] == ((depth + 1) as usize, nbrs@[j]),
                    unit == cost(bound as nat, (limit - depth - 1) as nat),
                    total(work@, bound as nat, limit as nat) == total(base, bound as nat, limit as nat) + i * unit,
                    forall|k: int|
                        0 <= k < work@.len() ==> (#[trigger] work@[k]).1 < g.size() && work@[k].0 <= limit
                            && reached(g, rule, outgoing, target as int, work@[k].1 as int, work@[k].0 as nat),
                decreases nbrs@.len() - i,
            {
                let next: usize = nbrs[i];
                proof {
                    let ns = adjacent(g.edges(), node as int, outgoing);
                    assert(ns[i as int] == next as int);
                    assert(ns.contains(next as int));
                    let e = oriented((node as int, next as int), outgoing);
                    assert(g.edges().contains(e));
                    let k = choose|k: int| 0 <= k < g.edges().len() && g.edges()[k] == e;
                    assert(0 <= g.edges()[k].0 < g.size() && 0 <= g.edges()[k].1 < g.size());
                    assert(linked(g, outgoing, node as int, next as int));
                    assert(reached(g, rule, outgoing, target as int, node as int, ((depth + 1) - 1) as nat));
                    assert(reached(g, rule, outgoing, target as int, next as int, (depth + 1) as nat));
                    lemma_total_push(work@, ((depth + 1) as usize, next), bound as nat, limit as nat);
                    assert((i + 1) * unit == i * unit + unit) by (nonlinear_arith);
                }
                work.push((depth + 1, next));
                i += 1;
            }
            proof {
                let ns = adjacent(g.edges(), node as int, outgoing);
                assert(i * unit <= bound * unit) by (nonlinear_arith)
                    requires
                        i <= bound,
                        unit >= 0,
                ;
                assert(cost(bound as nat, (limit - depth) as nat) == 1 + bound * unit);
                let grown = base + frontier(ns, depth + 1);
                assert(work@.len() == grown.len());
                assert forall|k: int| 0 <= k < work@.len() implies work@[k] == grown[k] by {
                    if k >= base.len() {
                        let j = k - base.len();
                        assert(work@[base.len() + j] == ((depth + 1) as usize, nbrs@[j]));
                        assert(ns[j] == nbrs@[j] as int);
                    }
                }
                assert(work@ =~= grown);
                assert(walk(g, rule, outgoing, before) == seq![top] + walk(g, rule, outgoing, work@));
                assert(log + walk(g, rule, outgoing, work@) =~= log0 + walk(g, rule, outgoing, before));
                assert forall|e: (usize, usize)| covered(done, base, e) implies covered(done, work@, e) by {
                    if base.contains(e) {
                        let k = choose|k: int| 0 <= k < base.len() && base[k] == e;
                        assert(work@[k] == e);
                    }
                }
                assert forall|n: usize| #[trigger] hop(g, outgoing, node, n) implies covered(
                    done,
                    work@,
                    ((depth + 1) as usize, n),
                ) by {
                    assert(ns.contains(n as int));
                    let j = choose|j: int| 0 <= j < ns.len() && ns[j] == n as int;
                    assert(nbrs@[j] == n);
                    assert(work@[base.len() + j] == ((depth + 1) as usize, n));
                }
            }
        }
    }
    proof {
        assert(work@ =~= Seq::empty());
        assert(log =~= visits(g, rule, outgoing, target as int));
        assert forall|n: int| 0 <= n < g.size() implies (#[trigger] visited(g, rule, outgoing, target as int, n) <==> seen(
            done,
            n as usize,
        )) by {
            if visited(g, rule, outgoing, target as int, n) {
                let d = choose|d: nat| #[trigger] reached(g, rule, outgoing, target as int, n, d);
                lemma_complete(g, rule, outgoing, target, done, n, d);
            }
            if seen(done, n as usize) {
                let d = choose|d: usize| #[trigger] done.contains((d, n as usize));
                assert(reached(g, rule, outgoing, target as int, n, d as nat));
            }
        }
        assert forall|n: int| 0 <= n < g.size() && visited(g, rule, outgoing, target as int, n) implies reached(
            g,
            rule,
            outgoing,
            target as int,
            n,
            (#[trigger] dist@[n]) as nat,
        ) by {
            assert(seen(done, n as usize));
            assert(done.contains((dist@[n], n as usize)));
        }
        assert forall|n: int| 0 <= n < g.size() implies (#[trigger] stopped(g, rule, outgoing, target as int, n) <==> halted(
            g,
            rule,
            outgoing,
            done,
            n as usize,
        )) by {
            if stopped(g, rule, outgoing, target as int, n) {
                let d = choose|d: nat| #[trigger]
                    reached(g, rule, outgoing, target as int, n, d) && !expands(g, rule, outgoing, n, d);
                lemma_complete(g, rule, outgoing, target, done, n, d);
                assert(done.contains((d as usize, n as usize)));
            }
            if halted(g, rule, outgoing, done, n as usize) {
                let d = choose|d: usize| #[trigger]
                    done.contains((d, n as usize)) && !expands(g, rule, outgoing, n, d as nat);
                assert(reached(g, rule, outgoing, target as int, n, d as nat));
            }
        }
    }
}

// ---------------------------------------------------------------------------
// Both directions.
// ---------------------------------------------------------------------------

/// Node `n` is kept: the traversal of one direction or the other visits it.
pub open spec fn selected(g: &RefGraph, rule: &Limits, target: int, n: int) -> bool {
    visited(g, rule, true, target, n) || visited(g, rule, false, target, n)
}

/// `kept` marks, by node index, exactly the nodes that are kept.
pub open spec fn marks_kept(g: &RefGraph, rule: &Limits, target: int, kept: Seq<bool>) -> bool {
    &&& kept.len() == g.size()
    &&& forall|n: int| 0 <= n < g.size() ==> #[trigger] kept[n] == selected(g, rule, target, n)
}

/// `after` is the descriptor of node `n` once both traversals have run on a
/// graph in which it was `before`. A flag is set where some visit in its
/// direction did not expand. The distance is the depth of the latest visit:
/// of the incoming traversal, which runs second, where that one visits the
/// node, else of the outgoing.
pub open spec fn annotated(
    g: &RefGraph,
    rule: &Limits,
    target: int,
    n: int,
    before: DescriptorView,
    after: DescriptorView,
) -> bool {
    &&& after.id == before.id
    &&& after.filename == before.filename
    &&& after.outbound_references == before.outbound_references
    &&& after.outgoing_truncated == (before.outgoing_truncated || stopped(g, rule, true, target, n))
    &&& after.incoming_truncated == (before.incoming_truncated || stopped(g, rule, false, target, n))
    &&& if visited(g, rule, false, target, n) {
        reached(g, rule, false, target, n, after.distance as nat)
    } else if visited(g, rule, true, target, n) {
        reached(g, rule, true, target, n, after.distance as nat)
    } else {
        after.distance == before.distance
    }
    &&& after.distance == last_depth(
        visits(g, rule, false, target),
        n as usize,
        last_depth(visits(g, rule, true, target), n as usize, before.distance),
    )
}

/// Computes the neighbourhood of the node with id `target_id`: marks, by node
/// index, the nodes to keep, and writes distance and truncation flags on the
/// nodes of `g`. Without such a node nothing is walked and nothing changes.
pub fn neighborhood(g: &mut RefGraph, target_id: usize, rule: &Limits) -> (r: Result<Vec<bool>, FilterError>)
    requires
        old(g).wf(),
    ensures
        final(g).wf(),
        final(g).edges() == old(g).edges(),
        final(g).size() == old(g).size(),
        match r {
            Err(e) => e == FilterError::TargetNotFound && !old(g).ids().contains(target_id) && final(g).descriptors()
                == old(g).descriptors(),
            Ok(kept) => {
                &&& old(g).ids().contains(target_id)
                &&& marks_kept(&*old(g), rule, old(g).position(target_id), kept@)
                &&& kept@[old(g).position(target_id)]
                &&& forall|n: int|
                    0 <= n < old(g).size() ==> annotated(
                        &*old(g),
                        rule,
                        old(g).position(target_id),
                        n,
                        old(g).descriptors()[n],
                        #[trigger] final(g).descriptors()[n],
                    )
            },
        },
{
    let found = g.index_of(target_id);
    let target: usize = match found {
        Some(t) => t,
        None => {
            return Err(FilterError::TargetNotFound);
        },
    };
    let ghost g0 = *g;
    proof {
        g0.lemma_wf_shape();
        assert(g0.ids().contains(target_id));
        assert(g0.position(target_id) == target as int);
        assert(reached(&g0, rule, true, target as int, target as int, 0));
    }
    let count: usize = g.node_count();
    let mut kept: Vec<bool> = Vec::new();
    let mut dist: Vec<usize> = Vec::new();
    let mut out_flags: Vec<bool> = Vec::new();
    let mut in_flags: Vec<bool> = Vec::new();
    let mut i: usize = 0;
    while i < count
        invariant
            *g == g0,
            count == g0.size(),
            i <= count,
            kept@.len() == i,
            dist@.len() == i,
            out_flags@.len() == i,
            in_flags@.len() == i,
            forall|j: int| 0 <= j < i ==> !(#[trigger] kept@[j]),
            forall|j: int| 0 <= j < i ==> #[trigger] dist@[j] == g0.descriptors()[j].distance,
            forall|j: int| 0 <= j < i ==> #[trigger] out_flags@[j] == g0.descriptors()[j].outgoing_truncated,
            forall|j: int| 0 <= j < i ==> #[trigger] in_flags@[j] == g0.descriptors()[j].incoming_truncated,
        decreases count - i,
    {
        let d = g.node(i);
        kept.push(false);
        dist.push(d.distance);
        out_flags.push(d.outgoing_truncated);
        in_flags.push(d.incoming_truncated);
        i += 1;
    }
    sweep(&*g, rule, true, target, &mut kept, &mut dist, &mut out_flags);
    sweep(&*g, rule, false, target, &mut kept, &mut dist, &mut in_flags);
    proof {
        assert forall|n: int| 0 <= n < g0.size() implies #[trigger] kept@[n] == selected(
            &g0,
            rule,
            target as int,
            n,
        ) by {}
    }
    let mut k: usize = 0;
    while k < count
        invariant
            g.wf(),
            g.edges() == g0.edges(),
            g.size() == g0.size(),
            count == g0.size(),
            k <= count,
            dist@.len() == count,
            out_flags@.len() == count,
            in_flags@.len() == count,
            forall|n: int| k <= n < count ==> #[trigger] g.descriptors()[n] == g0.descriptors()[n],
            forall|n: int|
                0 <= n < k ==> #[trigger] g.descriptors()[n] == (DescriptorView {
                    distance: dist@[n],
                    incoming_truncated: in_flags@[n],
                    outgoing_truncated: out_flags@[n],
                    ..g0.descriptors()[n]
                }),
        decreases count - k,
    {
        g.annotate(k, dist[k], in_flags[k], out_flags[k]);
        k += 1;
    }
    proof {
        assert forall|n: int| 0 <= n < g0.size() implies annotated(
            &g0,
            rule,
            target as int,
            n,
            g0.descriptors()[n],
            #[trigger] g.descriptors()[n],
        ) by {}
    }
    Ok(kept)
}

/// No visit is deeper than the depth limit of its direction.
pub proof fn lemma_depth_bounded(g: &RefGraph, rule: &Limits, outgoing: bool, target: int, n: int, d: nat)
    requires
        reached(g, rule, outgoing, target, n, d),
    ensures
        d <= depth_limit(rule, outgoing),
    decreases d,
{
    if d > 0 {
        let m = choose|m: int|
            0 <= m < g.size() && #[trigger] linked(g, outgoing, m, n) && reached(
                g,
                rule,
                outgoing,
                target,
                m,
                (d - 1) as nat,
            ) && expands(g, rule, outgoing, m, (d - 1) as nat);
        lemma_depth_bounded(g, rule, outgoing, target, m, (d - 1) as nat);
    }
}

/// The target is always kept, whatever the limits.
pub proof fn lemma_target_selected(g: &RefGraph, rule: &Limits, target: int)
    ensures
        selected(g, rule, target, target),
{
    assert(reached(g, rule, true, target, target, 0));
}

/// The target keeps distance 0 unless the incoming traversal comes back to
/// it, along a cycle short enough to be walked.
pub proof fn lemma_target_distance(g: &RefGraph, rule: &Limits, target: int, before: DescriptorView, after: DescriptorView)
    requires
        annotated(g, rule, target, target, before, after),
        forall|d: nat| d > 0 ==> !#[trigger] reached(g, rule, false, target, target, d),
    ensures
        after.distance == 0,
{
    assert(reached(g, rule, false, target, target, 0));
}

/// The distance of a kept node is at most the depth limit of the direction
/// it was recorded in, hence at most the larger of the two limits.
pub proof fn lemma_distance_within_limit(
    g: &RefGraph,
    rule: &Limits,
    target: int,
    n: int,
    before: DescriptorView,
    after: DescriptorView,
)
    requires
        annotated(g, rule, target, n, before, after),
        selected(g, rule, target, n),
    ensures
        after.distance <= rule.outgoing_depth || after.distance <= rule.incoming_depth,
        visited(g, rule, false, target, n) ==> after.distance <= rule.incoming_depth,
        !visited(g, rule, false, target, n) ==> after.distance <= rule.outgoing_depth,
{
    if visited(g, rule, false, target, n) {
        lemma_depth_bounded(g, rule, false, target, n, after.distance as nat);
    } else {
        lemma_depth_bounded(g, rule, true, target, n, after.distance as nat);
    }
}

/// Which nodes are kept is fixed by the graph, the limits and the target:
/// two markings that both meet the filter's contract are the same.
pub proof fn lemma_kept_determined(g: &RefGraph, rule: &Limits, target: int, a: Seq<bool>, b: Seq<bool>)
    requires
        marks_kept(g, rule, target, a),
        marks_kept(g, rule, target, b),
    ensures
        a == b,
{
    assert(a =~= b);
}

} // verus!
