//! The game solver: computes by backward induction from which nodes a
//! player can force reaching a target set at exactly a given time.

use vstd::prelude::*;

use crate::temporal_graphs::{owner_of, Edge, Node, TemporalGraph};

verus! {

/// Whether node `n` can force reaching, in one step taken at time `t`,
/// the set of nodes `w` marks as winning: the player picks any available
/// edge into `w` at a node it owns; at any other node every available
/// edge must lead into `w`, and there must be at least one — no move is
/// a loss, never a vacuous win.
pub open spec fn node_wins_step(
    g: TemporalGraph,
    w: Seq<bool>,
    player: bool,
    t: usize,
    n: int,
) -> bool {
    let succs = g.successors_spec(n as Node, t);
    if owner_of(g.node_attrs@[n]@) == player {
        exists|j: int| 0 <= j < succs.len() && w[#[trigger] succs[j] as int]
    } else {
        succs.len() > 0 && (forall|j: int|
            0 <= j < succs.len() ==> w[#[trigger] succs[j] as int])
    }
}

/// The one-step attractor of `w` at time `t`: the winning set one time
/// step earlier.
pub open spec fn attractor_step(
    g: TemporalGraph,
    w: Seq<bool>,
    player: bool,
    t: usize,
) -> Seq<bool> {
    Seq::new(g.node_count as nat, |n: int| node_wins_step(g, w, player, t, n))
}

/// The winning set at time `i` of the game whose target set at the
/// horizon `k` is `target`: the target itself at the horizon, one
/// attractor step on the later set at every earlier time.
pub open spec fn winning_set(
    g: TemporalGraph,
    player: bool,
    target: Seq<bool>,
    i: usize,
    k: usize,
) -> Seq<bool>
    decreases k - i,
{
    if i >= k {
        target
    } else {
        attractor_step(g, winning_set(g, player, target, (i + 1) as usize, k), player, i)
    }
}

/// Every element of a filtered sequence is an element of the sequence.
proof fn lemma_filter_elements<A>(s: Seq<A>, p: spec_fn(A) -> bool)
    ensures
        forall|i: int| 0 <= i < s.filter(p).len() ==> s.contains(#[trigger] s.filter(p)[i]),
    decreases s.len(),
{
    reveal(Seq::filter);
    if s.len() > 0 {
        lemma_filter_elements(s.drop_last(), p);
        assert forall|i: int|
            0 <= i < s.filter(p).len() implies s.contains(#[trigger] s.filter(p)[i]) by {
            let sub = s.drop_last().filter(p);
            if i < sub.len() {
                assert(s.drop_last().contains(sub[i]));
                let j = choose|j: int| 0 <= j < s.drop_last().len() && s.drop_last()[j] == sub[i];
                assert(s[j] == sub[i]);
            } else {
                assert(s.filter(p)[i] == s.last());
            }
        }
    }
}

/// In a well-formed graph every successor is a valid node index.
pub proof fn lemma_successors_bounded(g: TemporalGraph, from: Node, t: usize)
    requires
        g.well_formed(),
    ensures
        forall|j: int| 0 <= j < g.successors_spec(from, t).len()
            ==> #[trigger] g.successors_spec(from, t)[j] < g.node_count,
{
    let bucket = g.bucket_of(from);
    let p = |e: Edge| e.spec_available(t);
    lemma_filter_elements(bucket, p);
    assert forall|j: int|
        0 <= j < g.successors_spec(from, t).len()
            implies #[trigger] g.successors_spec(from, t)[j] < g.node_count by {
        let e = bucket.filter(p)[j];
        assert(bucket.contains(e));
        let i = choose|i: int| 0 <= i < bucket.len() && bucket[i] == e;
        assert(g.successors_spec(from, t)[j] == e.target);
    }
}

/// Whether some successor is marked true in `w`.
#[verifier::loop_isolation(false)]
fn any_winning(w: &Vec<bool>, succs: &Vec<Node>) -> (r: bool)
    requires
        forall|j: int| 0 <= j < succs@.len() ==> #[trigger] succs@[j] < w@.len(),
    ensures
        r == exists|j: int| 0 <= j < succs@.len() && w@[#[trigger] succs@[j] as int],
{
    let mut j: usize = 0;
    let n: usize = succs.len();
    while j < n
        invariant
            j <= n,
            forall|m: int| 0 <= m < j ==> !w@[#[trigger] succs@[m] as int],
        decreases n - j,
    {
        if w[succs[j]] {
            return true;
        }
        j += 1;
    }
    false
}

/// Whether every successor is marked true in `w`.
#[verifier::loop_isolation(false)]
fn all_winning(w: &Vec<bool>, succs: &Vec<Node>) -> (r: bool)
    requires
        forall|j: int| 0 <= j < succs@.len() ==> #[trigger] succs@[j] < w@.len(),
    ensures
        r == forall|j: int| 0 <= j < succs@.len() ==> w@[#[trigger] succs@[j] as int],
{
    let mut j: usize = 0;
    let n: usize = succs.len();
    while j < n
        invariant
            j <= n,
            forall|m: int| 0 <= m < j ==> w@[#[trigger] succs@[m] as int],
        decreases n - j,
    {
        if !w[succs[j]] {
            return false;
        }
        j += 1;
    }
    true
}

/// Computes the set of nodes from which `player` can force reaching the
/// target set at exactly time `k`, by back propagation of the target set
/// from time `k` down to time 0.
///
/// With a horizon of zero the target set itself comes back unchanged.
#[verifier::loop_isolation(false)]
pub fn reachable_at(
    graph: &TemporalGraph,
    k: usize,
    player: bool,
    target: &Vec<bool>,
) -> (r: Vec<bool>)
    requires
        graph.well_formed(),
        target@.len() == graph.node_count,
    ensures
        r@ == winning_set(*graph, player, target@, 0, k),
        k == 0 ==> r@ == target@,
{
    let owner: Vec<bool> = graph.node_ownership();

    let mut wins_at: Vec<bool> = Vec::new();
    let mut c: usize = 0;
    while c < target.len()
        invariant
            c <= target@.len(),
            wins_at@.len() == c,
            forall|m: int| 0 <= m < c ==> wins_at@[m] == target@[m],
        decreases target@.len() - c,
    {
        wins_at.push(target[c]);
        c += 1;
    }
    proof {
        assert(wins_at@ =~= target@);
    }

    let mut i: usize = k;
    while i > 0
        invariant
            i <= k,
            wins_at@.len() == graph.node_count,
            wins_at@ == winning_set(*graph, player, target@, i, k),
        decreases i,
    {
        i -= 1;
        let ghost later = wins_at@;
        let mut next: Vec<bool> = Vec::new();
        let mut node: usize = 0;
        while node < graph.node_count
            invariant
                node <= graph.node_count,
                next@.len() == node,
                forall|m: int| 0 <= m < node
                    ==> next@[m] == node_wins_step(*graph, later, player, i, m),
            decreases graph.node_count - node,
        {
            let succs = graph.successors_at(node, i);
            proof {
                lemma_successors_bounded(*graph, node, i);
            }
            let wins = if owner[node] == player {
                any_winning(&wins_at, &succs)
            } else {
                !succs.is_empty() && all_winning(&wins_at, &succs)
            };
            proof {
                let ghost sp = graph.successors_spec(node, i);
                assert forall|j: int| 0 <= j < succs@.len() implies
                    #[trigger] sp[j] == succs@[j] by {}
                if owner_of(graph.node_attrs@[node as int]@) == player {
                    assert((exists|j: int| 0 <= j < succs@.len()
                            && wins_at@[#[trigger] succs@[j] as int])
                        == (exists|j: int| 0 <= j < sp.len()
                            && later[#[trigger] sp[j] as int]));
                } else {
                    assert((succs@.len() > 0 && forall|j: int| 0 <= j < succs@.len()
                            ==> wins_at@[#[trigger] succs@[j] as int])
                        == (sp.len() > 0 && forall|j: int| 0 <= j < sp.len()
                            ==> later[#[trigger] sp[j] as int]));
                }
                assert(wins == node_wins_step(*graph, later, player, i, node as int));
            }
            next.push(wins);
            node += 1;
        }
        proof {
            assert(next@ =~= attractor_step(*graph, later, player, i));
        }
        wins_at = next;
    }
    wins_at
}

/// A target node that can always wait stays winning at every horizon,
/// for either player: when every outgoing edge of `n` returns to `n`,
/// some outgoing edge is available at every time, and `n` is in the
/// target set, then `n` is in the winning region whatever the horizon.
pub proof fn lemma_waiting_node_stays_winning(
    g: TemporalGraph,
    player: bool,
    target: Seq<bool>,
    n: int,
    i: usize,
    k: usize,
)
    requires
        g.well_formed(),
        target.len() == g.node_count,
        0 <= n < g.node_count,
        target[n],
        forall|j: int| 0 <= j < g.edges@[n]@.len()
            ==> (#[trigger] g.edges@[n]@[j]).target == n,
        forall|t: usize| #[trigger] g.avail_edges(n as Node, t).len() > 0,
    ensures
        i <= k ==> winning_set(g, player, target, i, k)[n],
    decreases k - i,
{
    if i < k {
        lemma_waiting_node_stays_winning(g, player, target, n, (i + 1) as usize, k);
        let w = winning_set(g, player, target, (i + 1) as usize, k);
        let bucket = g.bucket_of(n as Node);
        let p = |e: Edge| e.spec_available(i);
        let succs = g.successors_spec(n as Node, i);
        assert(succs.len() > 0);
        lemma_filter_elements(bucket, p);
        assert forall|m: int| 0 <= m < succs.len() implies w[#[trigger] succs[m] as int] by {
            let e = bucket.filter(p)[m];
            assert(bucket.contains(e));
            let q = choose|q: int| 0 <= q < bucket.len() && bucket[q] == e;
            assert(e.target == n);
            assert(succs[m] == e.target);
        }
        assert(w[succs[0] as int]);
        assert(node_wins_step(g, w, player, i, n));
    }
}

/// The universal attractor is never vacuously won: a node that the
/// designated player does not own and that has no available move at a
/// time `i` before the horizon is losing at time `i`.
pub proof fn lemma_universal_attractor_nonvacuous(
    g: TemporalGraph,
    player: bool,
    target: Seq<bool>,
    i: usize,
    k: usize,
    n: int,
)
    requires
        0 <= n < g.node_count,
        i < k,
        owner_of(g.node_attrs@[n]@) != player,
        g.successors_spec(n as Node, i).len() == 0,
    ensures
        !winning_set(g, player, target, i, k)[n],
{
    assert(winning_set(g, player, target, i, k)
        == attractor_step(g, winning_set(g, player, target, (i + 1) as usize, k), player, i));
}

} // verus!
