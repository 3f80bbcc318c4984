//! Walks, reachability, and cycles in a list of directed edges.
use vstd::prelude::*;

verus! {

/// Each step of `walk` follows an edge.
pub open spec fn is_walk(edges: Seq<(int, int)>, walk: Seq<int>) -> bool {
    &&& walk.len() > 0
    &&& forall|i: int|
        0 <= i < walk.len() - 1 ==> edges.contains((#[trigger] walk[i], walk[i + 1]))
}

/// `walk` leads from `a` to `b`.
pub open spec fn leads(edges: Seq<(int, int)>, walk: Seq<int>, a: int, b: int) -> bool {
    is_walk(edges, walk) && walk.first() == a && walk.last() == b
}

/// Following edges, `b` can be reached from `a`, in no step at least.
pub open spec fn reaches(edges: Seq<(int, int)>, a: int, b: int) -> bool {
    exists|walk: Seq<int>| leads(edges, walk, a, b)
}

/// Some walk of at least one step comes back to its beginning.
pub open spec fn cyclic(edges: Seq<(int, int)>) -> bool {
    exists|walk: Seq<int>| #[trigger]
        is_walk(edges, walk) && walk.len() > 1 && walk.first() == walk.last()
}

/// Some group holds `v`.
pub open spec fn grouped(groups: Seq<Seq<int>>, v: int) -> bool {
    exists|c: int, k: int|
        0 <= c < groups.len() && 0 <= k < groups[c].len() && #[trigger] groups[c][k] == v
}

/// The nodes `0..nodes` in groups, each node in one place. Two nodes are in
/// one group exactly where each reaches the other, and an edge between groups
/// leads to an earlier one.
pub open spec fn strong_components(
    nodes: nat,
    edges: Seq<(int, int)>,
    groups: Seq<Seq<int>>,
) -> bool {
    &&& forall|c: int| 0 <= c < groups.len() ==> (#[trigger] groups[c]).len() > 0
    &&& forall|c: int, k: int|
        0 <= c < groups.len() && 0 <= k < groups[c].len() ==> 0 <= #[trigger] groups[c][k] < nodes
    &&& forall|v: int| 0 <= v < nodes ==> #[trigger] grouped(groups, v)
    &&& forall|c: int, k: int, d: int, l: int|
        0 <= c < groups.len() && 0 <= k < groups[c].len() && 0 <= d < groups.len() && 0 <= l
            < groups[d].len() && #[trigger] groups[c][k] == #[trigger] groups[d][l] ==> c == d && k
            == l
    &&& forall|c: int, k: int, d: int, l: int|
        0 <= c < groups.len() && 0 <= k < groups[c].len() && 0 <= d < groups.len() && 0 <= l
            < groups[d].len() ==> {
            &&& c == d <==> reaches(edges, #[trigger] groups[c][k], #[trigger] groups[d][l])
                && reaches(edges, groups[d][l], groups[c][k])
            &&& edges.contains((groups[c][k], groups[d][l])) ==> d <= c
        }
}

/// Every node reaches itself.
pub proof fn lemma_reaches_self(edges: Seq<(int, int)>, a: int)
    ensures
        reaches(edges, a, a),
{
    assert(leads(edges, seq![a], a, a));
}

/// An edge in front of a walk.
pub proof fn lemma_reaches_step(edges: Seq<(int, int)>, a: int, b: int, c: int)
    requires
        edges.contains((a, b)),
        reaches(edges, b, c),
    ensures
        reaches(edges, a, c),
{
    let walk = choose|walk: Seq<int>| leads(edges, walk, b, c);
    let longer = seq![a] + walk;
    assert forall|i: int| 0 <= i < longer.len() - 1 implies edges.contains(
        (#[trigger] longer[i], longer[i + 1]),
    ) by {
        if i > 0 {
            assert(edges.contains((walk[i - 1], walk[i])));
        }
    }
    assert(leads(edges, longer, a, c));
}

/// One walk behind another.
pub proof fn lemma_reaches_transitive(edges: Seq<(int, int)>, a: int, b: int, c: int)
    requires
        reaches(edges, a, b),
        reaches(edges, b, c),
    ensures
        reaches(edges, a, c),
{
    let first = choose|walk: Seq<int>| leads(edges, walk, a, b);
    lemma_walk_then(edges, first, a, b, c);
}

proof fn lemma_walk_then(edges: Seq<(int, int)>, walk: Seq<int>, a: int, b: int, c: int)
    requires
        leads(edges, walk, a, b),
        reaches(edges, b, c),
    ensures
        reaches(edges, a, c),
    decreases walk.len(),
{
    if walk.len() > 1 {
        let rest = walk.drop_first();
        assert forall|i: int| 0 <= i < rest.len() - 1 implies edges.contains(
            (#[trigger] rest[i], rest[i + 1]),
        ) by {
            assert(edges.contains((walk[i + 1], walk[i + 2])));
        }
        assert(leads(edges, rest, walk[1], b));
        lemma_walk_then(edges, rest, walk[1], b, c);
        assert(edges.contains((walk[0], walk[1])));
        lemma_reaches_step(edges, a, walk[1], c);
    }
}

/// A set of nodes that holds the beginning of every edge into it holds every
/// node that reaches one of its nodes.
pub proof fn lemma_closed_backwards(
    edges: Seq<(int, int)>,
    inside: Set<int>,
    walk: Seq<int>,
    a: int,
    b: int,
)
    requires
        forall|x: int, y: int| #[trigger]
            edges.contains((x, y)) && inside.contains(y) ==> inside.contains(x),
        leads(edges, walk, a, b),
        inside.contains(b),
    ensures
        inside.contains(a),
    decreases walk.len(),
{
    if walk.len() > 1 {
        let rest = walk.drop_first();
        assert forall|i: int| 0 <= i < rest.len() - 1 implies edges.contains(
            (#[trigger] rest[i], rest[i + 1]),
        ) by {
            assert(edges.contains((walk[i + 1], walk[i + 2])));
        }
        assert(leads(edges, rest, walk[1], b));
        lemma_closed_backwards(edges, inside, rest, walk[1], b);
        assert(edges.contains((walk[0], walk[1])));
    }
}

/// More edges reach no less.
pub proof fn lemma_reaches_monotone(
    edges: Seq<(int, int)>,
    more: Seq<(int, int)>,
    a: int,
    b: int,
)
    requires
        reaches(edges, a, b),
        forall|e: (int, int)| #[trigger] edges.contains(e) ==> more.contains(e),
    ensures
        reaches(more, a, b),
{
    let walk = choose|walk: Seq<int>| leads(edges, walk, a, b);
    assert forall|i: int| 0 <= i < walk.len() - 1 implies more.contains(
        (#[trigger] walk[i], walk[i + 1]),
    ) by {
        assert(edges.contains((walk[i], walk[i + 1])));
    }
    assert(leads(more, walk, a, b));
}

} // verus!
