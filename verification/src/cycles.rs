//! Groups of projects that depend on each other in a circle.
use vstd::prelude::*;

use crate::digraph;
use crate::graph;
use crate::graph::GraphModel;
use crate::graph::ProjectGraph;
use crate::project::Project;
use crate::project::ProjectId;
use crate::reach;
use crate::text;

verus! {

impl GraphModel {
    /// The ids of the projects at the given places.
    pub open spec fn ids_of(self, places: Seq<int>) -> Seq<Seq<char>> {
        places.map_values(|i: int| self.projects[i].id)
    }

    /// The ids in each group of more than one project, in the order of the
    /// groups.
    pub open spec fn circles(self, groups: Seq<Seq<int>>) -> Seq<Seq<Seq<char>>>
        decreases groups.len(),
    {
        if groups.len() == 0 {
            Seq::empty()
        } else if groups.last().len() > 1 {
            self.circles(groups.drop_last()).push(self.ids_of(groups.last()))
        } else {
            self.circles(groups.drop_last())
        }
    }

    /// `lists` holds the ids of each group of projects that all depend on each
    /// other and are more than one.
    pub open spec fn lists_circles(self, lists: Seq<Seq<Seq<char>>>) -> bool {
        exists|groups: Seq<Seq<int>>| #[trigger]
            reach::strong_components(self.projects.len(), self.edges, groups) && lists
                == self.circles(groups)
    }
}

/// The ids in each of several lists.
pub open spec fn text_lists(lists: Seq<Vec<ProjectId>>) -> Seq<Seq<Seq<char>>> {
    lists.map_values(|list: Vec<ProjectId>| text::texts(list@))
}

impl ProjectGraph {
    /// The ids of the projects at the given places.
    fn ids_in(&self, places: &Vec<usize>) -> (r: Vec<ProjectId>)
        requires
            forall|k: int| 0 <= k < places@.len() ==> #[trigger] places@[k] < self@.projects.len(),
        ensures
            text::texts(r@) == self@.ids_of(digraph::ints(places@)),
    {
        let ghost g = self@;
        let list = self.projects();
        let ghost f = |p: &Project| p@;
        proof {
            assert(list@.map_values(f) =~= g.projects);
        }
        let mut r: Vec<ProjectId> = Vec::new();
        let mut i: usize = 0;
        while i < places.len()
            invariant
                f == (|p: &Project| p@),
                list@.map_values(f) == g.projects,
                forall|k: int| 0 <= k < places@.len() ==> #[trigger] places@[k] < g.projects.len(),
                i <= places@.len(),
                r@.len() == i,
                forall|k: int|
                    0 <= k < i ==> (#[trigger] r@[k])@ == g.projects[places@[k] as int].id,
            decreases places@.len() - i,
        {
            let project = list[places[i]];
            proof {
                assert(list@.map_values(f)[places@[i as int] as int] == project@);
            }
            r.push(project.id.clone());
            i += 1;
        }
        proof {
            assert(text::texts(r@) =~= g.ids_of(digraph::ints(places@)));
        }
        r
    }

    /// The ids of each group of projects that depend on each other in a
    /// circle. Cycles are for the user to mend, so a graph may have them.
    ///
    /// A group comes before the groups that depend on it. The order of the ids
    /// within a group is left open.
    pub fn cycles(&self) -> (r: Vec<Vec<ProjectId>>)
        ensures
            self@.lists_circles(text_lists(r@)),
    {
        let ghost g = self@;
        let parts = self.components();
        let ghost f = |group: Vec<usize>| digraph::ints(group@);
        let ghost groups = parts@.map_values(f);
        let mut r: Vec<Vec<ProjectId>> = Vec::new();
        let mut i: usize = 0;
        proof {
            assert(groups.take(0) =~= Seq::<Seq<int>>::empty());
            assert(text_lists(r@) =~= g.circles(groups.take(0)));
        }
        while i < parts.len()
            invariant
                g == self@,
                f == (|group: Vec<usize>| digraph::ints(group@)),
                groups == parts@.map_values(f),
                reach::strong_components(g.projects.len(), g.edges, groups),
                i <= parts@.len(),
                text_lists(r@) == g.circles(groups.take(i as int)),
            decreases parts@.len() - i,
        {
            let ghost before = r@;
            proof {
                assert(groups[i as int] == digraph::ints(parts@[i as int]@));
                assert(groups.take(i + 1).drop_last() =~= groups.take(i as int));
                assert(groups.take(i + 1).last() == groups[i as int]);
            }
            if parts[i].len() > 1 {
                proof {
                    assert forall|k: int| 0 <= k < parts@[i as int]@.len() implies
                        #[trigger] parts@[i as int]@[k] < g.projects.len() by {
                        assert(groups[i as int][k] == parts@[i as int]@[k] as int);
                    }
                }
                let ids = self.ids_in(&parts[i]);
                r.push(ids);
                proof {
                    assert(text_lists(r@) =~= text_lists(before).push(text::texts(ids@)));
                }
            }
            i += 1;
        }
        proof {
            assert(groups.take(i as int) =~= groups);
        }
        r
    }
}

/// A step and a walk back make a circle.
#[verifier::spinoff_prover]
proof fn lemma_round_trip(edges: Seq<(int, int)>, a: int, next: int)
    requires
        edges.contains((a, next)),
        reach::reaches(edges, next, a),
    ensures
        reach::cyclic(edges),
{
    let back = choose|back: Seq<int>| reach::leads(edges, back, next, a);
    let round = seq![a] + back;
    assert forall|i: int| 0 <= i < round.len() - 1 implies edges.contains(
        (#[trigger] round[i], round[i + 1]),
    ) by {
        if i > 0 {
            assert(edges.contains((back[i - 1], back[i])));
        }
    }
    assert(reach::is_walk(edges, round));
    assert(round.last() == back.last());
}

/// A walk between two nodes begins with a step.
#[verifier::spinoff_prover]
proof fn lemma_first_step(edges: Seq<(int, int)>, walk: Seq<int>, a: int, b: int)
    requires
        reach::leads(edges, walk, a, b),
        walk.len() > 1,
    ensures
        edges.contains((a, walk[1])),
        reach::reaches(edges, walk[1], b),
{
    let rest = walk.drop_first();
    assert forall|i: int| 0 <= i < rest.len() - 1 implies edges.contains(
        (#[trigger] rest[i], rest[i + 1]),
    ) by {
        assert(edges.contains((walk[i + 1], walk[i + 2])));
    }
    assert(reach::leads(edges, rest, walk[1], b));
    assert(edges.contains((walk[0], walk[1])));
}

/// Some group has more than one node.
spec fn has_large(groups: Seq<Seq<int>>) -> bool {
    exists|c: int| 0 <= c < groups.len() && (#[trigger] groups[c]).len() > 1
}

/// Two nodes that reach each other share a group.
#[verifier::spinoff_prover]
proof fn lemma_share_group(
    nodes: nat,
    edges: Seq<(int, int)>,
    groups: Seq<Seq<int>>,
    a: int,
    b: int,
)
    requires
        reach::strong_components(nodes, edges, groups),
        0 <= a < nodes,
        0 <= b < nodes,
        a != b,
        reach::reaches(edges, a, b),
        reach::reaches(edges, b, a),
    ensures
        has_large(groups),
{
    assert(reach::grouped(groups, a));
    assert(reach::grouped(groups, b));
    let (c, k) = choose|c: int, k: int|
        0 <= c < groups.len() && 0 <= k < groups[c].len() && #[trigger] groups[c][k] == a;
    let (d, l) = choose|d: int, l: int|
        0 <= d < groups.len() && 0 <= l < groups[d].len() && #[trigger] groups[d][l] == b;
    assert(c == d);
    assert(groups[c].len() > 1);
}

/// In a group of more than one node there is a circle.
#[verifier::spinoff_prover]
proof fn lemma_large_circle(nodes: nat, edges: Seq<(int, int)>, groups: Seq<Seq<int>>)
    requires
        reach::strong_components(nodes, edges, groups),
        has_large(groups),
    ensures
        reach::cyclic(edges),
{
    let c = choose|c: int| 0 <= c < groups.len() && (#[trigger] groups[c]).len() > 1;
    let a = groups[c][0];
    let b = groups[c][1];
    assert(a != b);
    assert(reach::reaches(edges, a, b) && reach::reaches(edges, b, a));
    let walk = choose|walk: Seq<int>| reach::leads(edges, walk, a, b);
    lemma_first_step(edges, walk, a, b);
    reach::lemma_reaches_transitive(edges, walk[1], b, a);
    lemma_round_trip(edges, a, walk[1]);
}

/// A graph has a cycle exactly where some group of projects depend on each
/// other in a circle.
#[verifier::spinoff_prover]
pub proof fn law_cycle_listed(g: GraphModel, lists: Seq<Seq<Seq<char>>>)
    requires
        g.wf(),
        g.lists_circles(lists),
    ensures
        reach::cyclic(g.edges) <==> lists.len() > 0,
{
    let groups = choose|groups: Seq<Seq<int>>| #[trigger]
        reach::strong_components(g.projects.len(), g.edges, groups) && lists == g.circles(groups);
    lemma_circles_len(g, groups);
    if reach::cyclic(g.edges) {
        let walk = choose|walk: Seq<int>| #[trigger]
            reach::is_walk(g.edges, walk) && walk.len() > 1 && walk.first() == walk.last();
        let a = walk[0];
        let b = walk[1];
        lemma_first_step(g.edges, walk, a, a);
        let e = choose|e: int| 0 <= e < g.edges.len() && g.edges[e] == (a, b);
        assert(g.edges[e].0 != g.edges[e].1);
        reach::lemma_reaches_self(g.edges, b);
        reach::lemma_reaches_step(g.edges, a, b, b);
        lemma_share_group(g.projects.len(), g.edges, groups, a, b);
    }
    if has_large(groups) {
        lemma_large_circle(g.projects.len(), g.edges, groups);
    }
}

proof fn lemma_circles_len(g: GraphModel, groups: Seq<Seq<int>>)
    ensures
        g.circles(groups).len() > 0 <==> has_large(groups),
    decreases groups.len(),
{
    if groups.len() > 0 {
        let rest = groups.drop_last();
        lemma_circles_len(g, rest);
        if has_large(rest) {
            let c = choose|c: int| 0 <= c < rest.len() && (#[trigger] rest[c]).len() > 1;
            assert(groups[c].len() > 1);
        }
        if has_large(groups) {
            let c = choose|c: int| 0 <= c < groups.len() && (#[trigger] groups[c]).len() > 1;
            if c < rest.len() {
                assert(rest[c].len() > 1);
            }
        }
        if groups.last().len() > 1 {
            assert(groups[groups.len() - 1].len() > 1);
        }
    }
}

/// A circle begins with a project that depends directly on another, which depends
/// transitively on it.
#[verifier::spinoff_prover]
proof fn lemma_circle_dependency(g: GraphModel)
    requires
        g.wf(),
        reach::cyclic(g.edges),
    ensures
        exists|a: Seq<char>, b: Seq<char>| #[trigger]
            g.depends(a, b) && g.depends_transitively(b, a),
{
    let walk = choose|walk: Seq<int>| #[trigger]
        reach::is_walk(g.edges, walk) && walk.len() > 1 && walk.first() == walk.last();
    let x = walk[0];
    let y = walk[1];
    lemma_first_step(g.edges, walk, x, x);
    let e = choose|e: int| 0 <= e < g.edges.len() && g.edges[e] == (x, y);
    assert(0 <= g.edges[e].0 < g.projects.len());
    let a = g.projects[x].id;
    let b = g.projects[y].id;
    assert(g.is_at(x, a) && g.is_at(y, b));
    assert(g.depends(a, b));
    assert(g.depends_transitively(b, a));
}

/// Projects depend on each other in a circle where one depends directly on
/// another that depends transitively on it, and only there.
#[verifier::spinoff_prover]
pub proof fn law_cyclic(g: GraphModel)
    requires
        g.wf(),
    ensures
        reach::cyclic(g.edges) <==> exists|a: Seq<char>, b: Seq<char>| #[trigger]
            g.depends(a, b) && g.depends_transitively(b, a),
{
    if reach::cyclic(g.edges) {
        lemma_circle_dependency(g);
    }
    if exists|a: Seq<char>, b: Seq<char>| #[trigger]
        g.depends(a, b) && g.depends_transitively(b, a) {
        let (a, b) = choose|a: Seq<char>, b: Seq<char>| #[trigger]
            g.depends(a, b) && g.depends_transitively(b, a);
        let (i, j) = choose|i: int, j: int| #[trigger]
            g.is_at(i, a) && #[trigger] g.is_at(j, b) && g.edges.contains((i, j));
        let (k, l) = choose|k: int, l: int| #[trigger]
            g.is_at(k, b) && #[trigger] g.is_at(l, a) && reach::reaches(g.edges, k, l);
        graph::lemma_place(g, i);
        graph::lemma_place(g, j);
        graph::lemma_place(g, k);
        graph::lemma_place(g, l);
        lemma_round_trip(g.edges, i, j);
    }
}

/// Each list of a circle is that of a group of more than one node, in the order
/// of the groups, and every such group has one.
proof fn lemma_circles(g: GraphModel, groups: Seq<Seq<int>>) -> (from: Seq<int>)
    ensures
        from.len() == g.circles(groups).len(),
        forall|l: int|
            0 <= l < from.len() ==> {
                &&& 0 <= #[trigger] from[l] < groups.len()
                &&& groups[from[l]].len() > 1
                &&& g.circles(groups)[l] == g.ids_of(groups[from[l]])
            },
        forall|l: int, m: int| 0 <= l < m < from.len() ==> #[trigger] from[l] < #[trigger] from[m],
        forall|c: int|
            0 <= c < groups.len() && (#[trigger] groups[c]).len() > 1 ==> from.contains(c),
    decreases groups.len(),
{
    if groups.len() == 0 {
        Seq::empty()
    } else {
        let rest = groups.drop_last();
        let last = groups.len() - 1;
        let some = lemma_circles(g, rest);
        assert forall|c: int| 0 <= c < last implies #[trigger] groups[c] == rest[c] by {}
        assert forall|l: int| 0 <= l < some.len() implies 0 <= #[trigger] some[l] < last && groups[
            some[l]
        ] == rest[some[l]] by {}
        if groups[last].len() > 1 {
            let all = some.push(last);
            assert forall|c: int| 0 <= c < groups.len() && (
            #[trigger] groups[c]).len() > 1 implies all.contains(c) by {
                if c < last {
                    assert(rest[c].len() > 1);
                    let l = choose|l: int| 0 <= l < some.len() && some[l] == c;
                    assert(all[l] == c);
                } else {
                    assert(all[some.len() as int] == c);
                }
            }
            all
        } else {
            assert forall|c: int| 0 <= c < groups.len() && (
            #[trigger] groups[c]).len() > 1 implies some.contains(c) by {
                assert(rest[c].len() > 1);
            }
            some
        }
    }
}

/// Where an id stands in the lists of circles, its project stands in a group.
proof fn lemma_in_circle(
    g: GraphModel,
    groups: Seq<Seq<int>>,
    from: Seq<int>,
    l: int,
    id: Seq<char>,
) -> (k: int)
    requires
        0 <= l < from.len() == g.circles(groups).len(),
        0 <= from[l] < groups.len(),
        g.circles(groups)[l] == g.ids_of(groups[from[l]]),
        reach::strong_components(g.projects.len(), g.edges, groups),
        g.circles(groups)[l].contains(id),
    ensures
        0 <= k < groups[from[l]].len(),
        g.is_at(groups[from[l]][k], id),
{
    let list = g.circles(groups)[l];
    let k = choose|k: int| 0 <= k < list.len() && list[k] == id;
    assert(0 <= groups[from[l]][k] < g.projects.len());
    k
}

/// The node at one place of a group reaches those at the others.
spec fn reaches_within(edges: Seq<(int, int)>, group: Seq<int>) -> bool {
    forall|i: int, j: int|
        0 <= i < group.len() && 0 <= j < group.len() ==> reach::reaches(
            edges,
            #[trigger] group[i],
            #[trigger] group[j],
        )
}

/// The nodes of a group reach each other.
#[verifier::spinoff_prover]
proof fn lemma_group_reaches(nodes: nat, edges: Seq<(int, int)>, groups: Seq<Seq<int>>, c: int)
    requires
        reach::strong_components(nodes, edges, groups),
        0 <= c < groups.len(),
    ensures
        reaches_within(edges, groups[c]),
        forall|k: int| 0 <= k < groups[c].len() ==> 0 <= #[trigger] groups[c][k] < nodes,
{
    let group = groups[c];
    assert forall|i: int, j: int|
        0 <= i < group.len() && 0 <= j < group.len() implies reach::reaches(
        edges,
        #[trigger] group[i],
        #[trigger] group[j],
    ) by {
        assert(groups[c][i] == group[i] && groups[c][j] == group[j]);
    }
}

/// Projects whose nodes reach each other depend transitively on each other.
#[verifier::spinoff_prover]
proof fn lemma_group_depends(g: GraphModel, group: Seq<int>, a: Seq<char>, b: Seq<char>)
    requires
        g.ids_of(group).contains(a),
        g.ids_of(group).contains(b),
        forall|k: int| 0 <= k < group.len() ==> 0 <= #[trigger] group[k] < g.projects.len(),
        reaches_within(g.edges, group),
    ensures
        g.depends_transitively(a, b),
{
    let ids = g.ids_of(group);
    let i = choose|i: int| 0 <= i < ids.len() && ids[i] == a;
    let j = choose|j: int| 0 <= j < ids.len() && ids[j] == b;
    assert(g.is_at(group[i], a));
    assert(g.is_at(group[j], b));
    assert(reach::reaches(g.edges, group[i], group[j]));
}

/// Two different projects stand in one list of a circle where each depends
/// transitively on the other, and only there.
#[verifier::spinoff_prover]
pub proof fn law_circles_share(
    g: GraphModel,
    lists: Seq<Seq<Seq<char>>>,
    a: Seq<char>,
    b: Seq<char>,
)
    requires
        g.wf(),
        g.lists_circles(lists),
        a != b,
    ensures
        (exists|l: int|
            0 <= l < lists.len() && (#[trigger] lists[l]).contains(a) && lists[l].contains(b))
            <==> g.depends_transitively(a, b) && g.depends_transitively(b, a),
{
    let groups = choose|groups: Seq<Seq<int>>| #[trigger]
        reach::strong_components(g.projects.len(), g.edges, groups) && lists == g.circles(groups);
    let from = lemma_circles(g, groups);
    if exists|l: int|
        0 <= l < lists.len() && (#[trigger] lists[l]).contains(a) && lists[l].contains(b) {
        let l = choose|l: int|
            0 <= l < lists.len() && (#[trigger] lists[l]).contains(a) && lists[l].contains(b);
        lemma_group_reaches(g.projects.len(), g.edges, groups, from[l]);
        lemma_group_depends(g, groups[from[l]], a, b);
        lemma_group_depends(g, groups[from[l]], b, a);
    }
    if g.depends_transitively(a, b) && g.depends_transitively(b, a) {
        lemma_share_list(g, lists, groups, from, a, b);
    }
}

/// Two projects that depend transitively on each other stand in one list.
#[verifier::spinoff_prover]
proof fn lemma_share_list(
    g: GraphModel,
    lists: Seq<Seq<Seq<char>>>,
    groups: Seq<Seq<int>>,
    from: Seq<int>,
    a: Seq<char>,
    b: Seq<char>,
)
    requires
        g.wf(),
        a != b,
        g.depends_transitively(a, b),
        g.depends_transitively(b, a),
        reach::strong_components(g.projects.len(), g.edges, groups),
        lists == g.circles(groups),
        from.len() == lists.len(),
        forall|l: int|
            0 <= l < from.len() ==> {
                &&& 0 <= #[trigger] from[l] < groups.len()
                &&& lists[l] == g.ids_of(groups[from[l]])
            },
        forall|c: int|
            0 <= c < groups.len() && (#[trigger] groups[c]).len() > 1 ==> from.contains(c),
    ensures
        exists|l: int|
            0 <= l < lists.len() && (#[trigger] lists[l]).contains(a) && lists[l].contains(b),
{
    let (x, y) = choose|x: int, y: int| #[trigger]
        g.is_at(x, a) && #[trigger] g.is_at(y, b) && reach::reaches(g.edges, x, y);
    let (v, u) = choose|v: int, u: int| #[trigger]
        g.is_at(v, b) && #[trigger] g.is_at(u, a) && reach::reaches(g.edges, v, u);
    graph::lemma_place(g, x);
    graph::lemma_place(g, y);
    graph::lemma_place(g, u);
    graph::lemma_place(g, v);
    assert(reach::grouped(groups, x));
    assert(reach::grouped(groups, y));
    let (c, k) = choose|c: int, k: int|
        0 <= c < groups.len() && 0 <= k < groups[c].len() && #[trigger] groups[c][k] == x;
    let (d, m) = choose|d: int, m: int|
        0 <= d < groups.len() && 0 <= m < groups[d].len() && #[trigger] groups[d][m] == y;
    assert(c == d);
    assert(k != m);
    assert(groups[c].len() > 1);
    let l = choose|l: int| 0 <= l < from.len() && from[l] == c;
    assert(lists[l][k] == a);
    assert(lists[l][m] == b);
    assert(lists[l].contains(a) && lists[l].contains(b));
}

/// No project stands in two lists of circles. A list comes before those whose projects depend
/// directly on its own.
#[verifier::spinoff_prover]
pub proof fn law_circles_apart(
    g: GraphModel,
    lists: Seq<Seq<Seq<char>>>,
    l: int,
    m: int,
    a: Seq<char>,
    b: Seq<char>,
)
    requires
        g.wf(),
        g.lists_circles(lists),
        0 <= l < m < lists.len(),
        lists[l].contains(a),
        lists[m].contains(b),
    ensures
        g.has(a),
        g.has(b),
        a != b,
        !g.depends(a, b),
{
    let groups = choose|groups: Seq<Seq<int>>| #[trigger]
        reach::strong_components(g.projects.len(), g.edges, groups) && lists == g.circles(groups);
    let from = lemma_circles(g, groups);
    let i = lemma_in_circle(g, groups, from, l, a);
    let j = lemma_in_circle(g, groups, from, m, b);
    let x = groups[from[l]][i];
    let y = groups[from[m]][j];
    assert(g.is_at(x, a) && g.is_at(y, b));
    graph::lemma_place(g, x);
    graph::lemma_place(g, y);
    assert(from[l] < from[m]);
    assert(x != y);
    if g.depends(a, b) {
        let (u, v) = choose|u: int, v: int| #[trigger]
            g.is_at(u, a) && #[trigger] g.is_at(v, b) && g.edges.contains((u, v));
        graph::lemma_place(g, u);
        graph::lemma_place(g, v);
        assert(g.edges.contains((x, y)));
    }
}

/// A list of a circle holds more than one project, and none of them twice.
#[verifier::spinoff_prover]
pub proof fn law_circle_lists_each_once(g: GraphModel, lists: Seq<Seq<Seq<char>>>, l: int)
    requires
        g.wf(),
        g.lists_circles(lists),
        0 <= l < lists.len(),
    ensures
        lists[l].len() > 1,
        lists[l].no_duplicates(),
{
    let groups = choose|groups: Seq<Seq<int>>| #[trigger]
        reach::strong_components(g.projects.len(), g.edges, groups) && lists == g.circles(groups);
    let from = lemma_circles(g, groups);
    let group = groups[from[l]];
    let list = lists[l];
    assert forall|i: int, j: int|
        0 <= i < list.len() && 0 <= j < list.len() && i != j implies list[i] != list[j] by {
        let x = groups[from[l]][i];
        let y = groups[from[l]][j];
        assert(x != y);
        assert(0 <= x < g.projects.len() && 0 <= y < g.projects.len());
        if x < y {
            assert(g.projects[x].id != g.projects[y].id);
        } else {
            assert(g.projects[y].id != g.projects[x].id);
        }
    }
}

} // verus!
