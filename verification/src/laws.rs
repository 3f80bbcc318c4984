//! What holds of project graphs, whatever is in them.
use vstd::prelude::*;

use crate::graph;
use crate::graph::GraphModel;
use crate::path;
use crate::project;
use crate::project::ProjectModel;
use crate::reach;
use crate::reader;
use crate::reader::EndpointModel;
use crate::source::SourceModel;
use crate::text;

verus! {

/// The texts that a list holds already add nothing to it.
proof fn lemma_nothing_missing(list: Seq<Seq<char>>, more: Seq<Seq<char>>)
    requires
        forall|t: Seq<char>| #[trigger] more.contains(t) ==> list.contains(t),
    ensures
        project::with_missing(list, more) == list,
    decreases more.len(),
{
    if more.len() > 0 {
        let rest = more.drop_last();
        assert forall|t: Seq<char>| #[trigger] rest.contains(t) implies list.contains(t) by {
            let i = choose|i: int| 0 <= i < rest.len() && rest[i] == t;
            assert(more[i] == t);
            assert(more.contains(t));
        }
        lemma_nothing_missing(list, rest);
        assert(more[more.len() - 1] == more.last());
        assert(more.contains(more.last()));
    }
}

/// With the missing texts a list holds those of both.
proof fn lemma_with_missing(list: Seq<Seq<char>>, more: Seq<Seq<char>>)
    ensures
        forall|t: Seq<char>| #[trigger]
            project::with_missing(list, more).contains(t) <==> list.contains(t) || more.contains(t),
        list.is_prefix_of(project::with_missing(list, more)),
    decreases more.len(),
{
    let all = project::with_missing(list, more);
    if more.len() > 0 {
        let rest = more.drop_last();
        let start = project::with_missing(list, rest);
        lemma_with_missing(list, rest);
        assert forall|t: Seq<char>| #[trigger] all.contains(t) <==> list.contains(t)
            || more.contains(t) by {
            if start.contains(t) {
                let i = choose|i: int| 0 <= i < start.len() && start[i] == t;
                assert(all[i] == t);
            }
            if rest.contains(t) {
                let i = choose|i: int| 0 <= i < rest.len() && rest[i] == t;
                assert(more[i] == t);
            }
            if t == more.last() {
                assert(more[more.len() - 1] == t);
                if !start.contains(t) {
                    assert(all[start.len() as int] == t);
                }
            }
            if more.contains(t) && t != more.last() {
                let i = choose|i: int| 0 <= i < more.len() && more[i] == t;
                assert(rest[i] == t);
            }
            if all.contains(t) && !start.contains(t) {
                let i = choose|i: int| 0 <= i < all.len() && all[i] == t;
                assert(i == start.len());
            }
        }
        assert(list =~= all.subrange(0, list.len() as int)) by {
            assert forall|i: int| 0 <= i < list.len() implies list[i] == all[i] by {
                assert(list[i] == start.subrange(0, list.len() as int)[i]);
            }
        }
    } else {
        assert(list =~= all.subrange(0, list.len() as int));
        assert forall|t: Seq<char>| more.contains(t) implies list.contains(t) by {}
    }
}

/// Merging a contribution twice does no more than merging it once.
pub proof fn law_merge_idempotent(p: ProjectModel, more: ProjectModel)
    ensures
        p.merged(more).merged(more) == p.merged(more),
{
    let once = p.merged(more);
    let twice = once.merged(more);
    lemma_with_missing(p.sources, more.sources);
    lemma_nothing_missing(once.sources, more.sources);
    assert(twice.tags =~= once.tags);
    assert(twice.foreign_names =~= once.foreign_names);
}

/// Merging a contribution takes nothing away: identity, root and source stay,
/// and so do names, tags, and source globs.
pub proof fn law_merge_keeps(p: ProjectModel, more: ProjectModel)
    ensures
        p.merged(more).id == p.id,
        p.merged(more).root == p.root,
        p.merged(more).source == p.source,
        p.sources.is_prefix_of(p.merged(more).sources),
        p.tags.subset_of(p.merged(more).tags),
        forall|s: SourceModel| #[trigger]
            p.foreign_names.contains_key(s) ==> p.merged(more).foreign_names.contains_key(s)
                && p.merged(more).foreign_names[s] == p.foreign_names[s],
{
    lemma_with_missing(p.sources, more.sources);
}

/// Adding a project twice does no more than adding it once.
pub proof fn law_upsert_idempotent(g: GraphModel, p: ProjectModel)
    requires
        g.wf(),
    ensures
        g.with_project(p).with_project(p) == g.with_project(p),
{
    let once = g.with_project(p);
    let twice = once.with_project(p);
    graph::lemma_with_project(g, p);
    assert(once.has(p.id));
    let i = once.place(p.id);
    assert(once.is_at(i, p.id));
    if g.has(p.id) {
        assert(i == g.place(p.id));
        assert(g.is_at(i, p.id));
        law_merge_idempotent(g.projects[i], p);
    } else {
        graph::lemma_place(once, g.projects.len() as int);
        assert(once.projects[i] == p);
        lemma_nothing_missing(p.sources, p.sources);
        assert(p.merged(p).tags =~= p.tags);
        assert(p.merged(p).foreign_names =~= p.foreign_names);
    }
    assert(twice.projects =~= once.projects);
    assert(twice.names =~= once.names);
    assert(twice.lost =~= once.lost);
}

/// Adding a project leaves the others as they are.
pub proof fn law_upsert_keeps_others(g: GraphModel, p: ProjectModel, id: Seq<char>)
    requires
        g.wf(),
        g.has(id),
        id != p.id,
    ensures
        g.with_project(p).has(id),
        g.with_project(p).place(id) == g.place(id),
        g.with_project(p).projects[g.place(id)] == g.projects[g.place(id)],
        g.with_project(p).edges == g.edges,
{
    graph::lemma_with_project(g, p);
    let i = g.place(id);
    assert(g.is_at(i, id));
    if g.has(p.id) {
        assert(g.is_at(g.place(p.id), p.id));
    }
}

/// A name that a project lost leads to another project, and both are in the
/// graph.
pub proof fn law_lost_names_lead_elsewhere(
    g: GraphModel,
    c: (SourceModel, Seq<char>, Seq<char>),
)
    requires
        g.wf(),
        g.lost.contains(c),
    ensures
        g.has(c.2),
        g.resolve(EndpointModel::ForeignName { source: c.0, name: c.1 }) is Some,
        g.resolve(EndpointModel::ForeignName { source: c.0, name: c.1 }) != Some(c.2),
        g.has(g.resolve(EndpointModel::ForeignName { source: c.0, name: c.1 })->0),
{
    graph::lemma_lost(g, c);
    graph::lemma_named(g, (c.0, c.1));
}

/// The project has the name in the namespace of the source.
pub open spec fn holds(p: ProjectModel, source: SourceModel, name: Seq<char>) -> bool {
    p.foreign_names.contains_key(source) && p.foreign_names[source] == name
}

/// Some project of the list has the name in the namespace of the source.
pub open spec fn is_held(list: Seq<ProjectModel>, source: SourceModel, name: Seq<char>) -> bool {
    exists|i: int| 0 <= i < list.len() && holds(#[trigger] list[i], source, name)
}

/// The project at place `i` is the last one that has the name.
pub open spec fn is_last_holder(
    list: Seq<ProjectModel>,
    source: SourceModel,
    name: Seq<char>,
    i: int,
) -> bool {
    &&& 0 <= i < list.len()
    &&& holds(list[i], source, name)
    &&& forall|j: int| i < j < list.len() ==> !holds(#[trigger] list[j], source, name)
}

/// The names of a source are those that projects have in it, and each leads to
/// the last project that has it.
pub proof fn law_names_lead_to_last_holder(
    list: Seq<ProjectModel>,
    source: SourceModel,
    name: Seq<char>,
)
    ensures
        ({
            let names = reader::names_in(list, source);
            &&& names.contains_key(name) <==> is_held(list, source, name)
            &&& names.contains_key(name) ==> exists|i: int| #[trigger]
                is_last_holder(list, source, name, i) && list[i].id == names[name]
        }),
    decreases list.len(),
{
    if list.len() > 0 {
        let rest = list.drop_last();
        let last = list.len() - 1;
        let names = reader::names_in(list, source);
        let before = reader::names_in(rest, source);
        law_names_lead_to_last_holder(rest, source, name);
        if holds(list[last], source, name) {
            assert(is_last_holder(list, source, name, last));
        } else {
            assert(names.contains_key(name) <==> before.contains_key(name));
            if is_held(rest, source, name) {
                let i = choose|i: int|
                    0 <= i < rest.len() && holds(#[trigger] rest[i], source, name);
                assert(holds(list[i], source, name));
            }
            if is_held(list, source, name) {
                let i = choose|i: int|
                    0 <= i < list.len() && holds(#[trigger] list[i], source, name);
                assert(holds(rest[i], source, name));
            }
            if before.contains_key(name) {
                let i = choose|i: int| #[trigger]
                    is_last_holder(rest, source, name, i) && rest[i].id == before[name];
                assert(list[i] == rest[i]);
                assert forall|j: int| i < j < list.len() implies !holds(
                    #[trigger] list[j],
                    source,
                    name,
                ) by {
                    if j < rest.len() {
                        assert(list[j] == rest[j]);
                    }
                }
                assert(is_last_holder(list, source, name, i));
            }
        }
    }
}

/// A name that no project lost leads to the same project, whether it is looked
/// up among the names of its source or resolved.
pub proof fn law_names_agree(g: GraphModel, source: SourceModel, name: Seq<char>)
    requires
        g.wf(),
        forall|id: Seq<char>| !#[trigger] g.lost.contains((source, name, id)),
        reader::names_in(g.projects, source).contains_key(name),
    ensures
        g.resolve(EndpointModel::ForeignName { source, name }) == Some(
            reader::names_in(g.projects, source)[name],
        ),
{
    law_names_lead_to_last_holder(g.projects, source, name);
    let i = choose|i: int| #[trigger]
        is_last_holder(g.projects, source, name, i) && g.projects[i].id == reader::names_in(
            g.projects,
            source,
        )[name];
    graph::lemma_held(g, i, source);
    assert(!g.lost.contains((source, name, g.projects[i].id)));
}

/// No two projects have the same name in the namespace of the source.
pub open spec fn unshared(list: Seq<ProjectModel>, source: SourceModel) -> bool {
    forall|i: int, j: int|
        0 <= i < j < list.len() && #[trigger] list[i].foreign_names.contains_key(source)
            && #[trigger] list[j].foreign_names.contains_key(source)
            ==> list[i].foreign_names[source] != list[j].foreign_names[source]
}

/// Where no two projects share a name of a source, a name that the project it
/// leads to still has is looked up and resolved to that project. The project
/// that a name leads to does not have it where it claimed the name second to
/// another one of the same source.
pub proof fn law_unshared_names_agree(g: GraphModel, source: SourceModel, name: Seq<char>)
    requires
        g.wf(),
        unshared(g.projects, source),
        reader::names_in(g.projects, source).contains_key(name),
        holds(g.projects[g.place(g.names[(source, name)])], source, name),
    ensures
        g.resolve(EndpointModel::ForeignName { source, name }) == Some(
            reader::names_in(g.projects, source)[name],
        ),
{
    law_names_lead_to_last_holder(g.projects, source, name);
    let i = choose|i: int| #[trigger]
        is_last_holder(g.projects, source, name, i) && g.projects[i].id == reader::names_in(
            g.projects,
            source,
        )[name];
    let id = g.names[(source, name)];
    graph::lemma_held(g, i, source);
    graph::lemma_named(g, (source, name));
    let k = g.place(id);
    assert(g.is_at(k, id));
    if i < k {
        assert(!holds(g.projects[k], source, name));
    } else if k < i {
        assert(g.projects[k].foreign_names.contains_key(source));
        assert(g.projects[i].foreign_names.contains_key(source));
    }
}

/// A name that is registered keeps leading to the same project, whoever claims
/// it later.
pub proof fn law_first_name_wins(g: GraphModel, p: ProjectModel, key: (SourceModel, Seq<char>))
    requires
        g.names.contains_key(key),
    ensures
        g.with_project(p).names.contains_key(key),
        g.with_project(p).names[key] == g.names[key],
{
}

/// Every name of a project that is added leads somewhere afterwards: to that
/// project, unless another one had it.
pub proof fn law_names_registered(g: GraphModel, p: ProjectModel, s: SourceModel)
    requires
        p.foreign_names.contains_key(s),
    ensures
        ({
            let key = (s, p.foreign_names[s]);
            &&& g.with_project(p).names.contains_key(key)
            &&& !g.names.contains_key(key) ==> g.with_project(p).names[key] == p.id
        }),
{
}

/// An edge with an end that is no project, or from a project to itself,
/// changes nothing.
pub proof fn law_missing_edge_dropped(g: GraphModel, from: Seq<char>, to: Seq<char>)
    requires
        !g.has(from) || !g.has(to) || from == to,
    ensures
        g.with_edge(from, to) == g,
{
}

/// Adding an edge twice does no more than adding it once.
pub proof fn law_edge_idempotent(g: GraphModel, from: Seq<char>, to: Seq<char>)
    requires
        g.wf(),
    ensures
        g.with_edge(from, to).with_edge(from, to) == g.with_edge(from, to),
{
    let once = g.with_edge(from, to);
    if once != g {
        let edge = (g.place(from), g.place(to));
        graph::lemma_with_edge(g, from, to);
        assert(g.is_at(edge.0, from));
        assert(g.is_at(edge.1, to));
        graph::lemma_place(once, edge.0);
        graph::lemma_place(once, edge.1);
        assert(once.edges[once.edges.len() - 1] == edge);
        assert(once.edges.contains(edge));
    }
}

/// After adding an edge, projects depend on each other as before, and besides
/// `from` on `to`, where both are different projects.
pub proof fn law_edge_adds_dependency(
    g: GraphModel,
    from: Seq<char>,
    to: Seq<char>,
    a: Seq<char>,
    b: Seq<char>,
)
    requires
        g.wf(),
    ensures
        g.with_edge(from, to).depends(a, b) <==> g.depends(a, b) || (a == from && b == to && g.has(
            from,
        ) && g.has(to) && from != to),
{
    let h = g.with_edge(from, to);
    let edge = (g.place(from), g.place(to));
    if h.depends(a, b) {
        let (i, j) = choose|i: int, j: int| #[trigger]
            h.is_at(i, a) && #[trigger] h.is_at(j, b) && h.edges.contains((i, j));
        assert(g.is_at(i, a) && g.is_at(j, b));
        if !g.edges.contains((i, j)) {
            let k = choose|k: int| 0 <= k < h.edges.len() && h.edges[k] == (i, j);
            if k < g.edges.len() {
                assert(g.edges[k] == (i, j));
            }
            assert((i, j) == edge);
            assert(g.is_at(g.place(from), from));
            assert(g.is_at(g.place(to), to));
        }
    }
    if g.depends(a, b) {
        let (i, j) = choose|i: int, j: int| #[trigger]
            g.is_at(i, a) && #[trigger] g.is_at(j, b) && g.edges.contains((i, j));
        let k = choose|k: int| 0 <= k < g.edges.len() && g.edges[k] == (i, j);
        assert(h.edges[k] == (i, j));
        assert(h.is_at(i, a) && h.is_at(j, b));
    }
    if g.has(from) && g.has(to) && from != to {
        assert(g.is_at(g.place(from), from));
        assert(g.is_at(g.place(to), to));
        assert(h.is_at(g.place(from), from));
        assert(h.is_at(g.place(to), to));
        if h != g {
            assert(h.edges[g.edges.len() as int] == edge);
        }
        assert(h.edges.contains(edge));
    }
}

/// The dependents of seeds are projects, and every seed that is a project is
/// among them.
#[verifier::spinoff_prover]
pub proof fn law_dependents_include_seeds(g: GraphModel, seeds: Set<Seq<char>>)
    ensures
        g.dependents(seeds).subset_of(g.ids()),
        seeds.intersect(g.ids()).subset_of(g.dependents(seeds)),
{
    assert forall|id: Seq<char>| g.dependents(seeds).contains(id) implies g.ids().contains(id) by {
        let seed = choose|seed: Seq<char>| #[trigger]
            seeds.contains(seed) && g.depends_transitively(id, seed);
        let (i, j) = choose|i: int, j: int| #[trigger]
            g.is_at(i, id) && #[trigger] g.is_at(j, seed) && reach::reaches(g.edges, i, j);
        assert(g.is_at(i, id));
    }
    assert forall|id: Seq<char>| seeds.intersect(g.ids()).contains(id) implies g.dependents(
        seeds,
    ).contains(id) by {
        let i = g.place(id);
        assert(g.is_at(i, id));
        reach::lemma_reaches_self(g.edges, i);
        assert(g.depends_transitively(id, id));
        assert(seeds.contains(id));
    }
}

/// Whatever depends on a dependent is a dependent too.
#[verifier::spinoff_prover]
pub proof fn law_dependents_closed(
    g: GraphModel,
    seeds: Set<Seq<char>>,
    id: Seq<char>,
    on: Seq<char>,
)
    requires
        g.wf(),
        g.dependents(seeds).contains(on),
        g.depends(id, on),
    ensures
        g.dependents(seeds).contains(id),
{
    let seed = choose|seed: Seq<char>| #[trigger]
        seeds.contains(seed) && g.depends_transitively(on, seed);
    let (i, j) = choose|i: int, j: int| #[trigger]
        g.is_at(i, on) && #[trigger] g.is_at(j, seed) && reach::reaches(g.edges, i, j);
    let (a, b) = choose|a: int, b: int| #[trigger]
        g.is_at(a, id) && #[trigger] g.is_at(b, on) && g.edges.contains((a, b));
    graph::lemma_place(g, i);
    graph::lemma_place(g, b);
    assert(b == i);
    reach::lemma_reaches_step(g.edges, a, i, j);
    assert(g.depends_transitively(id, seed));
}

/// A set that holds with a project whatever depends on it holds whatever leads to
/// one of its projects.
#[verifier::spinoff_prover]
proof fn lemma_leads_inside(g: GraphModel, closed_set: Set<Seq<char>>, i: int, j: int)
    requires
        g.wf(),
        0 <= i < g.projects.len(),
        0 <= j < g.projects.len(),
        closed_set.contains(g.projects[j].id),
        reach::reaches(g.edges, i, j),
        forall|a: Seq<char>, b: Seq<char>| #[trigger]
            g.depends(a, b) && closed_set.contains(b) ==> closed_set.contains(a),
    ensures
        closed_set.contains(g.projects[i].id),
{
    let inside = Set::new(
        |x: int| 0 <= x < g.projects.len() && closed_set.contains(g.projects[x].id),
    );
    assert(inside.contains(j));
    assert forall|y: int, z: int| #[trigger]
        g.edges.contains((y, z)) && inside.contains(z) implies inside.contains(y) by {
        let e = choose|e: int| 0 <= e < g.edges.len() && g.edges[e] == (y, z);
        assert(0 <= g.edges[e].0 < g.projects.len());
        assert(g.is_at(y, g.projects[y].id));
        assert(g.is_at(z, g.projects[z].id));
        assert(g.depends(g.projects[y].id, g.projects[z].id));
    }
    let walk = choose|walk: Seq<int>| reach::leads(g.edges, walk, i, j);
    reach::lemma_closed_backwards(g.edges, inside, walk, i, j);
}

/// The dependents are the fewest: a set that holds the seeds, and with a
/// project whatever depends on it, holds all of them.
#[verifier::spinoff_prover]
pub proof fn law_dependents_least(
    g: GraphModel,
    seeds: Set<Seq<char>>,
    closed_set: Set<Seq<char>>,
)
    requires
        g.wf(),
        seeds.intersect(g.ids()).subset_of(closed_set),
        forall|a: Seq<char>, b: Seq<char>| #[trigger]
            g.depends(a, b) && closed_set.contains(b) ==> closed_set.contains(a),
    ensures
        g.dependents(seeds).subset_of(closed_set),
{
    assert forall|id: Seq<char>| g.dependents(seeds).contains(id) implies closed_set.contains(
        id,
    ) by {
        let seed = choose|seed: Seq<char>| #[trigger]
            seeds.contains(seed) && g.depends_transitively(id, seed);
        let (i, j) = choose|i: int, j: int| #[trigger]
            g.is_at(i, id) && #[trigger] g.is_at(j, seed) && reach::reaches(g.edges, i, j);
        assert(g.is_at(j, seed));
        assert(seeds.intersect(g.ids()).contains(seed));
        lemma_leads_inside(g, closed_set, i, j);
    }
}

/// Another edge takes no dependents away.
#[verifier::spinoff_prover]
pub proof fn law_edge_grows_dependents(
    g: GraphModel,
    from: Seq<char>,
    to: Seq<char>,
    seeds: Set<Seq<char>>,
)
    ensures
        g.dependents(seeds).subset_of(g.with_edge(from, to).dependents(seeds)),
{
    let h = g.with_edge(from, to);
    assert forall|id: Seq<char>| g.dependents(seeds).contains(id) implies h.dependents(
        seeds,
    ).contains(id) by {
        let seed = choose|seed: Seq<char>| #[trigger]
            seeds.contains(seed) && g.depends_transitively(id, seed);
        let (i, j) = choose|i: int, j: int| #[trigger]
            g.is_at(i, id) && #[trigger] g.is_at(j, seed) && reach::reaches(g.edges, i, j);
        assert forall|e: (int, int)| #[trigger] g.edges.contains(e) implies h.edges.contains(e) by {
            let k = choose|k: int| 0 <= k < g.edges.len() && g.edges[k] == e;
            assert(h.edges[k] == e);
        }
        reach::lemma_reaches_monotone(g.edges, h.edges, i, j);
        assert(h.is_at(i, id) && h.is_at(j, seed));
        assert(h.depends_transitively(id, seed));
    }
}

/// The dependents of two sets of seeds are those of the one and those of the
/// other.
#[verifier::spinoff_prover]
pub proof fn law_dependents_union(g: GraphModel, a: Set<Seq<char>>, b: Set<Seq<char>>)
    ensures
        g.dependents(a.union(b)) == g.dependents(a).union(g.dependents(b)),
{
    assert forall|id: Seq<char>| #[trigger]
        g.dependents(a.union(b)).contains(id) <==> g.dependents(a).union(
            g.dependents(b),
        ).contains(id) by {
        if g.dependents(a.union(b)).contains(id) {
            let seed = choose|seed: Seq<char>| #[trigger]
                a.union(b).contains(seed) && g.depends_transitively(id, seed);
            assert(a.contains(seed) || b.contains(seed));
        }
        if g.dependents(a).contains(id) {
            let seed = choose|seed: Seq<char>| #[trigger]
                a.contains(seed) && g.depends_transitively(id, seed);
            assert(a.union(b).contains(seed));
        }
        if g.dependents(b).contains(id) {
            let seed = choose|seed: Seq<char>| #[trigger]
                b.contains(seed) && g.depends_transitively(id, seed);
            assert(a.union(b).contains(seed));
        }
    }
    assert(g.dependents(a.union(b)) =~= g.dependents(a).union(g.dependents(b)));
}

/// The dependents of dependents are dependents already.
#[verifier::spinoff_prover]
pub proof fn law_dependents_idempotent(g: GraphModel, seeds: Set<Seq<char>>)
    requires
        g.wf(),
    ensures
        g.dependents(g.dependents(seeds)) == g.dependents(seeds),
{
    let once = g.dependents(seeds);
    law_dependents_include_seeds(g, seeds);
    law_dependents_include_seeds(g, once);
    assert forall|a: Seq<char>, b: Seq<char>| #[trigger]
        g.depends(a, b) && once.contains(b) implies once.contains(a) by {
        law_dependents_closed(g, seeds, a, b);
    }
    law_dependents_least(g, once, once);
    assert(g.dependents(once) =~= once);
}

/// What a change affects holds the projects that changed.
pub proof fn law_affected_include_changed(g: GraphModel, files: Set<Seq<char>>)
    ensures
        g.changed(files).subset_of(g.dependents(g.changed(files))),
{
    law_dependents_include_seeds(g, g.changed(files));
    assert forall|id: Seq<char>| g.changed(files).contains(id) implies g.ids().contains(id) by {
        let (file, i) = choose|file: Seq<char>, i: int| #[trigger]
            files.contains(file) && #[trigger] g.is_at(i, id) && g.owns(i, file);
        assert(g.is_at(i, id));
    }
}

/// What more files affect holds what fewer of them affect.
pub proof fn law_affected_monotone(g: GraphModel, few: Set<Seq<char>>, many: Set<Seq<char>>)
    requires
        few.subset_of(many),
    ensures
        g.dependents(g.changed(few)).subset_of(g.dependents(g.changed(many))),
{
    assert(few.union(many) =~= many);
    crate::changed::law_changed_union(g, few, many);
    law_dependents_union(g, g.changed(few), g.changed(many));
    assert(g.changed(few).union(g.changed(many)) == g.changed(many));
}

/// A file may be given from the monorepo root or in full: it belongs to the
/// same project.
pub proof fn law_file_forms(g: GraphModel, file: Seq<char>, i: int)
    requires
        path::absolute(g.root),
    ensures
        g.owns(i, path::joined(g.root, file)) <==> g.owns(i, file),
{
    let full = path::joined(g.root, file);
    assert(full[0] == '/');
    assert(path::joined(g.root, full) == full);
    assert forall|j: int| 0 <= j < g.projects.len() implies (#[trigger] g.projects[j]).claims(
        g.root,
        full,
    ) == g.projects[j].claims(g.root, file) by {}
}

/// A file that some project claims belongs to a project.
pub proof fn law_claimed_has_owner(g: GraphModel, file: Seq<char>, i: int)
    requires
        0 <= i < g.projects.len(),
        g.projects[i].claims(g.root, file),
    ensures
        exists|o: int| g.owns(o, file),
{
    let best = lemma_best_claim(g, file, g.projects.len() as int, i);
    assert(g.owns(best, file));
}

/// Of the first `n` projects, one that claims the file with the deepest root,
/// and the first of those.
proof fn lemma_best_claim(g: GraphModel, file: Seq<char>, n: int, i: int) -> (best: int)
    requires
        0 <= i < n <= g.projects.len(),
        g.projects[i].claims(g.root, file),
    ensures
        0 <= best < n,
        g.projects[best].claims(g.root, file),
        forall|j: int|
            0 <= j < n && (#[trigger] g.projects[j]).claims(g.root, file) ==> {
                &&& g.projects[j].depth(g.root) <= g.projects[best].depth(g.root)
                &&& j < best ==> g.projects[j].depth(g.root) < g.projects[best].depth(g.root)
            },
    decreases n,
{
    let last = n - 1;
    if exists|k: int| 0 <= k < last && (#[trigger] g.projects[k]).claims(g.root, file) {
        let k = choose|k: int| 0 <= k < last && (#[trigger] g.projects[k]).claims(g.root, file);
        let best = lemma_best_claim(g, file, last, k);
        if g.projects[last].claims(g.root, file) && g.projects[last].depth(g.root)
            > g.projects[best].depth(g.root) {
            last
        } else {
            best
        }
    } else {
        last
    }
}

/// An id begins with `//`, and with no third separator.
pub proof fn law_id_begins(root: Seq<char>, dir: Seq<char>)
    ensures
        text::begins_with(project::id_of_path(root, dir), seq!['/', '/']),
        project::id_of_path(root, dir).len() > 2 ==> project::id_of_path(root, dir)[2] != '/',
{
    let rel = match path::relative(dir, root) {
        Some(rel) => rel,
        None => dir,
    };
    lemma_no_leading_slash(rel);
    let id = project::id_of_path(root, dir);
    assert(id.take(2) =~= seq!['/', '/']);
}

proof fn lemma_no_leading_slash(s: Seq<char>)
    ensures
        project::without_leading_slashes(s).len() > 0 ==> project::without_leading_slashes(s)[0]
            != '/',
        s.len() > 0 && s[0] != '/' ==> project::without_leading_slashes(s) == s,
        s.len() == 0 ==> project::without_leading_slashes(s) == s,
    decreases s.len(),
{
    if s.len() > 0 && s[0] == '/' {
        lemma_no_leading_slash(s.drop_first());
    }
}

/// The id of a directory below the root is `//` and the names of its components
/// with `/` between them.
pub proof fn law_id_of_joined(root: Seq<char>, names: Seq<Seq<char>>)
    requires
        names.len() > 0,
        forall|i: int| 0 <= i < names.len() ==> path::is_name(#[trigger] names[i]),
    ensures
        project::id_of_path(root, path::joined(root, path::slashed(names))) == seq!['/', '/']
            + path::slashed(names),
{
    let rel = path::slashed(names);
    path::lemma_slashed(names);
    path::lemma_spans(rel, 0);
    assert(rel[path::spans(rel, 0)[0].0] != '/');
    path::law_joined_relative(root, rel);
    lemma_no_leading_slash(rel);
}

/// Two directories below the root have the same id just where they have the
/// same components.
pub proof fn law_ids_of_joined(root: Seq<char>, a: Seq<Seq<char>>, b: Seq<Seq<char>>)
    requires
        a.len() > 0,
        b.len() > 0,
        forall|i: int| 0 <= i < a.len() ==> path::is_name(#[trigger] a[i]),
        forall|i: int| 0 <= i < b.len() ==> path::is_name(#[trigger] b[i]),
    ensures
        project::id_of_path(root, path::joined(root, path::slashed(a))) == project::id_of_path(
            root,
            path::joined(root, path::slashed(b)),
        ) <==> a == b,
{
    law_id_of_joined(root, a);
    law_id_of_joined(root, b);
    let x = path::slashed(a);
    let y = path::slashed(b);
    let p = seq!['/', '/'] + x;
    let q = seq!['/', '/'] + y;
    if p == q {
        assert(x =~= p.skip(2));
        assert(y =~= q.skip(2));
        path::lemma_slashed(a);
        path::lemma_slashed(b);
        let all = path::spans(x, 0);
        assert forall|i: int| 0 <= i < a.len() implies a[i] == b[i] by {
            assert(x.subrange(all[i].0, all[i].1) == a[i]);
        }
        assert(a =~= b);
    }
}

/// Below a monorepo root, directories with the same id are the same place.
pub proof fn law_id_names_one_place(root: Seq<char>, a: Seq<char>, b: Seq<char>)
    requires
        path::parts(root).len() > 0,
        path::relative(a, root) is Some,
        path::relative(b, root) is Some,
        project::id_of_path(root, a) == project::id_of_path(root, b),
    ensures
        path::parts(a) == path::parts(b),
{
    let x = path::relative(a, root)->0;
    let y = path::relative(b, root)->0;
    lemma_plain_remainder(a, root);
    lemma_plain_remainder(b, root);
    lemma_no_leading_slash(x);
    lemma_no_leading_slash(y);
    let p = project::id_of_path(root, a);
    let q = project::id_of_path(root, b);
    assert(p.skip(2) =~= x);
    assert(q.skip(2) =~= y);
    path::law_relative_joined(a, root);
    path::law_relative_joined(b, root);
}

/// What is left of a path below a root is empty or begins with a name.
proof fn lemma_plain_remainder(s: Seq<char>, root: Seq<char>)
    requires
        path::parts(root).len() > 0,
        path::relative(s, root) is Some,
    ensures
        ({
            let rel = path::relative(s, root)->0;
            &&& rel.len() > 0 ==> rel[0] != '/'
            &&& rel != seq!['.']
        }),
{
    let n = path::parts(root).len() as int;
    let rel = path::relative(s, root)->0;
    let all = path::spans(s, 0);
    path::lemma_spans(s, 0);
    let first = n - path::lead(s).len();
    if first < all.len() {
        assert(path::parts(root).is_prefix_of(path::parts(s)));
        assert(0 <= first);
        assert(rel =~= s.subrange(all[first].0, all.last().1));
        assert(all[first].0 < all[first].1);
        assert(rel[0] == s[all[first].0]);
        if rel == seq!['.'] {
            assert(rel.len() == 1);
            assert(!path::blank(s, all[first].0, all[first].1));
        }
    } else {
        assert(rel.len() == 0);
    }
}

/// A merged project holds what either of the two brought and nothing else: every
/// source glob and every tag, and of each source the name that was there first.
pub proof fn law_merge_brings(
    p: ProjectModel,
    more: ProjectModel,
    t: Seq<char>,
    s: SourceModel,
)
    ensures
        ({
            let m = p.merged(more);
            &&& m.sources.contains(t) <==> p.sources.contains(t) || more.sources.contains(t)
            &&& m.tags.contains(t) <==> p.tags.contains(t) || more.tags.contains(t)
            &&& m.foreign_names.contains_key(s) <==> p.foreign_names.contains_key(s)
                || more.foreign_names.contains_key(s)
            &&& p.foreign_names.contains_key(s) ==> m.foreign_names[s] == p.foreign_names[s]
            &&& !p.foreign_names.contains_key(s) && more.foreign_names.contains_key(s)
                ==> m.foreign_names[s] == more.foreign_names[s]
        }),
{
    lemma_with_missing(p.sources, more.sources);
}

/// Source globs that are new, and each only once, come behind those that were
/// there, in their own order.
pub proof fn law_merge_appends(p: ProjectModel, more: ProjectModel)
    requires
        more.sources.no_duplicates(),
        forall|t: Seq<char>| #[trigger] more.sources.contains(t) ==> !p.sources.contains(t),
    ensures
        p.merged(more).sources == p.sources + more.sources,
{
    lemma_all_missing(p.sources, more.sources);
}

/// Texts that a list lacks, each once, come behind it in their order.
proof fn lemma_all_missing(list: Seq<Seq<char>>, more: Seq<Seq<char>>)
    requires
        more.no_duplicates(),
        forall|t: Seq<char>| #[trigger] more.contains(t) ==> !list.contains(t),
    ensures
        project::with_missing(list, more) == list + more,
    decreases more.len(),
{
    if more.len() == 0 {
        assert(list + more =~= list);
    } else {
        let rest = more.drop_last();
        assert forall|t: Seq<char>| #[trigger] rest.contains(t) implies !list.contains(t) by {
            let i = choose|i: int| 0 <= i < rest.len() && rest[i] == t;
            assert(more[i] == t);
            assert(more.contains(t));
        }
        lemma_all_missing(list, rest);
        let start = list + rest;
        assert(more.contains(more[more.len() - 1]));
        assert(!start.contains(more.last())) by {
            if start.contains(more.last()) {
                let i = choose|i: int| 0 <= i < start.len() && start[i] == more.last();
                if i < list.len() {
                    assert(list[i] == more.last());
                    assert(list.contains(more.last()));
                } else {
                    assert(more[i - list.len()] == more[more.len() - 1]);
                }
            }
        }
        assert(list + more =~= start.push(more.last()));
    }
}

/// Merging makes no source glob occur twice.
pub proof fn law_merge_without_repetition(p: ProjectModel, more: ProjectModel)
    requires
        p.sources.no_duplicates(),
    ensures
        p.merged(more).sources.no_duplicates(),
{
    lemma_missing_once(p.sources, more.sources);
}

proof fn lemma_missing_once(list: Seq<Seq<char>>, more: Seq<Seq<char>>)
    requires
        list.no_duplicates(),
    ensures
        project::with_missing(list, more).no_duplicates(),
    decreases more.len(),
{
    if more.len() > 0 {
        lemma_missing_once(list, more.drop_last());
        let start = project::with_missing(list, more.drop_last());
        let last = more.last();
        if !start.contains(last) {
            let all = start.push(last);
            assert forall|i: int, j: int|
                0 <= i < all.len() && 0 <= j < all.len() && i != j implies all[i] != all[j] by {
                if i == start.len() {
                    assert(start.contains(start[j]));
                } else if j == start.len() {
                    assert(start.contains(start[i]));
                }
            }
        }
    }
}

/// After a project is added, the graph has its id, and the project with that id
/// holds all that was brought, whether it was there before or not: every source
/// glob, every tag, and a name for every source that has one. What it held
/// before, it holds still.
pub proof fn law_upsert_brings(g: GraphModel, p: ProjectModel, t: Seq<char>, s: SourceModel)
    requires
        g.wf(),
    ensures
        ({
            let h = g.with_project(p);
            let q = h.projects[h.place(p.id)];
            let before = g.projects[g.place(p.id)];
            &&& h.has(p.id)
            &&& q.id == p.id
            &&& p.sources.contains(t) ==> q.sources.contains(t)
            &&& p.tags.contains(t) ==> q.tags.contains(t)
            &&& p.foreign_names.contains_key(s) ==> q.foreign_names.contains_key(s)
            &&& g.has(p.id) ==> {
                &&& h.place(p.id) == g.place(p.id)
                &&& h.projects.len() == g.projects.len()
                &&& q.root == before.root && q.source == before.source
                &&& q.sources.contains(t) <==> before.sources.contains(t) || p.sources.contains(t)
                &&& q.tags.contains(t) <==> before.tags.contains(t) || p.tags.contains(t)
                &&& before.foreign_names.contains_key(s) ==> q.foreign_names.contains_key(s)
                    && q.foreign_names[s] == before.foreign_names[s]
                &&& !before.foreign_names.contains_key(s) ==> (q.foreign_names.contains_key(s)
                    <==> p.foreign_names.contains_key(s))
                &&& !before.foreign_names.contains_key(s) && p.foreign_names.contains_key(s)
                    ==> q.foreign_names[s] == p.foreign_names[s]
            }
            &&& !g.has(p.id) ==> {
                &&& q == p
                &&& h.place(p.id) == g.projects.len()
                &&& h.projects.len() == g.projects.len() + 1
            }
        }),
{
    graph::lemma_with_project(g, p);
    let h = g.with_project(p);
    if g.has(p.id) {
        let i = g.place(p.id);
        assert(g.is_at(i, p.id));
        law_merge_brings(g.projects[i], p, t, s);
        law_merge_keeps(g.projects[i], p);
    } else {
        graph::lemma_place(h, g.projects.len() as int);
    }
}

/// Adding a project registers its own names and no others, and notes those of
/// them that lead to another project and no others.
pub proof fn law_upsert_names(
    g: GraphModel,
    p: ProjectModel,
    s: SourceModel,
    name: Seq<char>,
    id: Seq<char>,
)
    ensures
        ({
            let h = g.with_project(p);
            let own = p.foreign_names.contains_key(s) && p.foreign_names[s] == name;
            &&& h.names.contains_key((s, name)) <==> g.names.contains_key((s, name)) || own
            &&& g.names.contains_key((s, name)) ==> h.names[(s, name)] == g.names[(s, name)]
            &&& own && !g.names.contains_key((s, name)) ==> h.names[(s, name)] == p.id
            &&& h.lost.contains((s, name, id)) <==> g.lost.contains((s, name, id)) || (own && id
                == p.id && g.names.contains_key((s, name)) && g.names[(s, name)] != p.id)
        }),
{
}

/// An id leads to the project that has it, a name to the project that it is
/// registered for, and a path below the monorepo root to the project with the id
/// of that path.
pub proof fn law_resolve(g: GraphModel, end: EndpointModel, id: Seq<char>)
    requires
        g.wf(),
    ensures
        g.resolve(end) == Some(id) <==> match end {
            EndpointModel::Id(given) => given == id && exists|i: int|
                0 <= i < g.projects.len() && (#[trigger] g.projects[i]).id == id,
            EndpointModel::Path(dir) => {
                &&& path::parts(g.root).is_prefix_of(path::parts(dir))
                &&& id == project::id_of_path(g.root, dir)
                &&& exists|i: int|
                    0 <= i < g.projects.len() && (#[trigger] g.projects[i]).id == id
            },
            EndpointModel::ForeignName { source, name } => {
                &&& g.names.contains_key((source, name))
                &&& g.names[(source, name)] == id
            },
        },
{
    if g.has(id) {
        assert(g.is_at(g.place(id), id));
    }
    if exists|i: int| 0 <= i < g.projects.len() && (#[trigger] g.projects[i]).id == id {
        let i = choose|i: int| 0 <= i < g.projects.len() && (#[trigger] g.projects[i]).id == id;
        assert(g.is_at(i, id));
    }
    if let EndpointModel::Path(dir) = end {
        path::law_relative(dir, g.root);
    }
}

/// The projects of a source are those that it contributed first, all of them.
pub proof fn law_of_source(g: GraphModel, source: SourceModel, p: ProjectModel)
    ensures
        g.of_source(source).contains(p) <==> g.projects.contains(p) && p.source == source,
{
    let keep = |p: ProjectModel| p.source == source;
    if g.of_source(source).contains(p) {
        g.projects.lemma_filter_contains_rev(keep, p);
        let i = choose|i: int|
            0 <= i < g.projects.filter(keep).len() && g.projects.filter(keep)[i] == p;
        g.projects.lemma_filter_pred(keep, i);
    }
    if g.projects.contains(p) && p.source == source {
        let i = choose|i: int| 0 <= i < g.projects.len() && g.projects[i] == p;
        g.projects.lemma_filter_contains(keep, i);
    }
}

/// A project depends on another directly where there is an edge between them, and
/// transitively where it is the other, or depends directly on a project that
/// does.
#[verifier::spinoff_prover]
pub proof fn law_depends_transitively(g: GraphModel, from: Seq<char>, to: Seq<char>)
    requires
        g.wf(),
    ensures
        g.depends_transitively(from, to) <==> (from == to && g.has(to)) || exists|via: Seq<char>|
            #[trigger]
            g.depends(from, via) && g.depends_transitively(via, to),
{
    if g.depends_transitively(from, to) {
        let (i, j) = choose|i: int, j: int| #[trigger]
            g.is_at(i, from) && #[trigger] g.is_at(j, to) && reach::reaches(g.edges, i, j);
        let walk = choose|walk: Seq<int>| reach::leads(g.edges, walk, i, j);
        if walk.len() > 1 {
            let rest = walk.drop_first();
            assert forall|n: int| 0 <= n < rest.len() - 1 implies g.edges.contains(
                (#[trigger] rest[n], rest[n + 1]),
            ) by {
                assert(g.edges.contains((walk[n + 1], walk[n + 2])));
            }
            assert(reach::leads(g.edges, rest, walk[1], j));
            assert(g.edges.contains((walk[0], walk[1])));
            let e = choose|e: int| 0 <= e < g.edges.len() && g.edges[e] == (walk[0], walk[1]);
            assert(0 <= g.edges[e].1 < g.projects.len());
            let via = g.projects[walk[1]].id;
            assert(g.is_at(walk[1], via));
            assert(g.depends(from, via));
            assert(g.depends_transitively(via, to));
        }
    }
    if from == to && g.has(to) {
        let i = g.place(to);
        assert(g.is_at(i, to));
        reach::lemma_reaches_self(g.edges, i);
    }
    if exists|via: Seq<char>| #[trigger]
        g.depends(from, via) && g.depends_transitively(via, to) {
        let via = choose|via: Seq<char>| #[trigger]
            g.depends(from, via) && g.depends_transitively(via, to);
        let (a, b) = choose|a: int, b: int| #[trigger]
            g.is_at(a, from) && #[trigger] g.is_at(b, via) && g.edges.contains((a, b));
        let (i, j) = choose|i: int, j: int| #[trigger]
            g.is_at(i, via) && #[trigger] g.is_at(j, to) && reach::reaches(g.edges, i, j);
        graph::lemma_place(g, i);
        graph::lemma_place(g, b);
        reach::lemma_reaches_step(g.edges, a, i, j);
    }
}

/// A dependent of seeds is a project that depends transitively on one of them.
#[verifier::spinoff_prover]
pub proof fn law_dependents(g: GraphModel, seeds: Set<Seq<char>>, id: Seq<char>)
    ensures
        g.dependents(seeds).contains(id) <==> exists|seed: Seq<char>| #[trigger]
            seeds.contains(seed) && g.depends_transitively(id, seed),
{
}

/// The id of a directory below a monorepo root is `//` and the path of the
/// directory from there: the components of the root and after them those of that
/// path are the components of the directory.
pub proof fn law_id_is_path_below_root(root: Seq<char>, dir: Seq<char>)
    requires
        path::parts(root).len() > 0,
        path::parts(root).is_prefix_of(path::parts(dir)),
    ensures
        project::id_of_path(root, dir).len() >= 2,
        project::id_of_path(root, dir)[0] == '/',
        project::id_of_path(root, dir)[1] == '/',
        path::parts(root) + path::parts(project::id_of_path(root, dir).skip(2)) == path::parts(dir),
{
    path::law_relative(dir, root);
    path::law_relative_parts(dir, root);
    lemma_plain_remainder(dir, root);
    let rel = path::relative(dir, root)->0;
    lemma_no_leading_slash(rel);
    assert(project::id_of_path(root, dir).skip(2) =~= rel);
}

/// The id of a directory outside the monorepo root is `//` and its whole path
/// without the separators that it begins with.
pub proof fn law_id_of_path_outside(root: Seq<char>, slashes: nat, rest: Seq<char>)
    requires
        rest.len() > 0,
        rest[0] != '/',
        rest != seq!['.'],
        !path::parts(root).is_prefix_of(
            path::parts(Seq::new(slashes, |i: int| '/') + rest),
        ),
    ensures
        project::id_of_path(root, Seq::new(slashes, |i: int| '/') + rest) == seq!['/', '/'] + rest,
    decreases slashes,
{
    let dir = Seq::new(slashes, |i: int| '/') + rest;
    path::law_relative(dir, root);
    lemma_slashes_dropped(slashes, rest);
}

proof fn lemma_slashes_dropped(slashes: nat, rest: Seq<char>)
    requires
        rest.len() > 0,
        rest[0] != '/',
    ensures
        project::without_leading_slashes(Seq::new(slashes, |i: int| '/') + rest) == rest,
    decreases slashes,
{
    let s = Seq::new(slashes, |i: int| '/') + rest;
    if slashes == 0 {
        assert(s =~= rest);
    } else {
        let fewer = (slashes - 1) as nat;
        lemma_slashes_dropped(fewer, rest);
        assert(s[0] == '/');
        assert(s.drop_first() =~= Seq::new(fewer, |i: int| '/') + rest);
    }
}

/// Adding an edge changes neither the projects nor their names, and takes no edge
/// away.
pub proof fn law_edge_keeps(g: GraphModel, from: Seq<char>, to: Seq<char>)
    ensures
        g.with_edge(from, to).root == g.root,
        g.with_edge(from, to).projects == g.projects,
        g.with_edge(from, to).names == g.names,
        g.with_edge(from, to).lost == g.lost,
        g.edges.is_prefix_of(g.with_edge(from, to).edges),
        g.with_edge(from, to).edges.len() <= g.edges.len() + 1,
{
    let more = g.with_edge(from, to).edges;
    assert(g.edges =~= more.subrange(0, g.edges.len() as int));
}

/// The projects of a source stand in the order in which they stand in the graph.
pub proof fn law_of_source_in_order(
    a: Seq<ProjectModel>,
    b: Seq<ProjectModel>,
    source: SourceModel,
)
    ensures
        reader::of_source(a + b, source) == reader::of_source(a, source) + reader::of_source(
            b,
            source,
        ),
{
    Seq::filter_distributes_over_add(a, b, |p: ProjectModel| p.source == source);
}

/// A new graph has its root, and neither projects nor edges nor names.
pub proof fn law_new_graph(root: Seq<char>, id: Seq<char>, key: (SourceModel, Seq<char>))
    ensures
        GraphModel::empty(root).root == root,
        GraphModel::empty(root).projects.len() == 0,
        GraphModel::empty(root).edges.len() == 0,
        !GraphModel::empty(root).has(id),
        !GraphModel::empty(root).names.contains_key(key),
        !GraphModel::empty(root).lost.contains((key.0, key.1, id)),
{
    assert forall|i: int| !GraphModel::empty(root).is_at(i, id) by {}
}

} // verus!
