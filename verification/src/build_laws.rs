//! What holds of graphs that are assembled from contributions.
use vstd::prelude::*;

use crate::builder;
use crate::builder::BuildError;
use crate::graph;
use crate::graph::GraphModel;
use crate::laws;
use crate::lists;
use crate::path;
use crate::project;
use crate::project::ProjectModel;
use crate::reader;
use crate::reader::ContextModel;
use crate::reader::ContributionModel;
use crate::reader::EdgeModel;
use crate::reader::EndpointModel;
use crate::reader::MonorepoConfigReader;
use crate::reader::ReaderError;
use crate::readers::DefaultReader;
use crate::source::SourceModel;

verus! {

/// The contribution lies in the monorepo.
pub open spec fn is_inside(root: Seq<char>, c: ContributionModel) -> bool {
    path::relative(c.path_root, root) is Some
}

/// Contributions outside the monorepo make no difference.
pub proof fn law_outside_skipped(g: GraphModel, list: Seq<ContributionModel>)
    requires
        g.wf(),
    ensures
        g.with_contributions(list) == g.with_contributions(
            list.filter(|c: ContributionModel| is_inside(g.root, c)),
        ),
    decreases list.len(),
{
    reveal(Seq::filter);
    let keep = |c: ContributionModel| is_inside(g.root, c);
    if list.len() > 0 {
        let rest = list.drop_last();
        law_outside_skipped(g, rest);
        builder::lemma_with_contributions(g, rest);
        if keep(list.last()) {
            assert(list.filter(keep) == rest.filter(keep).push(list.last()));
            assert(list.filter(keep).drop_last() =~= rest.filter(keep));
        } else {
            assert(list.filter(keep) == rest.filter(keep));
        }
    }
}

/// Edges that cannot be resolved make no difference.
pub proof fn law_unresolvable_dropped(g: GraphModel, list: Seq<EdgeModel>)
    ensures
        g.resolved(list) == g.resolved(
            list.filter(
                |e: EdgeModel| g.resolve(e.from) is Some && g.resolve(e.to) is Some,
            ),
        ),
    decreases list.len(),
{
    reveal(Seq::filter);
    let keep = |e: EdgeModel| g.resolve(e.from) is Some && g.resolve(e.to) is Some;
    if list.len() > 0 {
        let rest = list.drop_last();
        law_unresolvable_dropped(g, rest);
        if keep(list.last()) {
            assert(list.filter(keep) == rest.filter(keep).push(list.last()));
            assert(list.filter(keep).drop_last() =~= rest.filter(keep));
        } else {
            assert(list.filter(keep) == rest.filter(keep));
        }
    }
}

/// Some contribution in the monorepo has the id `id`.
pub open spec fn contributes(
    root: Seq<char>,
    list: Seq<ContributionModel>,
    id: Seq<char>,
) -> bool {
    exists|i: int|
        0 <= i < list.len() && #[trigger] is_inside(root, list[i]) && project::id_of_path(
            root,
            list[i].path_root,
        ) == id
}

/// The projects of pass 1 are those that are contributed in the monorepo.
pub proof fn law_projects_are_contributed(
    root: Seq<char>,
    list: Seq<ContributionModel>,
    id: Seq<char>,
)
    ensures
        GraphModel::empty(root).with_contributions(list).has(id) <==> contributes(root, list, id),
    decreases list.len(),
{
    let start = GraphModel::empty(root);
    let g = start.with_contributions(list);
    if list.len() == 0 {
        assert forall|i: int| !g.is_at(i, id) by {}
    } else {
        let rest = list.drop_last();
        let before = start.with_contributions(rest);
        let c = list.last();
        law_projects_are_contributed(root, rest, id);
        graph::lemma_empty(root);
        builder::lemma_with_contributions(start, rest);
        graph::lemma_with_project(before, builder::contributed(root, c));
        if contributes(root, rest, id) {
            let i = choose|i: int|
                0 <= i < rest.len() && #[trigger] is_inside(root, rest[i]) && project::id_of_path(
                    root,
                    rest[i].path_root,
                ) == id;
            assert(is_inside(root, list[i]));
        }
        if is_inside(root, c) && project::id_of_path(root, c.path_root) == id {
            assert(is_inside(root, list[list.len() - 1]));
        }
        if contributes(root, list, id) {
            let i = choose|i: int|
                0 <= i < list.len() && #[trigger] is_inside(root, list[i]) && project::id_of_path(
                    root,
                    list[i].path_root,
                ) == id;
            if i < rest.len() {
                assert(is_inside(root, rest[i]));
            }
        }
    }
}

/// The contribution lies inside the monorepo and claims the name in the
/// namespace of the source.
pub open spec fn claims_name(
    root: Seq<char>,
    c: ContributionModel,
    source: SourceModel,
    name: Seq<char>,
) -> bool {
    is_inside(root, c) && c.source == source && c.foreign_name == Some(name)
}

/// The contribution at place `i` is the first one that claims the name.
pub open spec fn is_first_claim(
    root: Seq<char>,
    list: Seq<ContributionModel>,
    source: SourceModel,
    name: Seq<char>,
    i: int,
) -> bool {
    &&& 0 <= i < list.len()
    &&& claims_name(root, list[i], source, name)
    &&& forall|j: int| 0 <= j < i ==> !claims_name(root, #[trigger] list[j], source, name)
}

/// Some contribution of the project `id` claims the name.
pub open spec fn is_claimed_by(
    root: Seq<char>,
    list: Seq<ContributionModel>,
    source: SourceModel,
    name: Seq<char>,
    id: Seq<char>,
) -> bool {
    exists|i: int|
        {
            &&& 0 <= i < list.len()
            &&& claims_name(root, #[trigger] list[i], source, name)
            &&& project::id_of_path(root, list[i].path_root) == id
        }
}

/// What another contribution does to the claims of a name.
proof fn lemma_claims_step(
    root: Seq<char>,
    list: Seq<ContributionModel>,
    source: SourceModel,
    name: Seq<char>,
    id: Seq<char>,
)
    requires
        list.len() > 0,
    ensures
        is_claimed_by(root, list, source, name, id) <==> is_claimed_by(
            root,
            list.drop_last(),
            source,
            name,
            id,
        ) || (claims_name(root, list.last(), source, name) && project::id_of_path(
            root,
            list.last().path_root,
        ) == id),
{
    let rest = list.drop_last();
    if is_claimed_by(root, rest, source, name, id) {
        let i = choose|i: int|
            {
                &&& 0 <= i < rest.len()
                &&& claims_name(root, #[trigger] rest[i], source, name)
                &&& project::id_of_path(root, rest[i].path_root) == id
            };
        assert(claims_name(root, list[i], source, name));
    }
    if is_claimed_by(root, list, source, name, id) {
        let i = choose|i: int|
            {
                &&& 0 <= i < list.len()
                &&& claims_name(root, #[trigger] list[i], source, name)
                &&& project::id_of_path(root, list[i].path_root) == id
            };
        if i < rest.len() {
            assert(claims_name(root, rest[i], source, name));
        }
    }
    assert(claims_name(root, list[list.len() - 1], source, name) <==> claims_name(
        root,
        list.last(),
        source,
        name,
    ));
}

/// A name leads to the project whose contribution claimed it first, and no name
/// is registered that none claimed.
pub proof fn law_first_claim_wins(
    root: Seq<char>,
    list: Seq<ContributionModel>,
    source: SourceModel,
    name: Seq<char>,
)
    ensures
        ({
            let names = GraphModel::empty(root).with_contributions(list).names;
            match names.contains_key((source, name)) {
                true => exists|i: int| #[trigger]
                    is_first_claim(root, list, source, name, i) && names[(source, name)]
                        == project::id_of_path(root, list[i].path_root),
                false => forall|i: int|
                    0 <= i < list.len() ==> !claims_name(root, #[trigger] list[i], source, name),
            }
        }),
    decreases list.len(),
{
    if list.len() > 0 {
        let start = GraphModel::empty(root);
        let rest = list.drop_last();
        let last = list.len() - 1;
        let before = start.with_contributions(rest);
        graph::lemma_empty(root);
        builder::lemma_with_contributions(start, rest);
        law_first_claim_wins(root, rest, source, name);
        if before.names.contains_key((source, name)) {
            let i = choose|i: int| #[trigger]
                is_first_claim(root, rest, source, name, i) && before.names[(source, name)]
                    == project::id_of_path(root, rest[i].path_root);
            assert(list[i] == rest[i]);
            assert forall|j: int| 0 <= j < i implies !claims_name(
                root,
                #[trigger] list[j],
                source,
                name,
            ) by {
                assert(list[j] == rest[j]);
            }
            assert(is_first_claim(root, list, source, name, i));
        } else {
            assert forall|j: int| 0 <= j < last implies !claims_name(
                root,
                #[trigger] list[j],
                source,
                name,
            ) by {
                assert(list[j] == rest[j]);
            }
            if claims_name(root, list[last], source, name) {
                assert(is_first_claim(root, list, source, name, last));
            }
        }
    }
}

/// The names that projects lost are those that they claimed and that lead to
/// another project: every claim is met or listed, and nothing else is listed.
pub proof fn law_lost_claims(
    root: Seq<char>,
    list: Seq<ContributionModel>,
    source: SourceModel,
    name: Seq<char>,
    id: Seq<char>,
)
    ensures
        ({
            let g = GraphModel::empty(root).with_contributions(list);
            g.lost.contains((source, name, id)) <==> is_claimed_by(root, list, source, name, id)
                && g.names[(source, name)] != id
        }),
    decreases list.len(),
{
    let start = GraphModel::empty(root);
    let g = start.with_contributions(list);
    if list.len() > 0 {
        let rest = list.drop_last();
        let c = list.last();
        let before = start.with_contributions(rest);
        let key = (source, name);
        graph::lemma_empty(root);
        builder::lemma_with_contributions(start, rest);
        law_lost_claims(root, rest, source, name, id);
        law_first_claim_wins(root, rest, source, name);
        lemma_claims_step(root, list, source, name, id);
        if is_claimed_by(root, rest, source, name, id) {
            assert(before.names.contains_key(key));
        }
        if before.lost.contains((source, name, id)) {
            graph::lemma_lost(before, (source, name, id));
        }
        if is_inside(root, c) {
            let p = builder::contributed(root, c);
            assert(claims_name(root, c, source, name) <==> p.foreign_names.contains_key(source)
                && p.foreign_names[source] == name);
        }
    }
}

/// Where no two projects claim a name, it leads to the same project, whether it
/// is looked up among the names of its source or resolved.
pub proof fn law_names_claimed_once_agree(
    root: Seq<char>,
    list: Seq<ContributionModel>,
    source: SourceModel,
    name: Seq<char>,
)
    requires
        forall|i: int, j: int|
            {
                &&& 0 <= i < j < list.len()
                &&& claims_name(root, #[trigger] list[i], source, name)
                &&& claims_name(root, #[trigger] list[j], source, name)
            } ==> project::id_of_path(root, list[i].path_root) == project::id_of_path(
                root,
                list[j].path_root,
            ),
        reader::names_in(
            GraphModel::empty(root).with_contributions(list).projects,
            source,
        ).contains_key(name),
    ensures
        ({
            let g = GraphModel::empty(root).with_contributions(list);
            g.resolve(EndpointModel::ForeignName { source, name }) == Some(
                reader::names_in(g.projects, source)[name],
            )
        }),
{
    let start = GraphModel::empty(root);
    let g = start.with_contributions(list);
    graph::lemma_empty(root);
    builder::lemma_with_contributions(start, list);
    law_first_claim_wins(root, list, source, name);
    assert forall|id: Seq<char>| !#[trigger] g.lost.contains((source, name, id)) by {
        law_lost_claims(root, list, source, name, id);
        if is_claimed_by(root, list, source, name, id) {
            let k = choose|k: int|
                {
                    &&& 0 <= k < list.len()
                    &&& claims_name(root, #[trigger] list[k], source, name)
                    &&& project::id_of_path(root, list[k].path_root) == id
                };
            assert(g.names.contains_key((source, name)));
            let i = choose|i: int| #[trigger]
                is_first_claim(root, list, source, name, i) && g.names[(source, name)]
                    == project::id_of_path(root, list[i].path_root);
            assert(claims_name(root, list[i], source, name));
        }
    }
    laws::law_names_agree(g, source, name);
}

/// A name that was contributed in pass 1 leads to a project in pass 2,
/// whichever reader refers to it.
pub proof fn law_contributed_name_resolves(
    root: Seq<char>,
    list: Seq<ContributionModel>,
    i: int,
    name: Seq<char>,
)
    requires
        0 <= i < list.len(),
        is_inside(root, list[i]),
        list[i].foreign_name == Some(name),
    ensures
        ({
            let g = GraphModel::empty(root).with_contributions(list);
            let end = g.resolve(EndpointModel::ForeignName { source: list[i].source, name });
            end is Some && g.has(end->0)
        }),
    decreases list.len(),
{
    let start = GraphModel::empty(root);
    let g = start.with_contributions(list);
    let rest = list.drop_last();
    let before = start.with_contributions(rest);
    let key = (list[i].source, name);
    graph::lemma_empty(root);
    builder::lemma_with_contributions(start, rest);
    builder::lemma_with_contributions(start, list);
    if i < rest.len() {
        assert(rest[i] == list[i]);
        law_contributed_name_resolves(root, rest, i, name);
    } else {
        let p = builder::contributed(root, list.last());
        assert(p.foreign_names.contains_key(list[i].source));
    }
    assert(g.names.contains_key(key));
    graph::lemma_named(g, key);
}

/// A path leads to the project at that place, and to no other.
pub proof fn law_path_leads_to_its_place(
    root: Seq<char>,
    list: Seq<ContributionModel>,
    dir: Seq<char>,
)
    requires
        path::parts(root).len() > 0,
    ensures
        ({
            let g = GraphModel::empty(root).with_contributions(list);
            g.resolve(EndpointModel::Path(dir)) is Some ==> exists|i: int|
                0 <= i < list.len() && path::parts((#[trigger] list[i]).path_root) == path::parts(
                    dir,
                )
        }),
{
    let g = GraphModel::empty(root).with_contributions(list);
    let end = g.resolve(EndpointModel::Path(dir));
    graph::lemma_empty(root);
    builder::lemma_with_contributions(GraphModel::empty(root), list);
    if end is Some {
        law_projects_are_contributed(root, list, end->0);
        let i = choose|i: int|
            0 <= i < list.len() && #[trigger] is_inside(root, list[i]) && project::id_of_path(
                root,
                list[i].path_root,
            ) == end->0;
        laws::law_id_names_one_place(root, list[i].path_root, dir);
        assert(path::parts(list[i].path_root) == path::parts(dir));
    }
}

/// The path of a contribution leads to its project.
pub proof fn law_contributed_path_resolves(
    root: Seq<char>,
    list: Seq<ContributionModel>,
    i: int,
)
    requires
        0 <= i < list.len(),
        is_inside(root, list[i]),
    ensures
        GraphModel::empty(root).with_contributions(list).resolve(
            EndpointModel::Path(list[i].path_root),
        ) == Some(project::id_of_path(root, list[i].path_root)),
{
    law_projects_are_contributed(root, list, project::id_of_path(root, list[i].path_root));
    graph::lemma_empty(root);
    builder::lemma_with_contributions(GraphModel::empty(root), list);
}

/// What an endpoint is resolved to is a project.
pub proof fn law_resolved_is_project(g: GraphModel, end: EndpointModel)
    requires
        g.wf(),
        g.resolve(end) is Some,
    ensures
        g.has(g.resolve(end)->0),
{
    if let EndpointModel::ForeignName { source, name } = end {
        graph::lemma_named(g, (source, name));
    }
}

/// Some edge of the list leads from `a` to `b`.
pub open spec fn leads_to(
    g: GraphModel,
    list: Seq<EdgeModel>,
    a: Seq<char>,
    b: Seq<char>,
) -> bool {
    exists|i: int|
        0 <= i < list.len() && g.resolve((#[trigger] list[i]).from) == Some(a) && g.resolve(
            list[i].to,
        ) == Some(b)
}

/// The pairs of ids are those that some edge leads between.
proof fn lemma_resolved_contains(
    g: GraphModel,
    list: Seq<EdgeModel>,
    a: Seq<char>,
    b: Seq<char>,
)
    ensures
        g.resolved(list).contains((a, b)) <==> leads_to(g, list, a, b),
    decreases list.len(),
{
    if list.len() > 0 {
        let rest = list.drop_last();
        let before = g.resolved(rest);
        let all = g.resolved(list);
        lemma_resolved_contains(g, rest, a, b);
        if before.contains((a, b)) {
            let k = choose|k: int| 0 <= k < before.len() && before[k] == (a, b);
            assert(all[k] == (a, b));
        }
        if leads_to(g, rest, a, b) {
            let i = choose|i: int|
                0 <= i < rest.len() && g.resolve((#[trigger] rest[i]).from) == Some(a)
                    && g.resolve(rest[i].to) == Some(b);
            assert(list[i] == rest[i]);
        }
        let last = list[list.len() - 1];
        if g.resolve(last.from) == Some(a) && g.resolve(last.to) == Some(b) {
            assert(all[before.len() as int] == (a, b));
        }
        if leads_to(g, list, a, b) {
            let i = choose|i: int|
                0 <= i < list.len() && g.resolve((#[trigger] list[i]).from) == Some(a)
                    && g.resolve(list[i].to) == Some(b);
            if i < rest.len() {
                assert(rest[i] == list[i]);
            }
        }
        if all.contains((a, b)) && !before.contains((a, b)) {
            let k = choose|k: int| 0 <= k < all.len() && all[k] == (a, b);
            if k < before.len() {
                assert(before[k] == (a, b));
            }
        }
    }
}

/// With edges for pairs of ids, projects depend on each other as before, and as
/// the pairs say.
proof fn lemma_pairs_depend(
    g: GraphModel,
    pairs: Seq<(Seq<char>, Seq<char>)>,
    a: Seq<char>,
    b: Seq<char>,
)
    requires
        g.wf(),
    ensures
        g.with_edges(pairs).depends(a, b) <==> g.depends(a, b) || (pairs.contains((a, b)) && g.has(
            a,
        ) && g.has(b) && a != b),
    decreases pairs.len(),
{
    if pairs.len() > 0 {
        let rest = pairs.drop_last();
        let before = g.with_edges(rest);
        let last = pairs.last();
        lemma_pairs_depend(g, rest, a, b);
        builder::lemma_with_edges(g, rest);
        laws::law_edge_adds_dependency(before, last.0, last.1, a, b);
        assert forall|id: Seq<char>| #[trigger] before.has(id) <==> g.has(id) by {
            if before.has(id) {
                assert(g.is_at(before.place(id), id));
            }
            if g.has(id) {
                assert(before.is_at(g.place(id), id));
            }
        }
        if rest.contains((a, b)) {
            let k = choose|k: int| 0 <= k < rest.len() && rest[k] == (a, b);
            assert(pairs[k] == (a, b));
        }
        if last == (a, b) {
            assert(pairs[pairs.len() - 1] == (a, b));
        }
        if pairs.contains((a, b)) && last != (a, b) {
            let k = choose|k: int| 0 <= k < pairs.len() && pairs[k] == (a, b);
            assert(rest[k] == (a, b));
        }
    }
}

/// In an assembled graph a project depends on another exactly where some edge
/// leads from the one to the other, by path, id, or name.
pub proof fn law_dependencies_are_edges(
    root: Seq<char>,
    projects: Seq<ContributionModel>,
    edges: Seq<EdgeModel>,
    a: Seq<char>,
    b: Seq<char>,
)
    ensures
        builder::assembled(root, projects, edges).depends(a, b) <==> a != b && leads_to(
            GraphModel::empty(root).with_contributions(projects),
            edges,
            a,
            b,
        ),
{
    let start = GraphModel::empty(root);
    let first = start.with_contributions(projects);
    graph::lemma_empty(root);
    builder::lemma_with_contributions(start, projects);
    lemma_pairs_depend(first, first.resolved(edges), a, b);
    lemma_resolved_contains(first, edges, a, b);
    if leads_to(first, edges, a, b) {
        let i = choose|i: int|
            0 <= i < edges.len() && first.resolve((#[trigger] edges[i]).from) == Some(a)
                && first.resolve(edges[i].to) == Some(b);
        law_resolved_is_project(first, edges[i].from);
        law_resolved_is_project(first, edges[i].to);
    }
}

/// An assembled graph is well formed, and has the projects and names of pass 1,
/// and the names that were lost in it.
pub proof fn law_assembled_well_formed(
    root: Seq<char>,
    projects: Seq<ContributionModel>,
    edges: Seq<EdgeModel>,
)
    ensures
        ({
            let first = GraphModel::empty(root).with_contributions(projects);
            let g = builder::assembled(root, projects, edges);
            &&& g.wf()
            &&& g.root == root
            &&& g.projects == first.projects
            &&& g.names == first.names
            &&& g.lost == first.lost
        }),
{
    let start = GraphModel::empty(root);
    let first = start.with_contributions(projects);
    graph::lemma_empty(root);
    builder::lemma_with_contributions(start, projects);
    builder::lemma_with_edges(first, first.resolved(edges));
}

/// The readers of this crate leave nothing open: for what they have found there
/// is one graph.
pub proof fn law_default_build_unique(
    readers: Seq<DefaultReader>,
    ctx: ContextModel,
    a: GraphModel,
    b: GraphModel,
)
    requires
        builder::is_build(readers, ctx, a),
        builder::is_build(readers, ctx, b),
    ensures
        a == b,
{
    let (p, e) = choose|p: Seq<Seq<ContributionModel>>, e: Seq<Seq<EdgeModel>>|
        {
            &&& #[trigger] builder::may_contribute(readers, ctx, p)
            &&& p.len() == readers.len()
            &&& #[trigger] builder::may_emit(readers, ctx, builder::first_pass(ctx.root, p), e)
            &&& e.len() == readers.len()
            &&& a == builder::assembled(ctx.root, p.flatten_alt(), e.flatten_alt())
        };
    let (q, f) = choose|q: Seq<Seq<ContributionModel>>, f: Seq<Seq<EdgeModel>>|
        {
            &&& #[trigger] builder::may_contribute(readers, ctx, q)
            &&& q.len() == readers.len()
            &&& #[trigger] builder::may_emit(readers, ctx, builder::first_pass(ctx.root, q), f)
            &&& f.len() == readers.len()
            &&& b == builder::assembled(ctx.root, q.flatten_alt(), f.flatten_alt())
        };
    assert forall|i: int| 0 <= i < p.len() implies p[i] == q[i] by {
        assert(readers[i].offers_projects(ctx, Ok(p[i])));
        assert(readers[i].offers_projects(ctx, Ok(q[i])));
        lemma_one_answer(readers[i], ctx, p[i], q[i]);
    }
    assert(p =~= q);
    let g = builder::first_pass(ctx.root, p);
    assert forall|i: int| 0 <= i < e.len() implies e[i] == f[i] by {
        assert(readers[i].offers_edges(ctx, g, Ok(e[i])));
        assert(readers[i].offers_edges(ctx, g, Ok(f[i])));
        lemma_one_edge_answer(readers[i], ctx, g, e[i], f[i]);
    }
    assert(e =~= f);
}

proof fn lemma_one_answer(
    r: DefaultReader,
    ctx: ContextModel,
    a: Seq<ContributionModel>,
    b: Seq<ContributionModel>,
)
    requires
        r.offers_projects(ctx, Ok(a)),
        r.offers_projects(ctx, Ok(b)),
    ensures
        a == b,
{
    let x = Ok::<Seq<ContributionModel>, ReaderError>(a);
    let y = Ok::<Seq<ContributionModel>, ReaderError>(b);
    assert(x == y);
    assert(x->Ok_0 == y->Ok_0);
}

proof fn lemma_one_edge_answer(
    r: DefaultReader,
    ctx: ContextModel,
    g: GraphModel,
    a: Seq<EdgeModel>,
    b: Seq<EdgeModel>,
)
    requires
        r.offers_edges(ctx, g, Ok(a)),
        r.offers_edges(ctx, g, Ok(b)),
    ensures
        a == b,
{
    let x = Ok::<Seq<EdgeModel>, ReaderError>(a);
    let y = Ok::<Seq<EdgeModel>, ReaderError>(b);
    assert(x == y);
    assert(x->Ok_0 == y->Ok_0);
}

/// The contribution lies below the monorepo root, and its path has the id `id`.
pub open spec fn is_of(root: Seq<char>, c: ContributionModel, id: Seq<char>) -> bool {
    &&& path::parts(root).is_prefix_of(path::parts(c.path_root))
    &&& project::id_of_path(root, c.path_root) == id
}

/// The project holds what the contribution brings: every source glob, every tag,
/// and a name for its source where it has one.
pub open spec fn holds_all(p: ProjectModel, c: ContributionModel) -> bool {
    &&& forall|t: Seq<char>| #[trigger] c.sources.contains(t) ==> p.sources.contains(t)
    &&& forall|t: Seq<char>| #[trigger] c.tags.contains(t) ==> p.tags.contains(t)
    &&& c.foreign_name is Some ==> p.foreign_names.contains_key(c.source)
}

/// What one more contribution does to the project with a given id.
proof fn lemma_one_more(g: GraphModel, c: ContributionModel, id: Seq<char>)
    requires
        g.wf(),
    ensures
        ({
            let h = g.with_contribution(c);
            let p = g.projects[g.place(id)];
            let q = h.projects[h.place(id)];
            &&& h.wf()
            &&& h.root == g.root
            &&& h.has(id) <==> g.has(id) || is_of(g.root, c, id)
            &&& !is_of(g.root, c, id) && g.has(id) ==> q == p
            &&& is_of(g.root, c, id) && g.has(id) ==> q == p.merged(
                builder::contributed(g.root, c),
            )
            &&& is_of(g.root, c, id) && !g.has(id) ==> q == builder::contributed(g.root, c)
        }),
{
    let h = g.with_contribution(c);
    let p = builder::contributed(g.root, c);
    path::law_relative(c.path_root, g.root);
    if path::relative(c.path_root, g.root) is Some {
        graph::lemma_with_project(g, p);
        if g.has(id) {
            let i = g.place(id);
            assert(g.is_at(i, id));
            if p.id == id {
                graph::lemma_place(h, i);
            } else {
                laws::law_upsert_keeps_others(g, p, id);
            }
        } else if p.id == id {
            graph::lemma_place(h, g.projects.len() as int);
        }
    }
}

/// Every contribution below the monorepo root is held by the project with the id
/// of its path, whether it was the first one of that project or not: every source
/// glob, every tag, and a name for its source.
pub proof fn law_contribution_is_held(root: Seq<char>, list: Seq<ContributionModel>, i: int)
    requires
        0 <= i < list.len(),
        path::parts(root).is_prefix_of(path::parts(list[i].path_root)),
    ensures
        ({
            let g = GraphModel::empty(root).with_contributions(list);
            let id = project::id_of_path(root, list[i].path_root);
            g.has(id) && holds_all(g.projects[g.place(id)], list[i])
        }),
    decreases list.len(),
{
    let start = GraphModel::empty(root);
    let rest = list.drop_last();
    let before = start.with_contributions(rest);
    let id = project::id_of_path(root, list[i].path_root);
    graph::lemma_empty(root);
    builder::lemma_with_contributions(start, rest);
    let c = list.last();
    lemma_one_more(before, c, id);
    if i < rest.len() {
        assert(rest[i] == list[i]);
        law_contribution_is_held(root, rest, i);
        let p = before.projects[before.place(id)];
        let q = start.with_contributions(list).projects[start.with_contributions(list).place(id)];
        let more = builder::contributed(root, c);
        assert forall|t: Seq<char>| #[trigger]
            list[i].sources.contains(t) implies q.sources.contains(t) by {
            laws::law_merge_brings(p, more, t, list[i].source);
        }
        assert forall|t: Seq<char>| #[trigger] list[i].tags.contains(t) implies q.tags.contains(
            t,
        ) by {
            laws::law_merge_brings(p, more, t, list[i].source);
        }
        laws::law_merge_brings(p, more, list[i].path_root, list[i].source);
    } else {
        let p = before.projects[before.place(id)];
        let more = builder::contributed(root, c);
        assert(holds_all(more, c));
        let q = start.with_contributions(list).projects[start.with_contributions(list).place(id)];
        assert forall|t: Seq<char>| #[trigger] c.sources.contains(t) implies q.sources.contains(
            t,
        ) by {
            laws::law_merge_brings(p, more, t, c.source);
        }
        assert forall|t: Seq<char>| #[trigger] c.tags.contains(t) implies q.tags.contains(t) by {
            laws::law_merge_brings(p, more, t, c.source);
        }
        laws::law_merge_brings(p, more, c.path_root, c.source);
    }
}

/// Some contribution of the project `id` has the source glob.
pub open spec fn glob_brought(
    root: Seq<char>,
    list: Seq<ContributionModel>,
    id: Seq<char>,
    t: Seq<char>,
) -> bool {
    exists|i: int|
        0 <= i < list.len() && is_of(root, #[trigger] list[i], id) && list[i].sources.contains(t)
}

/// Some contribution of the project `id` has the tag.
pub open spec fn tag_brought(
    root: Seq<char>,
    list: Seq<ContributionModel>,
    id: Seq<char>,
    t: Seq<char>,
) -> bool {
    exists|i: int|
        0 <= i < list.len() && is_of(root, #[trigger] list[i], id) && list[i].tags.contains(t)
}

/// The contribution at place `i` is the first one of the project `id` that has a
/// name in the namespace of the source.
pub open spec fn is_first_name(
    root: Seq<char>,
    list: Seq<ContributionModel>,
    id: Seq<char>,
    s: SourceModel,
    i: int,
) -> bool {
    &&& 0 <= i < list.len()
    &&& is_of(root, list[i], id)
    &&& list[i].source == s
    &&& list[i].foreign_name is Some
    &&& forall|j: int|
        0 <= j < i ==> !(is_of(root, #[trigger] list[j], id) && list[j].source == s
            && list[j].foreign_name is Some)
}

/// The contribution at place `i` is the first one of the project `id`.
pub open spec fn is_first_of(
    root: Seq<char>,
    list: Seq<ContributionModel>,
    id: Seq<char>,
    i: int,
) -> bool {
    &&& 0 <= i < list.len()
    &&& is_of(root, list[i], id)
    &&& forall|j: int| 0 <= j < i ==> !is_of(root, #[trigger] list[j], id)
}

/// A project holds nothing but what its contributions brought: its source globs
/// and its tags come from some of them, its names from the first that had one for
/// the source, and its root and its source from the first of all.
pub proof fn law_held_is_contributed(
    root: Seq<char>,
    list: Seq<ContributionModel>,
    id: Seq<char>,
    t: Seq<char>,
    s: SourceModel,
)
    requires
        GraphModel::empty(root).with_contributions(list).has(id),
    ensures
        ({
            let g = GraphModel::empty(root).with_contributions(list);
            let p = g.projects[g.place(id)];
            &&& p.id == id
            &&& p.sources.contains(t) ==> glob_brought(root, list, id, t)
            &&& p.tags.contains(t) ==> tag_brought(root, list, id, t)
            &&& p.foreign_names.contains_key(s) ==> exists|i: int| #[trigger]
                is_first_name(root, list, id, s, i) && list[i].foreign_name == Some(
                    p.foreign_names[s],
                )
            &&& exists|i: int| #[trigger]
                is_first_of(root, list, id, i) && p.root == list[i].path_root && p.source
                    == list[i].source
        }),
    decreases list.len(),
{
    let start = GraphModel::empty(root);
    let g = start.with_contributions(list);
    graph::lemma_empty(root);
    if list.len() == 0 {
        assert forall|i: int| !g.is_at(i, id) by {}
    } else {
        let rest = list.drop_last();
        let last = list.len() - 1;
        let c = list.last();
        let before = start.with_contributions(rest);
        builder::lemma_with_contributions(start, rest);
        lemma_one_more(before, c, id);
        let p = before.projects[before.place(id)];
        let q = g.projects[g.place(id)];
        let more = builder::contributed(root, c);
        assert(g.is_at(g.place(id), id));
        assert forall|j: int| 0 <= j < last implies #[trigger] list[j] == rest[j] by {}
        assert(list[last] == c);
        if before.has(id) {
            law_held_is_contributed(root, rest, id, t, s);
            laws::law_merge_brings(p, more, t, s);
            laws::law_merge_keeps(p, more);
            let first = choose|i: int| #[trigger]
                is_first_of(root, rest, id, i) && p.root == rest[i].path_root && p.source
                    == rest[i].source;
            assert(is_first_of(root, list, id, first)) by {
                assert(list[first] == rest[first]);
                assert forall|j: int| 0 <= j < first implies !is_of(
                    root,
                    #[trigger] list[j],
                    id,
                ) by {
                    assert(list[j] == rest[j]);
                }
            }
            if glob_brought(root, rest, id, t) {
                let i = choose|i: int|
                    0 <= i < rest.len() && is_of(root, #[trigger] rest[i], id)
                        && rest[i].sources.contains(t);
                assert(is_of(root, list[i], id));
            }
            if tag_brought(root, rest, id, t) {
                let i = choose|i: int|
                    0 <= i < rest.len() && is_of(root, #[trigger] rest[i], id)
                        && rest[i].tags.contains(t);
                assert(is_of(root, list[i], id));
            }
            if p.foreign_names.contains_key(s) {
                let i = choose|i: int| #[trigger]
                    is_first_name(root, rest, id, s, i) && rest[i].foreign_name == Some(
                        p.foreign_names[s],
                    );
                assert(list[i] == rest[i]);
                assert forall|j: int| 0 <= j < i implies !(is_of(root, #[trigger] list[j], id)
                    && list[j].source == s && list[j].foreign_name is Some) by {
                    assert(list[j] == rest[j]);
                }
                assert(is_first_name(root, list, id, s, i));
            } else if q.foreign_names.contains_key(s) {
                assert forall|j: int| 0 <= j < last implies !(is_of(root, #[trigger] list[j], id)
                    && list[j].source == s && list[j].foreign_name is Some) by {
                    assert(list[j] == rest[j]);
                    if is_of(root, rest[j], id) {
                        law_contribution_is_held(root, rest, j);
                    }
                }
                assert(is_first_name(root, list, id, s, last));
            }
        } else {
            assert forall|j: int| 0 <= j < last implies !is_of(root, #[trigger] list[j], id) by {
                assert(list[j] == rest[j]);
                if is_of(root, rest[j], id) {
                    law_contribution_is_held(root, rest, j);
                }
            }
            assert(is_first_of(root, list, id, last));
            if q.foreign_names.contains_key(s) {
                assert(is_first_name(root, list, id, s, last));
            }
        }
    }
}

/// The reader at place `r` may have contributed the list.
pub open spec fn contributed_by(
    readers: Seq<DefaultReader>,
    ctx: ContextModel,
    r: int,
    list: Seq<ContributionModel>,
) -> bool {
    0 <= r < readers.len() && readers[r].offers_projects(ctx, Ok(list))
}

/// The reader at place `r` may have emitted the edges, seeing the projects and
/// names of the graph.
pub open spec fn emitted_by(
    readers: Seq<DefaultReader>,
    ctx: ContextModel,
    graph: GraphModel,
    r: int,
    list: Seq<EdgeModel>,
) -> bool {
    0 <= r < readers.len() && readers[r].offers_edges(
        ctx,
        GraphModel { edges: Seq::empty(), ..graph },
        Ok(list),
    )
}

/// What the readers answered where a graph was built: one list of contributions
/// and one of edges from each of them.
proof fn lemma_answers(
    readers: Seq<DefaultReader>,
    ctx: ContextModel,
    graph: GraphModel,
) -> (answers: (Seq<Seq<ContributionModel>>, Seq<Seq<EdgeModel>>))
    requires
        builder::is_build(readers, ctx, graph),
    ensures
        answers.0.len() == readers.len(),
        answers.1.len() == readers.len(),
        forall|r: int|
            0 <= r < readers.len() ==> contributed_by(readers, ctx, r, #[trigger] answers.0[r]),
        forall|r: int|
            0 <= r < readers.len() ==> emitted_by(readers, ctx, graph, r, #[trigger] answers.1[r]),
        graph == builder::assembled(
            ctx.root,
            answers.0.flatten_alt(),
            answers.1.flatten_alt(),
        ),
{
    let (p, e) = choose|p: Seq<Seq<ContributionModel>>, e: Seq<Seq<EdgeModel>>|
        {
            &&& #[trigger] builder::may_contribute(readers, ctx, p)
            &&& p.len() == readers.len()
            &&& #[trigger] builder::may_emit(readers, ctx, builder::first_pass(ctx.root, p), e)
            &&& e.len() == readers.len()
            &&& graph == builder::assembled(ctx.root, p.flatten_alt(), e.flatten_alt())
        };
    let start = GraphModel::empty(ctx.root);
    law_assembled_well_formed(ctx.root, p.flatten_alt(), e.flatten_alt());
    graph::lemma_empty(ctx.root);
    builder::lemma_with_contributions(start, p.flatten_alt());
    let seen = GraphModel { edges: Seq::<(int, int)>::empty(), ..graph };
    assert(seen == builder::first_pass(ctx.root, p));
    assert forall|r: int| 0 <= r < readers.len() implies contributed_by(
        readers,
        ctx,
        r,
        #[trigger] p[r],
    ) by {
        assert(readers[r].offers_projects(ctx, Ok(p[r])));
    }
    assert forall|r: int| 0 <= r < readers.len() implies emitted_by(
        readers,
        ctx,
        graph,
        r,
        #[trigger] e[r],
    ) by {
        assert(readers[r].offers_edges(ctx, seen, Ok(e[r])));
    }
    (p, e)
}

/// A graph that was built holds what every reader contributed below the monorepo
/// root, whichever reader it was: every source glob, every tag, and a name for
/// its source.
pub proof fn law_build_holds_every_contribution(
    readers: Seq<DefaultReader>,
    ctx: ContextModel,
    graph: GraphModel,
    r: int,
    list: Seq<ContributionModel>,
    i: int,
)
    requires
        builder::is_build(readers, ctx, graph),
        contributed_by(readers, ctx, r, list),
        0 <= i < list.len(),
        path::parts(ctx.root).is_prefix_of(path::parts(list[i].path_root)),
    ensures
        graph.root == ctx.root,
        graph.has(project::id_of_path(ctx.root, list[i].path_root)),
        holds_all(
            graph.projects[graph.place(project::id_of_path(ctx.root, list[i].path_root))],
            list[i],
        ),
{
    let (p, e) = lemma_answers(readers, ctx, graph);
    assert(contributed_by(readers, ctx, r, p[r]));
    lemma_one_answer(readers[r], ctx, list, p[r]);
    lists::lemma_flat_at(p, r, i);
    let all = p.flatten_alt();
    let id = project::id_of_path(ctx.root, list[i].path_root);
    law_contribution_is_held(ctx.root, all, lists::offset(p, r) + i);
    law_assembled_well_formed(ctx.root, all, e.flatten_alt());
    let first = GraphModel::empty(ctx.root).with_contributions(all);
    assert(first.is_at(first.place(id), id));
    assert(graph.is_at(first.place(id), id));
    graph::lemma_place(graph, first.place(id));
}

/// A graph that was built has no project that no reader contributed. The root and
/// the source of a project are those of its first contribution: of the first
/// reader that knew of it, and there of the first one in its list.
pub proof fn law_build_first_reader_wins(
    readers: Seq<DefaultReader>,
    ctx: ContextModel,
    graph: GraphModel,
    id: Seq<char>,
)
    requires
        builder::is_build(readers, ctx, graph),
        graph.has(id),
    ensures
        exists|r: int, list: Seq<ContributionModel>, i: int|
            {
                &&& #[trigger] contributed_by(readers, ctx, r, list)
                &&& #[trigger] is_first_of(ctx.root, list, id, i)
                &&& graph.projects[graph.place(id)].root == list[i].path_root
                &&& graph.projects[graph.place(id)].source == list[i].source
                &&& forall|q: int, other: Seq<ContributionModel>, j: int|
                    q < r && 0 <= j < other.len() && #[trigger] contributed_by(
                        readers,
                        ctx,
                        q,
                        other,
                    ) ==> !is_of(ctx.root, #[trigger] other[j], id)
            },
{
    let (p, e) = lemma_answers(readers, ctx, graph);
    let all = p.flatten_alt();
    let root = ctx.root;
    law_assembled_well_formed(root, all, e.flatten_alt());
    let first = GraphModel::empty(root).with_contributions(all);
    assert(graph.is_at(graph.place(id), id));
    assert(first.is_at(graph.place(id), id));
    graph::lemma_empty(root);
    builder::lemma_with_contributions(GraphModel::empty(root), all);
    graph::lemma_place(first, graph.place(id));
    law_held_is_contributed(root, all, id, id, SourceModel::Mise);
    let n = choose|n: int| #[trigger]
        is_first_of(root, all, id, n) && graph.projects[graph.place(id)].root == all[n].path_root
            && graph.projects[graph.place(id)].source == all[n].source;
    let (r, i) = lists::lemma_flat_from(p, n);
    let list = p[r];
    assert(contributed_by(readers, ctx, r, list));
    assert forall|j: int| 0 <= j < i implies !is_of(root, #[trigger] list[j], id) by {
        lists::lemma_flat_at(p, r, j);
        assert(!is_of(root, all[lists::offset(p, r) + j], id));
    }
    assert(is_first_of(root, list, id, i));
    assert forall|q: int, other: Seq<ContributionModel>, j: int|
        q < r && 0 <= j < other.len() && #[trigger] contributed_by(
            readers,
            ctx,
            q,
            other,
        ) implies !is_of(root, #[trigger] other[j], id) by {
        assert(contributed_by(readers, ctx, q, p[q]));
        lemma_one_answer(readers[q], ctx, other, p[q]);
        lists::lemma_flat_at(p, q, j);
        lists::lemma_offset_order(p, q, r);
        assert(!is_of(root, all[lists::offset(p, q) + j], id));
    }
}

/// The source globs and the tags of a project in a graph that was built come from
/// what some reader contributed for it.
pub proof fn law_build_holds_nothing_else(
    readers: Seq<DefaultReader>,
    ctx: ContextModel,
    graph: GraphModel,
    id: Seq<char>,
    t: Seq<char>,
)
    requires
        builder::is_build(readers, ctx, graph),
        graph.has(id),
    ensures
        graph.projects[graph.place(id)].sources.contains(t) ==> exists|
            r: int,
            list: Seq<ContributionModel>,
        | #[trigger]
            contributed_by(readers, ctx, r, list) && glob_brought(ctx.root, list, id, t),
        graph.projects[graph.place(id)].tags.contains(t) ==> exists|
            r: int,
            list: Seq<ContributionModel>,
        | #[trigger]
            contributed_by(readers, ctx, r, list) && tag_brought(ctx.root, list, id, t),
{
    let (p, e) = lemma_answers(readers, ctx, graph);
    let all = p.flatten_alt();
    let root = ctx.root;
    law_assembled_well_formed(root, all, e.flatten_alt());
    let first = GraphModel::empty(root).with_contributions(all);
    assert(graph.is_at(graph.place(id), id));
    assert(first.is_at(graph.place(id), id));
    graph::lemma_empty(root);
    builder::lemma_with_contributions(GraphModel::empty(root), all);
    graph::lemma_place(first, graph.place(id));
    law_held_is_contributed(root, all, id, t, SourceModel::Mise);
    if glob_brought(root, all, id, t) {
        let n = choose|n: int|
            0 <= n < all.len() && is_of(root, #[trigger] all[n], id) && all[n].sources.contains(t);
        let (r, i) = lists::lemma_flat_from(p, n);
        assert(is_of(root, p[r][i], id));
        assert(contributed_by(readers, ctx, r, p[r]) && glob_brought(root, p[r], id, t));
    }
    if tag_brought(root, all, id, t) {
        let n = choose|n: int|
            0 <= n < all.len() && is_of(root, #[trigger] all[n], id) && all[n].tags.contains(t);
        let (r, i) = lists::lemma_flat_from(p, n);
        assert(is_of(root, p[r][i], id));
        assert(contributed_by(readers, ctx, r, p[r]) && tag_brought(root, p[r], id, t));
    }
}

/// In a graph that was built a project depends on another where some reader,
/// whichever it is, emitted an edge that leads from the one to the other, and only
/// there.
pub proof fn law_build_dependencies(
    readers: Seq<DefaultReader>,
    ctx: ContextModel,
    graph: GraphModel,
    a: Seq<char>,
    b: Seq<char>,
)
    requires
        builder::is_build(readers, ctx, graph),
    ensures
        graph.depends(a, b) <==> a != b && exists|r: int, list: Seq<EdgeModel>| #[trigger]
            emitted_by(readers, ctx, graph, r, list) && leads_to(graph, list, a, b),
{
    let (p, e) = lemma_answers(readers, ctx, graph);
    let all = e.flatten_alt();
    let first = GraphModel::empty(ctx.root).with_contributions(p.flatten_alt());
    law_dependencies_are_edges(ctx.root, p.flatten_alt(), all, a, b);
    law_assembled_well_formed(ctx.root, p.flatten_alt(), all);
    graph::lemma_empty(ctx.root);
    builder::lemma_with_contributions(GraphModel::empty(ctx.root), p.flatten_alt());
    assert forall|end: EndpointModel| #[trigger] first.resolve(end) == graph.resolve(end) by {
        lemma_same_projects(first, graph, end);
    }
    if leads_to(first, all, a, b) {
        let n = choose|n: int|
            0 <= n < all.len() && first.resolve((#[trigger] all[n]).from) == Some(a)
                && first.resolve(all[n].to) == Some(b);
        let (r, i) = lists::lemma_flat_from(e, n);
        assert(graph.resolve(e[r][i].from) == Some(a) && graph.resolve(e[r][i].to) == Some(b));
        assert(emitted_by(readers, ctx, graph, r, e[r]) && leads_to(graph, e[r], a, b));
    }
    if exists|r: int, list: Seq<EdgeModel>| #[trigger]
        emitted_by(readers, ctx, graph, r, list) && leads_to(graph, list, a, b) {
        let (r, list) = choose|r: int, list: Seq<EdgeModel>| #[trigger]
            emitted_by(readers, ctx, graph, r, list) && leads_to(graph, list, a, b);
        assert(emitted_by(readers, ctx, graph, r, e[r]));
        lemma_one_edge_answer(
            readers[r],
            ctx,
            GraphModel { edges: Seq::empty(), ..graph },
            list,
            e[r],
        );
        let i = choose|i: int|
            0 <= i < list.len() && graph.resolve((#[trigger] list[i]).from) == Some(a)
                && graph.resolve(list[i].to) == Some(b);
        lists::lemma_flat_at(e, r, i);
        let n = lists::offset(e, r) + i;
        assert(first.resolve(all[n].from) == Some(a) && first.resolve(all[n].to) == Some(b));
    }
}

/// Graphs with the same root, projects and names resolve alike.
proof fn lemma_same_projects(g: GraphModel, h: GraphModel, end: EndpointModel)
    requires
        g.root == h.root,
        g.projects == h.projects,
        g.names == h.names,
    ensures
        g.resolve(end) == h.resolve(end),
{
    assert forall|id: Seq<char>| #[trigger] g.has(id) <==> h.has(id) by {
        if g.has(id) {
            assert(h.is_at(g.place(id), id));
        }
        if h.has(id) {
            assert(g.is_at(h.place(id), id));
        }
    }
}

/// A build that fails for a reader names the first one that fails: the reader has
/// the name that is given and gives up for the cause that is given, and every
/// reader before it contributes.
pub proof fn law_first_failure_named<R: MonorepoConfigReader>(
    readers: Seq<R>,
    ctx: ContextModel,
    e: BuildError,
)
    requires
        builder::is_failure(readers, ctx, e),
    ensures
        match e {
            BuildError::Projects { reader, cause } => exists|r: int|
                {
                    &&& 0 <= r < readers.len()
                    &&& (#[trigger] readers[r]).names_itself(reader@)
                    &&& readers[r].offers_projects(ctx, Err(cause))
                    &&& forall|q: int|
                        0 <= q < r ==> answers_projects(#[trigger] readers[q], ctx)
                },
            BuildError::Edges { reader, cause } => {
                &&& forall|q: int|
                    0 <= q < readers.len() ==> answers_projects(#[trigger] readers[q], ctx)
                &&& exists|r: int, g: GraphModel|
                    {
                        &&& 0 <= r < readers.len()
                        &&& (#[trigger] readers[r]).names_itself(reader@)
                        &&& #[trigger] fails_on_edges(readers[r], ctx, g, cause)
                        &&& forall|q: int|
                            0 <= q < r ==> answers_edges(#[trigger] readers[q], ctx, g)
                    }
            },
            _ => true,
        },
{
    match e {
        BuildError::Projects { reader, cause } => {
            let p = choose|p: Seq<Seq<ContributionModel>>|
                {
                    &&& #[trigger] builder::may_contribute(readers, ctx, p)
                    &&& builder::first_pass(ctx.root, p).projects.len() <= u32::MAX
                    &&& p.len() < readers.len()
                    &&& readers[p.len() as int].names_itself(reader@)
                    &&& readers[p.len() as int].offers_projects(ctx, Err(cause))
                };
            assert forall|q: int| 0 <= q < p.len() implies answers_projects(
                #[trigger] readers[q],
                ctx,
            ) by {
                assert(readers[q].offers_projects(ctx, Ok(p[q])));
            }
        },
        BuildError::Edges { reader, cause } => {
            let (p, l) = choose|p: Seq<Seq<ContributionModel>>, l: Seq<Seq<EdgeModel>>|
                {
                    &&& #[trigger] builder::may_contribute(readers, ctx, p)
                    &&& p.len() == readers.len()
                    &&& builder::first_pass(ctx.root, p).projects.len() <= u32::MAX
                    &&& #[trigger] builder::may_emit(
                        readers,
                        ctx,
                        builder::first_pass(ctx.root, p),
                        l,
                    )
                    &&& l.len() < readers.len()
                    &&& readers[l.len() as int].names_itself(reader@)
                    &&& readers[l.len() as int].offers_edges(
                        ctx,
                        builder::first_pass(ctx.root, p),
                        Err(cause),
                    )
                };
            let g = builder::first_pass(ctx.root, p);
            assert forall|q: int| 0 <= q < readers.len() implies answers_projects(
                #[trigger] readers[q],
                ctx,
            ) by {
                assert(readers[q].offers_projects(ctx, Ok(p[q])));
            }
            assert forall|q: int| 0 <= q < l.len() implies answers_edges(
                #[trigger] readers[q],
                ctx,
                g,
            ) by {
                assert(readers[q].offers_edges(ctx, g, Ok(l[q])));
            }
            assert(fails_on_edges(readers[l.len() as int], ctx, g, cause));
        },
        _ => {},
    }
}

/// The reader may contribute something.
pub open spec fn answers_projects<R: MonorepoConfigReader>(r: R, ctx: ContextModel) -> bool {
    exists|list: Seq<ContributionModel>| r.offers_projects(ctx, Ok(list))
}

/// The reader may emit edges on the graph.
pub open spec fn answers_edges<R: MonorepoConfigReader>(
    r: R,
    ctx: ContextModel,
    g: GraphModel,
) -> bool {
    exists|list: Seq<EdgeModel>| r.offers_edges(ctx, g, Ok(list))
}

/// The reader may give up on the graph for the cause.
pub open spec fn fails_on_edges<R: MonorepoConfigReader>(
    r: R,
    ctx: ContextModel,
    g: GraphModel,
    cause: ReaderError,
) -> bool {
    r.offers_edges(ctx, g, Err(cause))
}

} // verus!
