//! Workspaces of packages, each with a `package.json`.
use vstd::prelude::*;

use crate::graph::GraphModel;
use crate::lists;
use crate::path;
use crate::reader;
use crate::reader::ContextModel;
use crate::reader::ContributedEdge;
use crate::reader::ContributedProject;
use crate::reader::ContributionModel;
use crate::reader::EdgeEndpoint;
use crate::reader::EdgeModel;
use crate::reader::EndpointModel;
use crate::reader::ReaderContext;
use crate::reader::ReaderError;
use crate::reader::ResolutionView;
use crate::readers;
use crate::source::ProjectSource;
use crate::source::SourceModel;
use crate::text;

verus! {

/// What a `package.json` says of its package: its name, and the names of the
/// packages that it depends on.
#[derive(Debug, Clone)]
pub struct PackageJson {
    pub name: Option<String>,
    pub dependencies: Vec<String>,
    pub dev_dependencies: Vec<String>,
    pub peer_dependencies: Vec<String>,
}

/// A member of a workspace, and what its `package.json` says where it can be
/// read.
#[derive(Debug, Clone)]
pub struct WorkspaceMember {
    pub path: String,
    pub package: Option<PackageJson>,
}

/// What was found of a workspace.
#[derive(Debug, Clone)]
pub enum Workspace {
    /// There is no workspace file that can be read.
    Missing,
    /// The globs of the workspace could not be followed.
    Failed(ReaderError),
    /// The members of the workspace.
    Members(Vec<WorkspaceMember>),
}

/// The name of a member in the namespace of its workspace.
pub open spec fn member_name(m: WorkspaceMember) -> Option<Seq<char>> {
    match m.package {
        Some(package) => reader::optional_text(package.name),
        None => None,
    }
}

/// What a member contributes, unless it is outside the configured roots.
pub open spec fn member_project(
    ctx: ContextModel,
    source: SourceModel,
    m: WorkspaceMember,
) -> Seq<ContributionModel> {
    if readers::in_config_roots(ctx, m.path@) {
        seq![
            ContributionModel {
                source,
                path_root: m.path@,
                foreign_name: member_name(m),
                sources: Seq::empty(),
                tags: Seq::empty(),
            },
        ]
    } else {
        Seq::empty()
    }
}

/// The edge for a dependency, where it names a member of the workspace.
pub open spec fn dependency_edge(
    g: GraphModel,
    source: SourceModel,
    dir: Seq<char>,
    name: Seq<char>,
) -> Seq<EdgeModel> {
    if g.names.contains_key((source, name)) {
        seq![
            EdgeModel {
                from: EndpointModel::Path(dir),
                to: EndpointModel::ForeignName { source, name },
            },
        ]
    } else {
        Seq::empty()
    }
}

/// The dependencies of a package: its own, then those for development, then
/// those of its peers.
pub open spec fn all_dependencies(package: PackageJson) -> Seq<Seq<char>> {
    text::texts(package.dependencies@) + text::texts(package.dev_dependencies@) + text::texts(
        package.peer_dependencies@,
    )
}

/// The edges of a member, unless it is outside the configured roots.
pub open spec fn member_edges(
    ctx: ContextModel,
    g: GraphModel,
    source: SourceModel,
    m: WorkspaceMember,
) -> Seq<EdgeModel> {
    match m.package {
        Some(package) => if readers::in_config_roots(ctx, m.path@) {
            lists::gathered(
                all_dependencies(package),
                |name: Seq<char>| dependency_edge(g, source, m.path@, name),
            )
        } else {
            Seq::empty()
        },
        None => Seq::empty(),
    }
}

/// What a workspace answers in pass 1.
pub open spec fn workspace_projects(
    ctx: ContextModel,
    source: SourceModel,
    workspace: Workspace,
) -> Result<Seq<ContributionModel>, ReaderError> {
    match workspace {
        Workspace::Missing => Ok(Seq::empty()),
        Workspace::Failed(e) => Err(e),
        Workspace::Members(members) => Ok(
            lists::gathered(members@, |m: WorkspaceMember| member_project(ctx, source, m)),
        ),
    }
}

/// What a workspace answers in pass 2.
pub open spec fn workspace_edges(
    ctx: ContextModel,
    g: GraphModel,
    source: SourceModel,
    workspace: Workspace,
) -> Result<Seq<EdgeModel>, ReaderError> {
    match workspace {
        Workspace::Missing => Ok(Seq::empty()),
        Workspace::Failed(e) => Err(e),
        Workspace::Members(members) => Ok(
            lists::gathered(members@, |m: WorkspaceMember| member_edges(ctx, g, source, m)),
        ),
    }
}

/// The projects that the members of a workspace contribute.
fn collect_members(
    ctx: &ReaderContext,
    source: &ProjectSource,
    members: &Vec<WorkspaceMember>,
) -> (out: Vec<ContributedProject>)
    ensures
        reader::contributions(out@) == lists::gathered(
            members@,
            |m: WorkspaceMember| member_project(ctx@, source@, m),
        ),
{
    let ghost all = members@;
    let ghost f = |m: WorkspaceMember| member_project(ctx@, source@, m);
    let mut out: Vec<ContributedProject> = Vec::new();
    let mut i: usize = 0;
    proof {
        lists::lemma_gathered_ends(all, f);
        assert(reader::contributions(out@) =~= Seq::<ContributionModel>::empty());
    }
    while i < members.len()
        invariant
            all == members@,
            f == (|m: WorkspaceMember| member_project(ctx@, source@, m)),
            i <= all.len(),
            reader::contributions(out@) == lists::gathered(all.take(i as int), f),
        decreases all.len() - i,
    {
        let ghost before = out@;
        let member = &members[i];
        proof {
            lists::lemma_gathered_next(all, i as int, f);
        }
        if readers::is_in_config_roots(ctx, member.path.as_str()) {
            let foreign_name = match &member.package {
                Some(package) => text::clone_optional(&package.name),
                None => None,
            };
            let added = ContributedProject {
                source: source.clone(),
                path_root: member.path.clone(),
                foreign_name,
                sources: Vec::new(),
                tags: Vec::new(),
            };
            proof {
                assert(added@.sources =~= Seq::<Seq<char>>::empty());
                assert(added@.tags =~= Seq::<Seq<char>>::empty());
            }
            out.push(added);
        }
        proof {
            assert(reader::contributions(out@) =~= reader::contributions(before) + f(*member));
        }
        i += 1;
    }
    proof {
        lists::lemma_gathered_ends(all, f);
    }
    out
}

/// Emits an edge from `dir` for each of `names` that a member has.
fn emit(
    view: &ResolutionView,
    source: &ProjectSource,
    dir: &String,
    names: &Vec<String>,
    out: &mut Vec<ContributedEdge>,
)
    ensures
        reader::edge_models(final(out)@) == reader::edge_models(old(out)@) + lists::gathered(
            text::texts(names@),
            |name: Seq<char>| dependency_edge(view@, source@, dir@, name),
        ),
{
    let ghost start = reader::edge_models(out@);
    let ghost all = text::texts(names@);
    let ghost f = |name: Seq<char>| dependency_edge(view@, source@, dir@, name);
    let mut i: usize = 0;
    proof {
        lists::lemma_gathered_ends(all, f);
        assert(reader::edge_models(out@) =~= start + Seq::<EdgeModel>::empty());
    }
    while i < names.len()
        invariant
            all == text::texts(names@),
            f == (|name: Seq<char>| dependency_edge(view@, source@, dir@, name)),
            i <= names@.len(),
            reader::edge_models(out@) == start + lists::gathered(all.take(i as int), f),
        decreases names@.len() - i,
    {
        let ghost before = out@;
        let to = EdgeEndpoint::ForeignName { source: source.clone(), name: names[i].clone() };
        proof {
            lists::lemma_gathered_next(all, i as int, f);
            assert(all[i as int] == names@[i as int]@);
        }
        if view.resolve(&to).is_some() {
            out.push(ContributedEdge { from: EdgeEndpoint::Path(dir.clone()), to });
        }
        proof {
            assert(reader::edge_models(out@) =~= reader::edge_models(before) + f(all[i as int]));
            assert(reader::edge_models(out@) =~= start + lists::gathered(all.take(i + 1), f));
        }
        i += 1;
    }
    proof {
        lists::lemma_gathered_ends(all, f);
    }
}

/// The edges of the members of a workspace.
fn collect_dependencies(
    ctx: &ReaderContext,
    view: &ResolutionView,
    source: &ProjectSource,
    members: &Vec<WorkspaceMember>,
) -> (out: Vec<ContributedEdge>)
    ensures
        reader::edge_models(out@) == lists::gathered(
            members@,
            |m: WorkspaceMember| member_edges(ctx@, view@, source@, m),
        ),
{
    let ghost all = members@;
    let ghost f = |m: WorkspaceMember| member_edges(ctx@, view@, source@, m);
    let mut out: Vec<ContributedEdge> = Vec::new();
    let mut i: usize = 0;
    proof {
        lists::lemma_gathered_ends(all, f);
        assert(reader::edge_models(out@) =~= Seq::<EdgeModel>::empty());
    }
    while i < members.len()
        invariant
            all == members@,
            f == (|m: WorkspaceMember| member_edges(ctx@, view@, source@, m)),
            i <= all.len(),
            reader::edge_models(out@) == lists::gathered(all.take(i as int), f),
        decreases all.len() - i,
    {
        let ghost before = reader::edge_models(out@);
        let member = &members[i];
        proof {
            lists::lemma_gathered_next(all, i as int, f);
        }
        if readers::is_in_config_roots(ctx, member.path.as_str()) {
            if let Some(package) = &member.package {
                emit(view, source, &member.path, &package.dependencies, &mut out);
                emit(view, source, &member.path, &package.dev_dependencies, &mut out);
                emit(view, source, &member.path, &package.peer_dependencies, &mut out);
                proof {
                    let g = |name: Seq<char>| dependency_edge(view@, source@, member.path@, name);
                    let a = text::texts(package.dependencies@);
                    let b = text::texts(package.dev_dependencies@);
                    let c = text::texts(package.peer_dependencies@);
                    lists::lemma_gathered_split(a + b, c, g);
                    lists::lemma_gathered_split(a, b, g);
                }
            }
        }
        proof {
            assert(reader::edge_models(out@) =~= before + f(*member));
        }
        i += 1;
    }
    proof {
        lists::lemma_gathered_ends(all, f);
    }
    out
}

/// What a workspace answers in pass 1.
pub fn collect_workspace_projects(
    ctx: &ReaderContext,
    source: &ProjectSource,
    workspace: &Workspace,
) -> (r: Result<Vec<ContributedProject>, ReaderError>)
    ensures
        reader::project_answer(r) == workspace_projects(ctx@, source@, *workspace),
{
    match workspace {
        Workspace::Missing => {
            let none: Vec<ContributedProject> = Vec::new();
            proof {
                assert(reader::contributions(none@) =~= Seq::<ContributionModel>::empty());
            }
            Ok(none)
        },
        Workspace::Failed(e) => Err(e.clone()),
        Workspace::Members(members) => Ok(collect_members(ctx, source, members)),
    }
}

/// What a workspace answers in pass 2.
pub fn collect_workspace_edges(
    ctx: &ReaderContext,
    view: &ResolutionView,
    source: &ProjectSource,
    workspace: &Workspace,
) -> (r: Result<Vec<ContributedEdge>, ReaderError>)
    ensures
        reader::edge_answer(r) == workspace_edges(ctx@, view@, source@, *workspace),
{
    match workspace {
        Workspace::Missing => {
            let none: Vec<ContributedEdge> = Vec::new();
            proof {
                assert(reader::edge_models(none@) =~= Seq::<EdgeModel>::empty());
            }
            Ok(none)
        },
        Workspace::Failed(e) => Err(e.clone()),
        Workspace::Members(members) => Ok(collect_dependencies(ctx, view, source, members)),
    }
}

/// Every edge that a member emits leads to a package of the same workspace.
pub proof fn law_member_edges_resolve(
    ctx: ContextModel,
    g: GraphModel,
    source: SourceModel,
    m: WorkspaceMember,
    e: EdgeModel,
)
    requires
        member_edges(ctx, g, source, m).contains(e),
    ensures
        e.from == EndpointModel::Path(m.path@),
        e.to matches EndpointModel::ForeignName { source: s, name: _ } && s == source,
        g.resolve(e.to) is Some,
{
    let f = |name: Seq<char>| dependency_edge(g, source, m.path@, name);
    let names = all_dependencies(m.package->0);
    lists::lemma_gathered_contains(names, f, e);
    let i = choose|i: int| 0 <= i < names.len() && (#[trigger] f(names[i])).contains(e);
    assert(f(names[i]) == dependency_edge(g, source, m.path@, names[i]));
}

/// The path lies below one of the configured roots, where there are any.
pub open spec fn is_configured(ctx: ContextModel, dir: Seq<char>) -> bool {
    match ctx.config_roots {
        Some(roots) => roots.len() > 0 ==> exists|i: int|
            0 <= i < roots.len() && path::parts(#[trigger] roots[i]).is_prefix_of(
                path::parts(dir),
            ),
        None => true,
    }
}

proof fn lemma_configured(ctx: ContextModel, dir: Seq<char>)
    ensures
        readers::in_config_roots(ctx, dir) <==> is_configured(ctx, dir),
{
    if let Some(roots) = ctx.config_roots {
        if roots.len() > 0 {
            readers::law_config_roots(ctx, roots, Seq::empty(), dir);
        }
    }
}

/// The `package.json` names the package `name` among its dependencies, of
/// whichever kind.
pub open spec fn depends_on(package: PackageJson, name: Seq<char>) -> bool {
    ||| exists|n: int|
        0 <= n < package.dependencies@.len() && (#[trigger] package.dependencies@[n])@ == name
    ||| exists|n: int|
        0 <= n < package.dev_dependencies@.len() && (#[trigger] package.dev_dependencies@[n])@
            == name
    ||| exists|n: int|
        0 <= n < package.peer_dependencies@.len() && (#[trigger] package.peer_dependencies@[n])@
            == name
}

proof fn lemma_depends_on(package: PackageJson, name: Seq<char>)
    ensures
        all_dependencies(package).contains(name) <==> depends_on(package, name),
{
    let a = text::texts(package.dependencies@);
    let b = text::texts(package.dev_dependencies@);
    let c = text::texts(package.peer_dependencies@);
    let all = all_dependencies(package);
    if all.contains(name) {
        let n = choose|n: int| 0 <= n < all.len() && all[n] == name;
        if n < a.len() {
            assert(package.dependencies@[n]@ == name);
        } else if n < a.len() + b.len() {
            assert(package.dev_dependencies@[n - a.len()]@ == name);
        } else {
            assert(package.peer_dependencies@[n - a.len() - b.len()]@ == name);
        }
    }
    if exists|n: int|
        0 <= n < package.dependencies@.len() && (#[trigger] package.dependencies@[n])@ == name {
        let n = choose|n: int|
            0 <= n < package.dependencies@.len() && (#[trigger] package.dependencies@[n])@ == name;
        assert(all[n] == name);
    }
    if exists|n: int|
        0 <= n < package.dev_dependencies@.len() && (#[trigger] package.dev_dependencies@[n])@
            == name {
        let n = choose|n: int|
            0 <= n < package.dev_dependencies@.len() && (#[trigger] package.dev_dependencies@[n])@
                == name;
        assert(all[a.len() + n] == name);
    }
    if exists|n: int|
        0 <= n < package.peer_dependencies@.len() && (#[trigger] package.peer_dependencies@[n])@
            == name {
        let n = choose|n: int|
            0 <= n < package.peer_dependencies@.len() && (
            #[trigger] package.peer_dependencies@[n])@ == name;
        assert(all[a.len() + b.len() + n] == name);
    }
}

/// Every member below one of the configured roots, or every member where there
/// are none, is contributed under the name of its package, and nothing else is.
pub proof fn law_contributes_every_member(
    ctx: ContextModel,
    source: SourceModel,
    members: Vec<WorkspaceMember>,
    c: ContributionModel,
)
    ensures
        workspace_projects(ctx, source, Workspace::Members(members)) is Ok,
        (workspace_projects(ctx, source, Workspace::Members(members))->Ok_0).contains(c)
            <==> exists|m: int|
            {
                &&& 0 <= m < members@.len()
                &&& is_configured(ctx, (#[trigger] members@[m]).path@)
                &&& c.path_root == members@[m].path@
                &&& c.source == source
                &&& c.foreign_name == match members@[m].package {
                    Some(package) => reader::optional_text(package.name),
                    None => None,
                }
                &&& c.sources.len() == 0
                &&& c.tags.len() == 0
            },
{
    let f = |m: WorkspaceMember| member_project(ctx, source, m);
    let list = workspace_projects(ctx, source, Workspace::Members(members))->Ok_0;
    lists::lemma_gathered_contains(members@, f, c);
    if list.contains(c) {
        let m = choose|m: int| 0 <= m < members@.len() && (#[trigger] f(members@[m])).contains(c);
        assert(member_project(ctx, source, members@[m]).contains(c));
        lemma_configured(ctx, members@[m].path@);
    }
    if exists|m: int|
        {
            &&& 0 <= m < members@.len()
            &&& is_configured(ctx, (#[trigger] members@[m]).path@)
            &&& c.path_root == members@[m].path@
            &&& c.source == source
            &&& c.foreign_name == match members@[m].package {
                Some(package) => reader::optional_text(package.name),
                None => None,
            }
            &&& c.sources.len() == 0
            &&& c.tags.len() == 0
        } {
        let m = choose|m: int|
            {
                &&& 0 <= m < members@.len()
                &&& is_configured(ctx, (#[trigger] members@[m]).path@)
                &&& c.path_root == members@[m].path@
                &&& c.source == source
                &&& c.foreign_name == match members@[m].package {
                    Some(package) => reader::optional_text(package.name),
                    None => None,
                }
                &&& c.sources.len() == 0
                &&& c.tags.len() == 0
            };
        lemma_configured(ctx, members@[m].path@);
        let given = f(members@[m]);
        assert(c.sources =~= given[0].sources);
        assert(c.tags =~= given[0].tags);
        assert(given[0] == c);
        assert(given.contains(c));
    }
}

/// What the members of two lists contribute comes one list after the other.
pub proof fn law_contributions_in_order(
    ctx: ContextModel,
    source: SourceModel,
    a: Vec<WorkspaceMember>,
    b: Vec<WorkspaceMember>,
    both: Vec<WorkspaceMember>,
)
    requires
        both@ == a@ + b@,
    ensures
        workspace_projects(ctx, source, Workspace::Members(both))->Ok_0 == workspace_projects(
            ctx,
            source,
            Workspace::Members(a),
        )->Ok_0 + workspace_projects(ctx, source, Workspace::Members(b))->Ok_0,
{
    lists::lemma_gathered_split(a@, b@, |m: WorkspaceMember| member_project(ctx, source, m));
}

/// Every dependency of a member, of whichever kind, that is the name of a package
/// of the workspace makes an edge from the member, and nothing else does. Members
/// below none of the configured roots make none, where there are any.
pub proof fn law_dependencies_make_edges(
    ctx: ContextModel,
    g: GraphModel,
    source: SourceModel,
    members: Vec<WorkspaceMember>,
    e: EdgeModel,
)
    ensures
        workspace_edges(ctx, g, source, Workspace::Members(members)) is Ok,
        (workspace_edges(ctx, g, source, Workspace::Members(members))->Ok_0).contains(e)
            <==> exists|m: int, name: Seq<char>|
            {
                &&& 0 <= m < members@.len()
                &&& members@[m].package is Some
                &&& is_configured(ctx, members@[m].path@)
                &&& #[trigger] depends_on(members@[m].package->0, name)
                &&& g.names.contains_key((source, name))
                &&& e.from == EndpointModel::Path(members@[m].path@)
                &&& e.to == (EndpointModel::ForeignName { source, name })
            },
{
    let f = |m: WorkspaceMember| member_edges(ctx, g, source, m);
    let list = workspace_edges(ctx, g, source, Workspace::Members(members))->Ok_0;
    lists::lemma_gathered_contains(members@, f, e);
    if list.contains(e) {
        let m = choose|m: int| 0 <= m < members@.len() && (#[trigger] f(members@[m])).contains(e);
        let own = members@[m];
        assert(member_edges(ctx, g, source, own).contains(e));
        lemma_configured(ctx, own.path@);
        let names = all_dependencies(own.package->0);
        let one = |name: Seq<char>| dependency_edge(g, source, own.path@, name);
        lists::lemma_gathered_contains(names, one, e);
        let n = choose|n: int| 0 <= n < names.len() && (#[trigger] one(names[n])).contains(e);
        assert(dependency_edge(g, source, own.path@, names[n]).contains(e));
        assert(names.contains(names[n]));
        lemma_depends_on(own.package->0, names[n]);
        assert(depends_on(members@[m].package->0, names[n]));
    }
    if exists|m: int, name: Seq<char>|
        {
            &&& 0 <= m < members@.len()
            &&& members@[m].package is Some
            &&& is_configured(ctx, members@[m].path@)
            &&& #[trigger] depends_on(members@[m].package->0, name)
            &&& g.names.contains_key((source, name))
            &&& e.from == EndpointModel::Path(members@[m].path@)
            &&& e.to == (EndpointModel::ForeignName { source, name })
        } {
        let (m, name) = choose|m: int, name: Seq<char>|
            {
                &&& 0 <= m < members@.len()
                &&& members@[m].package is Some
                &&& is_configured(ctx, members@[m].path@)
                &&& #[trigger] depends_on(members@[m].package->0, name)
                &&& g.names.contains_key((source, name))
                &&& e.from == EndpointModel::Path(members@[m].path@)
                &&& e.to == (EndpointModel::ForeignName { source, name })
            };
        let own = members@[m];
        lemma_configured(ctx, own.path@);
        lemma_depends_on(own.package->0, name);
        let names = all_dependencies(own.package->0);
        let one = |name: Seq<char>| dependency_edge(g, source, own.path@, name);
        let n = choose|n: int| 0 <= n < names.len() && names[n] == name;
        assert(one(names[n])[0] == e);
        assert(one(names[n]).contains(e));
        lists::lemma_gathered_contains(names, one, e);
        assert(f(members@[m]).contains(e));
    }
}

/// A member contributes one project at most, and the edges of the members of two
/// lists come one list after the other.
pub proof fn law_members_in_order(
    ctx: ContextModel,
    g: GraphModel,
    source: SourceModel,
    a: Vec<WorkspaceMember>,
    b: Vec<WorkspaceMember>,
    both: Vec<WorkspaceMember>,
)
    requires
        both@ == a@ + b@,
    ensures
        (workspace_projects(ctx, source, Workspace::Members(a))->Ok_0).len() <= a@.len(),
        workspace_edges(ctx, g, source, Workspace::Members(both))->Ok_0 == workspace_edges(
            ctx,
            g,
            source,
            Workspace::Members(a),
        )->Ok_0 + workspace_edges(ctx, g, source, Workspace::Members(b))->Ok_0,
{
    lists::lemma_gathered_len(a@, |m: WorkspaceMember| member_project(ctx, source, m));
    lists::lemma_gathered_split(a@, b@, |m: WorkspaceMember| member_edges(ctx, g, source, m));
}

} // verus!
