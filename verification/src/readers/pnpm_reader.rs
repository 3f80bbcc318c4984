//! Projects of a pnpm workspace.
use vstd::prelude::*;

use crate::graph::GraphModel;
use crate::reader;
use crate::reader::ContextModel;
use crate::reader::ContributedEdge;
use crate::reader::ContributedProject;
use crate::reader::ContributionModel;
use crate::reader::EdgeModel;
use crate::reader::EndpointModel;
use crate::reader::MonorepoConfigReader;
use crate::reader::ReaderContext;
use crate::reader::ReaderError;
use crate::reader::ResolutionView;
use crate::readers::workspace;
use crate::readers::workspace::Workspace;
use crate::readers::workspace::WorkspaceMember;
use crate::source::ProjectSource;
use crate::source::SourceModel;

verus! {

/// Reads `pnpm-workspace.yaml` and the `package.json` files of its member
/// directories. Each member becomes a project in the `PnpmWorkspace` namespace,
/// by its package name. Edges come from the dependencies that name another
/// member.
#[derive(Debug, Clone)]
pub struct PnpmReader {
    pub workspace: Workspace,
}

impl MonorepoConfigReader for PnpmReader {
    open spec fn names_itself(&self, name: Seq<char>) -> bool {
        name == "pnpm-workspace"@
    }

    open spec fn offers_projects(
        &self,
        ctx: ContextModel,
        answer: Result<Seq<ContributionModel>, ReaderError>,
    ) -> bool {
        answer == workspace::workspace_projects(ctx, SourceModel::PnpmWorkspace, self.workspace)
    }

    open spec fn offers_edges(
        &self,
        ctx: ContextModel,
        graph: GraphModel,
        answer: Result<Seq<EdgeModel>, ReaderError>,
    ) -> bool {
        answer == workspace::workspace_edges(ctx, graph, SourceModel::PnpmWorkspace, self.workspace)
    }

    fn id(&self) -> (r: &'static str) {
        "pnpm-workspace"
    }

    fn collect_projects(&self, ctx: &ReaderContext) -> (r: Result<
        Vec<ContributedProject>,
        ReaderError,
    >) {
        workspace::collect_workspace_projects(ctx, &ProjectSource::PnpmWorkspace, &self.workspace)
    }

    fn collect_edges(&self, ctx: &ReaderContext, view: &ResolutionView) -> (r: Result<
        Vec<ContributedEdge>,
        ReaderError,
    >) {
        workspace::collect_workspace_edges(
            ctx,
            view,
            &ProjectSource::PnpmWorkspace,
            &self.workspace,
        )
    }
}

/// Every member of the workspace below one of the configured roots, or every one
/// where there are none, is contributed under the name of its package, and nothing
/// else is.
pub proof fn law_contributes_every_member(
    reader: PnpmReader,
    ctx: ContextModel,
    members: Vec<WorkspaceMember>,
    list: Seq<ContributionModel>,
    c: ContributionModel,
)
    requires
        reader.workspace == Workspace::Members(members),
        reader.offers_projects(ctx, Ok(list)),
    ensures
        list.contains(c) <==> exists|m: int|
            {
                &&& 0 <= m < members@.len()
                &&& workspace::is_configured(ctx, (#[trigger] members@[m]).path@)
                &&& c.path_root == members@[m].path@
                &&& c.source == SourceModel::PnpmWorkspace
                &&& c.foreign_name == match members@[m].package {
                    Some(package) => reader::optional_text(package.name),
                    None => None,
                }
                &&& c.sources.len() == 0
                &&& c.tags.len() == 0
            },
{
    let x = Ok::<Seq<ContributionModel>, ReaderError>(list);
    assert(x->Ok_0 == list);
    workspace::law_contributes_every_member(ctx, SourceModel::PnpmWorkspace, members, c);
}

/// Every dependency of a member of the workspace on a package of the workspace
/// makes an edge from the member, of whichever kind it is, and nothing else does.
pub proof fn law_dependencies_make_edges(
    reader: PnpmReader,
    ctx: ContextModel,
    g: GraphModel,
    members: Vec<WorkspaceMember>,
    edges: Seq<EdgeModel>,
    e: EdgeModel,
)
    requires
        reader.workspace == Workspace::Members(members),
        reader.offers_edges(ctx, g, Ok(edges)),
    ensures
        edges.contains(e) <==> exists|m: int, name: Seq<char>|
            {
                &&& 0 <= m < members@.len()
                &&& members@[m].package is Some
                &&& workspace::is_configured(ctx, members@[m].path@)
                &&& #[trigger] workspace::depends_on(members@[m].package->0, name)
                &&& g.names.contains_key((SourceModel::PnpmWorkspace, name))
                &&& e.from == EndpointModel::Path(members@[m].path@)
                &&& e.to == (EndpointModel::ForeignName {
                    source: SourceModel::PnpmWorkspace,
                    name,
                })
            },
{
    let x = Ok::<Seq<EdgeModel>, ReaderError>(edges);
    assert(x->Ok_0 == edges);
    workspace::law_dependencies_make_edges(ctx, g, SourceModel::PnpmWorkspace, members, e);
}

/// Without a workspace there is nothing to contribute, and a workspace that could
/// not be followed fails the reader in both passes, for the reason that was found.
pub proof fn law_without_members(
    reader: PnpmReader,
    ctx: ContextModel,
    g: GraphModel,
    projects: Result<Seq<ContributionModel>, ReaderError>,
    edges: Result<Seq<EdgeModel>, ReaderError>,
)
    requires
        reader.offers_projects(ctx, projects),
        reader.offers_edges(ctx, g, edges),
    ensures
        match reader.workspace {
            Workspace::Missing => {
                &&& projects is Ok && (projects->Ok_0).len() == 0
                &&& edges is Ok && (edges->Ok_0).len() == 0
            },
            Workspace::Failed(e) => {
                &&& projects is Err && projects->Err_0 == e
                &&& edges is Err && edges->Err_0 == e
            },
            Workspace::Members(_) => projects is Ok && edges is Ok,
        },
{
}

} // verus!
