//! Projects of an npm workspace.
use vstd::prelude::*;

use crate::graph::GraphModel;
use crate::reader;
use crate::reader::ContextModel;
use crate::reader::ContributedEdge;
use crate::reader::ContributedProject;
use crate::reader::ContributionModel;
use crate::reader::EdgeModel;
use crate::reader::EndpointModel;
use crate::reader::MonorepoConfigReader;
use crate::reader::ReaderContext;
use crate::reader::ReaderError;
use crate::reader::ResolutionView;
use crate::readers::workspace;
use crate::readers::workspace::Workspace;
use crate::readers::workspace::WorkspaceMember;
use crate::source::ProjectSource;
use crate::source::SourceModel;
use crate::text;

verus! {

/// Reads npm/yarn-style workspaces: the `workspaces` field of the root
/// `package.json` declares member globs. Each member is a project in the
/// `NpmWorkspace` namespace.
#[derive(Debug, Clone)]
pub struct NpmReader {
    pub workspace: Workspace,
}

/// The `workspaces` field of the root `package.json`.
#[derive(Debug, Clone)]
pub enum WorkspacesField {
    Array(Vec<String>),
    Object { packages: Vec<String> },
    Unset,
}

/// The member globs that a `workspaces` field declares.
pub open spec fn declared_globs(field: WorkspacesField) -> Seq<Seq<char>> {
    match field {
        WorkspacesField::Array(list) => text::texts(list@),
        WorkspacesField::Object { packages } => text::texts(packages@),
        WorkspacesField::Unset => Seq::empty(),
    }
}

impl NpmReader {
    /// The member globs that a `workspaces` field declares.
    pub fn workspace_globs(field: &WorkspacesField) -> (r: &[String])
        ensures
            text::texts(r@) == declared_globs(*field),
    {
        match field {
            WorkspacesField::Array(list) => list.as_slice(),
            WorkspacesField::Object { packages } => packages.as_slice(),
            WorkspacesField::Unset => {
                let none: &[String] = &[];
                proof {
                    assert(text::texts(none@) =~= Seq::<Seq<char>>::empty());
                }
                none
            },
        }
    }
}

impl MonorepoConfigReader for NpmReader {
    open spec fn names_itself(&self, name: Seq<char>) -> bool {
        name == "npm-workspace"@
    }

    open spec fn offers_projects(
        &self,
        ctx: ContextModel,
        answer: Result<Seq<ContributionModel>, ReaderError>,
    ) -> bool {
        answer == workspace::workspace_projects(ctx, SourceModel::NpmWorkspace, self.workspace)
    }

    open spec fn offers_edges(
        &self,
        ctx: ContextModel,
        graph: GraphModel,
        answer: Result<Seq<EdgeModel>, ReaderError>,
    ) -> bool {
        answer == workspace::workspace_edges(ctx, graph, SourceModel::NpmWorkspace, self.workspace)
    }

    fn id(&self) -> (r: &'static str) {
        "npm-workspace"
    }

    fn collect_projects(&self, ctx: &ReaderContext) -> (r: Result<
        Vec<ContributedProject>,
        ReaderError,
    >) {
        workspace::collect_workspace_projects(ctx, &ProjectSource::NpmWorkspace, &self.workspace)
    }

    fn collect_edges(&self, ctx: &ReaderContext, view: &ResolutionView) -> (r: Result<
        Vec<ContributedEdge>,
        ReaderError,
    >) {
        workspace::collect_workspace_edges(
            ctx,
            view,
            &ProjectSource::NpmWorkspace,
            &self.workspace,
        )
    }
}

/// Every member of the workspace below one of the configured roots, or every one
/// where there are none, is contributed under the name of its package, and nothing
/// else is.
pub proof fn law_contributes_every_member(
    reader: NpmReader,
    ctx: ContextModel,
    members: Vec<WorkspaceMember>,
    list: Seq<ContributionModel>,
    c: ContributionModel,
)
    requires
        reader.workspace == Workspace::Members(members),
        reader.offers_projects(ctx, Ok(list)),
    ensures
        list.contains(c) <==> exists|m: int|
            {
                &&& 0 <= m < members@.len()
                &&& workspace::is_configured(ctx, (#[trigger] members@[m]).path@)
                &&& c.path_root == members@[m].path@
                &&& c.source == SourceModel::NpmWorkspace
                &&& c.foreign_name == match members@[m].package {
                    Some(package) => reader::optional_text(package.name),
                    None => None,
                }
                &&& c.sources.len() == 0
                &&& c.tags.len() == 0
            },
{
    let x = Ok::<Seq<ContributionModel>, ReaderError>(list);
    assert(x->Ok_0 == list);
    workspace::law_contributes_every_member(ctx, SourceModel::NpmWorkspace, members, c);
}

/// Every dependency of a member of the workspace on a package of the workspace
/// makes an edge from the member, of whichever kind it is, and nothing else does.
pub proof fn law_dependencies_make_edges(
    reader: NpmReader,
    ctx: ContextModel,
    g: GraphModel,
    members: Vec<WorkspaceMember>,
    edges: Seq<EdgeModel>,
    e: EdgeModel,
)
    requires
        reader.workspace == Workspace::Members(members),
        reader.offers_edges(ctx, g, Ok(edges)),
    ensures
        edges.contains(e) <==> exists|m: int, name: Seq<char>|
            {
                &&& 0 <= m < members@.len()
                &&& members@[m].package is Some
                &&& workspace::is_configured(ctx, members@[m].path@)
                &&& #[trigger] workspace::depends_on(members@[m].package->0, name)
                &&& g.names.contains_key((SourceModel::NpmWorkspace, name))
                &&& e.from == EndpointModel::Path(members@[m].path@)
                &&& e.to == (EndpointModel::ForeignName {
                    source: SourceModel::NpmWorkspace,
                    name,
                })
            },
{
    let x = Ok::<Seq<EdgeModel>, ReaderError>(edges);
    assert(x->Ok_0 == edges);
    workspace::law_dependencies_make_edges(ctx, g, SourceModel::NpmWorkspace, members, e);
}

/// Without a workspace there is nothing to contribute, and a workspace that could
/// not be followed fails the reader in both passes, for the reason that was found.
pub proof fn law_without_members(
    reader: NpmReader,
    ctx: ContextModel,
    g: GraphModel,
    projects: Result<Seq<ContributionModel>, ReaderError>,
    edges: Result<Seq<EdgeModel>, ReaderError>,
)
    requires
        reader.offers_projects(ctx, projects),
        reader.offers_edges(ctx, g, edges),
    ensures
        match reader.workspace {
            Workspace::Missing => {
                &&& projects is Ok && (projects->Ok_0).len() == 0
                &&& edges is Ok && (edges->Ok_0).len() == 0
            },
            Workspace::Failed(e) => {
                &&& projects is Err && projects->Err_0 == e
                &&& edges is Err && edges->Err_0 == e
            },
            Workspace::Members(_) => projects is Ok && edges is Ok,
        },
{
}

/// A `workspaces` field declares the globs that it lists, in either of its forms,
/// all of them and in their order.
pub proof fn law_declared_globs(field: WorkspacesField, i: int)
    ensures
        match field {
            WorkspacesField::Array(list) => {
                &&& declared_globs(field).len() == list@.len()
                &&& 0 <= i < list@.len() ==> declared_globs(field)[i] == list@[i]@
            },
            WorkspacesField::Object { packages } => {
                &&& declared_globs(field).len() == packages@.len()
                &&& 0 <= i < packages@.len() ==> declared_globs(field)[i] == packages@[i]@
            },
            WorkspacesField::Unset => declared_globs(field).len() == 0,
        },
{
}

} // verus!
