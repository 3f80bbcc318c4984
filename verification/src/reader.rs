//! What the readers of configuration formats contribute to the graph.
use vstd::prelude::*;

use crate::graph::GraphModel;
use crate::graph::ProjectGraph;
use crate::ordered::OrderedMap;
use crate::path;
use crate::project;
use crate::project::Project;
use crate::project::ProjectId;
use crate::project::ProjectModel;
use crate::source;
use crate::source::ProjectSource;
use crate::source::SourceModel;
use crate::text;

verus! {

/// Project information contributed by a single reader during pass 1.
///
/// `path_root` is the absolute location of the project; the builder derives
/// the canonical id from it. `foreign_name` is the name by which projects of
/// the same source refer to this one.
#[derive(Debug, Clone)]
pub struct ContributedProject {
    pub source: ProjectSource,
    pub path_root: String,
    pub foreign_name: Option<String>,
    pub sources: Vec<String>,
    pub tags: Vec<String>,
}

/// What a `ContributedProject` stands for.
pub struct ContributionModel {
    pub source: SourceModel,
    pub path_root: Seq<char>,
    pub foreign_name: Option<Seq<char>>,
    pub sources: Seq<Seq<char>>,
    pub tags: Seq<Seq<char>>,
}

/// The text of an optional string.
pub open spec fn optional_text(s: Option<String>) -> Option<Seq<char>> {
    match s {
        Some(s) => Some(s@),
        None => None,
    }
}

impl View for ContributedProject {
    type V = ContributionModel;

    open spec fn view(&self) -> ContributionModel {
        ContributionModel {
            source: self.source@,
            path_root: self.path_root@,
            foreign_name: optional_text(self.foreign_name),
            sources: text::texts(self.sources@),
            tags: text::texts(self.tags@),
        }
    }
}

/// What each of several contributions stands for.
pub open spec fn contributions(list: Seq<ContributedProject>) -> Seq<ContributionModel> {
    list.map_values(|c: ContributedProject| c@)
}

/// An edge contributed by a reader during pass 2: `from` depends on `to`.
///
/// An edge with an end that cannot be resolved is dropped, so that one wrong
/// reference does not fail the whole build.
#[derive(Debug, Clone)]
pub struct ContributedEdge {
    pub from: EdgeEndpoint,
    pub to: EdgeEndpoint,
}

/// A reference to a project.
#[derive(Debug)]
pub enum EdgeEndpoint {
    /// The project at this absolute path. A path outside the monorepo leads
    /// nowhere.
    Path(String),
    /// The project with this name in the namespace of a source.
    ForeignName { source: ProjectSource, name: String },
    /// The project with this canonical id.
    Id(ProjectId),
}

impl Clone for EdgeEndpoint {
    fn clone(&self) -> (r: Self)
        ensures
            r == *self,
    {
        match self {
            EdgeEndpoint::Path(path) => EdgeEndpoint::Path(path.clone()),
            EdgeEndpoint::ForeignName { source, name } => EdgeEndpoint::ForeignName {
                source: source.clone(),
                name: name.clone(),
            },
            EdgeEndpoint::Id(id) => EdgeEndpoint::Id(id.clone()),
        }
    }
}

/// What an `EdgeEndpoint` stands for.
pub enum EndpointModel {
    Path(Seq<char>),
    ForeignName { source: SourceModel, name: Seq<char> },
    Id(Seq<char>),
}

impl View for EdgeEndpoint {
    type V = EndpointModel;

    open spec fn view(&self) -> EndpointModel {
        match self {
            EdgeEndpoint::Path(path) => EndpointModel::Path(path@),
            EdgeEndpoint::ForeignName { source, name } => EndpointModel::ForeignName {
                source: source@,
                name: name@,
            },
            EdgeEndpoint::Id(id) => EndpointModel::Id(id@),
        }
    }
}

/// What a `ContributedEdge` stands for.
pub struct EdgeModel {
    pub from: EndpointModel,
    pub to: EndpointModel,
}

impl View for ContributedEdge {
    type V = EdgeModel;

    open spec fn view(&self) -> EdgeModel {
        EdgeModel { from: self.from@, to: self.to@ }
    }
}

/// What each of several edges stands for.
pub open spec fn edge_models(list: Seq<ContributedEdge>) -> Seq<EdgeModel> {
    list.map_values(|e: ContributedEdge| e@)
}

/// Where readers look: the monorepo, and the part of it that its configuration
/// restricts them to.
#[derive(Debug, Clone)]
pub struct ReaderContext {
    pub monorepo_root: String,
    pub config_roots: Option<Vec<String>>,
}

/// What a `ReaderContext` stands for.
pub struct ContextModel {
    pub root: Seq<char>,
    pub config_roots: Option<Seq<Seq<char>>>,
}

impl View for ReaderContext {
    type V = ContextModel;

    open spec fn view(&self) -> ContextModel {
        ContextModel {
            root: self.monorepo_root@,
            config_roots: match self.config_roots {
                Some(roots) => Some(text::texts(roots@)),
                None => None,
            },
        }
    }
}

impl ReaderContext {
    /// A context for the given monorepo.
    pub fn new(monorepo_root: String, config_roots: Option<Vec<String>>) -> (r: Self)
        ensures
            r.monorepo_root == monorepo_root,
            r.config_roots == config_roots,
    {
        ReaderContext { monorepo_root, config_roots }
    }
}

/// Why a reader gave up.
#[derive(Debug)]
pub struct ReaderError {
    pub message: String,
}

impl Clone for ReaderError {
    fn clone(&self) -> (r: Self)
        ensures
            r == *self,
    {
        ReaderError { message: self.message.clone() }
    }
}

/// Two-pass reader contract for a monorepo configuration format.
///
/// The builder calls `collect_projects` for every reader first, and then
/// `collect_edges` for every reader, so that an edge can refer to a project of
/// any format.
pub trait MonorepoConfigReader: Send + Sync {
    /// The reader may give this as its name: anything, unless the reader says
    /// more.
    open spec fn names_itself(&self, name: Seq<char>) -> bool {
        true
    }

    /// The reader may answer so in pass 1: anything, unless the reader says
    /// more.
    open spec fn offers_projects(
        &self,
        ctx: ContextModel,
        answer: Result<Seq<ContributionModel>, ReaderError>,
    ) -> bool {
        true
    }

    /// The reader may answer so in pass 2, on the graph of pass 1: anything,
    /// unless the reader says more.
    open spec fn offers_edges(
        &self,
        ctx: ContextModel,
        graph: GraphModel,
        answer: Result<Seq<EdgeModel>, ReaderError>,
    ) -> bool {
        true
    }

    /// The name of the reader, for messages.
    fn id(&self) -> (r: &'static str)
        ensures
            self.names_itself(r@),
    ;

    /// Pass 1: the projects of the monorepo that the reader knows of.
    fn collect_projects(&self, ctx: &ReaderContext) -> (r: Result<
        Vec<ContributedProject>,
        ReaderError,
    >)
        ensures
            self.offers_projects(ctx@, project_answer(r)),
    ;

    /// Pass 2: the edges between the projects that all readers contributed.
    fn collect_edges(&self, ctx: &ReaderContext, view: &ResolutionView) -> (r: Result<
        Vec<ContributedEdge>,
        ReaderError,
    >)
        ensures
            self.offers_edges(ctx@, view@, edge_answer(r)),
    ;
}

/// What an answer in pass 1 stands for.
pub open spec fn project_answer(r: Result<Vec<ContributedProject>, ReaderError>) -> Result<
    Seq<ContributionModel>,
    ReaderError,
> {
    match r {
        Ok(list) => Ok(contributions(list@)),
        Err(e) => Err(e),
    }
}

/// What an answer in pass 2 stands for.
pub open spec fn edge_answer(r: Result<Vec<ContributedEdge>, ReaderError>) -> Result<
    Seq<EdgeModel>,
    ReaderError,
> {
    match r {
        Ok(list) => Ok(edge_models(list@)),
        Err(e) => Err(e),
    }
}

impl GraphModel {
    /// The id of the project that an endpoint refers to.
    pub open spec fn resolve(self, endpoint: EndpointModel) -> Option<Seq<char>> {
        match endpoint {
            EndpointModel::Id(id) => if self.has(id) {
                Some(id)
            } else {
                None
            },
            EndpointModel::Path(path) => {
                let id = project::id_of_path(self.root, path);
                if path::relative(path, self.root) is Some && self.has(id) {
                    Some(id)
                } else {
                    None
                }
            },
            EndpointModel::ForeignName { source, name } => if self.names.contains_key(
                (source, name),
            ) {
                Some(self.names[(source, name)])
            } else {
                None
            },
        }
    }

    /// The projects that a source contributed first.
    pub open spec fn of_source(self, source: SourceModel) -> Seq<ProjectModel> {
        of_source(self.projects, source)
    }
}

/// The projects of `list` with the given source.
pub open spec fn of_source(list: Seq<ProjectModel>, source: SourceModel) -> Seq<ProjectModel> {
    list.filter(|p: ProjectModel| p.source == source)
}

/// The names of the projects of `list` in the namespace of a source, each with
/// the id of the last project that has it.
pub open spec fn names_in(list: Seq<ProjectModel>, source: SourceModel) -> Map<
    Seq<char>,
    Seq<char>,
>
    decreases list.len(),
{
    if list.len() == 0 {
        Map::empty()
    } else {
        let before = names_in(list.drop_last(), source);
        let p = list.last();
        if p.foreign_names.contains_key(source) {
            before.insert(p.foreign_names[source], p.id)
        } else {
            before
        }
    }
}

/// Read-only view of the partial graph passed to `collect_edges`.
pub struct ResolutionView<'a> {
    pub(crate) graph: &'a ProjectGraph,
}

impl<'a> View for ResolutionView<'a> {
    type V = GraphModel;

    closed spec fn view(&self) -> GraphModel {
        self.graph@
    }
}

impl<'a> ResolutionView<'a> {
    #[verifier::type_invariant]
    spec fn of_well_formed(self) -> bool {
        self.graph.wf()
    }

    /// A view of the given graph.
    pub fn new(graph: &'a ProjectGraph) -> (r: Self)
        requires
            graph.wf(),
        ensures
            r@ == graph@,
    {
        ResolutionView { graph }
    }

    /// The id of the project that an endpoint refers to, if there is one.
    pub fn resolve(&self, endpoint: &EdgeEndpoint) -> (r: Option<ProjectId>)
        ensures
            optional_text(r) == self@.resolve(endpoint@),
    {
        proof {
            use_type_invariant(self);
        }
        match endpoint {
            EdgeEndpoint::Id(id) => if self.graph.project(id.as_str()).is_some() {
                Some(id.clone())
            } else {
                None
            },
            EdgeEndpoint::Path(dir) => {
                let root = self.graph.root().as_str();
                let id = project::project_id_from_path(root, dir.as_str());
                if path::is_under(dir.as_str(), root) && self.graph.project(id.as_str()).is_some() {
                    Some(id)
                } else {
                    None
                }
            },
            EdgeEndpoint::ForeignName { source, name } => match self.graph.resolve_by_foreign_name(
                source,
                name.as_str(),
            ) {
                Some(id) => Some(id.clone()),
                None => None,
            },
        }
    }

    /// The projects that the given source contributed first.
    pub fn projects_by_source(&self, source: &ProjectSource) -> (r: Vec<&Project>)
        ensures
            r@.map_values(|p: &Project| p@) == self@.of_source(source@),
    {
        let ghost g = self@;
        let ghost f = |p: &Project| p@;
        let ghost keep = |p: ProjectModel| p.source == source@;
        let list = self.graph.projects();
        let mut r: Vec<&Project> = Vec::new();
        let mut i: usize = 0;
        proof {
            assert(list@.map_values(f) =~= g.projects);
            assert(g.projects.take(0) =~= Seq::<ProjectModel>::empty());
            reveal(Seq::filter);
            assert(r@.map_values(f) =~= g.projects.take(0).filter(keep));
        }
        while i < list.len()
            invariant
                f == (|p: &Project| p@),
                keep == (|p: ProjectModel| p.source == source@),
                list@.map_values(f) == g.projects,
                i <= list@.len(),
                r@.map_values(f) == g.projects.take(i as int).filter(keep),
            decreases list@.len() - i,
        {
            let ghost before = r@;
            let project = list[i];
            proof {
                assert(list@.map_values(f)[i as int] == project@);
                let more = g.projects.take(i + 1);
                assert(more.drop_last() =~= g.projects.take(i as int));
                assert(more.last() == project@);
                reveal(Seq::filter);
            }
            if project.source.same(source) {
                r.push(project);
                proof {
                    assert(r@.map_values(f) =~= before.map_values(f).push(project@));
                }
            }
            i += 1;
        }
        proof {
            assert(g.projects.take(i as int) =~= g.projects);
        }
        r
    }

    /// The project with the given id.
    pub fn project(&self, id: &ProjectId) -> (r: Option<&Project>)
        ensures
            match r {
                Some(p) => self@.has(id@) && p@ == self@.projects[self@.place(id@)],
                None => !self@.has(id@),
            },
    {
        proof {
            use_type_invariant(self);
        }
        self.graph.project(id.as_str())
    }

    /// The names in the namespace of a source, each with the id of its
    /// project. Where projects share a name, it leads to the last of them.
    pub fn names_for(&self, source: &ProjectSource) -> (r: OrderedMap<String, ProjectId>)
        ensures
            source::text_values(r@) == names_in(self@.projects, source@),
    {
        let ghost g = self@;
        let ghost f = |p: &Project| p@;
        let list = self.graph.projects();
        let mut r: OrderedMap<String, ProjectId> = OrderedMap::new();
        let mut i: usize = 0;
        proof {
            assert(list@.map_values(f) =~= g.projects);
            assert(g.projects.take(0) =~= Seq::<ProjectModel>::empty());
            assert(source::text_values(r@) =~= Map::<Seq<char>, Seq<char>>::empty());
        }
        while i < list.len()
            invariant
                f == (|p: &Project| p@),
                list@.map_values(f) == g.projects,
                i <= list@.len(),
                source::text_values(r@) == names_in(g.projects.take(i as int), source@),
            decreases list@.len() - i,
        {
            let ghost before = r@;
            let project = list[i];
            proof {
                assert(list@.map_values(f)[i as int] == project@);
                let more = g.projects.take(i + 1);
                assert(more.drop_last() =~= g.projects.take(i as int));
                assert(more.last() == project@);
            }
            if let Some(name) = project.foreign_names.get(source) {
                r.insert(name.clone(), project.id.clone());
                proof {
                    assert(source::text_values(r@) =~= source::text_values(before).insert(
                        name@,
                        project@.id,
                    ));
                }
            }
            i += 1;
        }
        proof {
            assert(g.projects.take(i as int) =~= g.projects);
        }
        r
    }
}

/// A contribution says what its fields say, each of them.
pub proof fn law_contribution(c: ContributedProject, i: int)
    ensures
        c@.source == c.source@,
        c@.path_root == c.path_root@,
        c@.foreign_name is Some <==> c.foreign_name is Some,
        c.foreign_name is Some ==> c@.foreign_name->0 == (c.foreign_name->0)@,
        c@.sources.len() == c.sources@.len(),
        0 <= i < c.sources@.len() ==> c@.sources[i] == c.sources@[i]@,
        c@.tags.len() == c.tags@.len(),
        0 <= i < c.tags@.len() ==> c@.tags[i] == c.tags@[i]@,
{
}

/// What readers are restricted to is what the configuration says, every root of
/// it.
pub proof fn law_context(ctx: ReaderContext, i: int)
    ensures
        ctx@.root == ctx.monorepo_root@,
        ctx@.config_roots is Some <==> ctx.config_roots is Some,
        ctx.config_roots is Some ==> {
            &&& (ctx@.config_roots->0).len() == (ctx.config_roots->0)@.len()
            &&& 0 <= i < (ctx.config_roots->0)@.len() ==> (ctx@.config_roots->0)[i] == (
            ctx.config_roots->0)@[i]@
        },
{
}

/// An answer stands for every contribution and every edge that it lists, in their
/// order, or for the error that it is.
pub proof fn law_answer(
    projects: Result<Vec<ContributedProject>, ReaderError>,
    edges: Result<Vec<ContributedEdge>, ReaderError>,
    i: int,
)
    ensures
        match (projects, project_answer(projects)) {
            (Ok(list), Ok(models)) => {
                &&& models.len() == list@.len()
                &&& 0 <= i < list@.len() ==> models[i] == list@[i]@
            },
            (Err(e), Err(f)) => e == f,
            _ => false,
        },
        match (edges, edge_answer(edges)) {
            (Ok(list), Ok(models)) => {
                &&& models.len() == list@.len()
                &&& 0 <= i < list@.len() ==> models[i].from == list@[i].from@ && models[i].to
                    == list@[i].to@
            },
            (Err(e), Err(f)) => e == f,
            _ => false,
        },
{
}

} // verus!
