//! Assembly of the project graph from what readers contribute.
use vstd::prelude::*;

use crate::graph;
use crate::graph::GraphModel;
use crate::graph::ProjectGraph;
use crate::ordered::OrderedSet;
use crate::path;
use crate::project;
use crate::project::Project;
use crate::project::ProjectId;
use crate::project::ProjectModel;
use crate::reach;
use crate::reader;
use crate::reader::ContributedEdge;
use crate::reader::ContributedProject;
use crate::reader::ContributionModel;
use crate::reader::ContextModel;
use crate::reader::EdgeModel;
use crate::reader::MonorepoConfigReader;
use crate::reader::ReaderContext;
use crate::reader::ResolutionView;
use crate::readers::DefaultReader;
use crate::readers::mise_reader::MiseReader;
use crate::readers::npm_reader::NpmReader;
use crate::readers::nx_reader::NxReader;
use crate::readers::pnpm_reader::PnpmReader;
use crate::readers::turbo_reader::TurboReader;
use crate::source;
use crate::source::SourceModel;
use crate::text;

verus! {

/// The project that a contribution describes.
pub open spec fn contributed(root: Seq<char>, c: ContributionModel) -> ProjectModel {
    ProjectModel {
        id: project::id_of_path(root, c.path_root),
        root: c.path_root,
        source: c.source,
        sources: c.sources,
        tags: c.tags.to_set(),
        foreign_names: match c.foreign_name {
            Some(name) => Map::<SourceModel, Seq<char>>::empty().insert(c.source, name),
            None => Map::<SourceModel, Seq<char>>::empty(),
        },
    }
}

impl GraphModel {
    /// The graph with a contribution added. One whose path lies outside the
    /// monorepo is skipped.
    pub open spec fn with_contribution(self, c: ContributionModel) -> GraphModel {
        if path::relative(c.path_root, self.root) is Some {
            self.with_project(contributed(self.root, c))
        } else {
            self
        }
    }

    /// The graph with contributions added, in their order.
    pub open spec fn with_contributions(self, list: Seq<ContributionModel>) -> GraphModel
        decreases list.len(),
    {
        if list.len() == 0 {
            self
        } else {
            self.with_contributions(list.drop_last()).with_contribution(list.last())
        }
    }

    /// The ids at the ends of the edges that can be resolved, in their order.
    pub open spec fn resolved(self, list: Seq<EdgeModel>) -> Seq<(Seq<char>, Seq<char>)>
        decreases list.len(),
    {
        if list.len() == 0 {
            Seq::empty()
        } else {
            let before = self.resolved(list.drop_last());
            match (self.resolve(list.last().from), self.resolve(list.last().to)) {
                (Some(from), Some(to)) => before.push((from, to)),
                _ => before,
            }
        }
    }

    /// The graph with an edge for each pair of ids, in their order.
    pub open spec fn with_edges(self, pairs: Seq<(Seq<char>, Seq<char>)>) -> GraphModel
        decreases pairs.len(),
    {
        if pairs.len() == 0 {
            self
        } else {
            self.with_edges(pairs.drop_last()).with_edge(pairs.last().0, pairs.last().1)
        }
    }
}

/// The graph that contributions and edges make up in two passes.
pub open spec fn assembled(
    root: Seq<char>,
    projects: Seq<ContributionModel>,
    edges: Seq<EdgeModel>,
) -> GraphModel {
    let first = GraphModel::empty(root).with_contributions(projects);
    first.with_edges(first.resolved(edges))
}

/// Adding contributions keeps the graph well formed and its root.
pub proof fn lemma_with_contributions(g: GraphModel, list: Seq<ContributionModel>)
    requires
        g.wf(),
    ensures
        g.with_contributions(list).wf(),
        g.with_contributions(list).root == g.root,
        g.with_contributions(list).projects.len() >= g.projects.len(),
        g.with_contributions(list).edges == g.edges,
    decreases list.len(),
{
    if list.len() > 0 {
        let before = g.with_contributions(list.drop_last());
        lemma_with_contributions(g, list.drop_last());
        graph::lemma_with_project(before, contributed(g.root, list.last()));
    }
}

/// The contributions behind the first ones are added to their graph.
pub proof fn lemma_contributions_split(
    g: GraphModel,
    a: Seq<ContributionModel>,
    b: Seq<ContributionModel>,
)
    ensures
        g.with_contributions(a + b) == g.with_contributions(a).with_contributions(b),
    decreases b.len(),
{
    if b.len() == 0 {
        assert(a + b =~= a);
    } else {
        assert((a + b).drop_last() =~= a + b.drop_last());
        lemma_contributions_split(g, a, b.drop_last());
    }
}

/// Adding edges keeps the graph well formed, its projects, and its names.
pub proof fn lemma_with_edges(g: GraphModel, pairs: Seq<(Seq<char>, Seq<char>)>)
    requires
        g.wf(),
    ensures
        g.with_edges(pairs).wf(),
        g.with_edges(pairs).root == g.root,
        g.with_edges(pairs).projects == g.projects,
        g.with_edges(pairs).names == g.names,
        g.with_edges(pairs).lost == g.lost,
        g.with_edges(pairs).edges.len() >= g.edges.len(),
    decreases pairs.len(),
{
    if pairs.len() > 0 {
        let before = g.with_edges(pairs.drop_last());
        lemma_with_edges(g, pairs.drop_last());
        graph::lemma_with_edge(before, pairs.last().0, pairs.last().1);
    }
}

/// The edges behind the first ones are added to their graph.
pub proof fn lemma_edges_split(
    g: GraphModel,
    a: Seq<(Seq<char>, Seq<char>)>,
    b: Seq<(Seq<char>, Seq<char>)>,
)
    ensures
        g.with_edges(a + b) == g.with_edges(a).with_edges(b),
    decreases b.len(),
{
    if b.len() == 0 {
        assert(a + b =~= a);
    } else {
        assert((a + b).drop_last() =~= a + b.drop_last());
        lemma_edges_split(g, a, b.drop_last());
    }
}

/// The edges of two lists are resolved one list after the other.
pub proof fn lemma_resolved_split(g: GraphModel, a: Seq<EdgeModel>, b: Seq<EdgeModel>)
    ensures
        g.resolved(a + b) == g.resolved(a) + g.resolved(b),
    decreases b.len(),
{
    if b.len() == 0 {
        assert(a + b =~= a);
        assert(g.resolved(a) + g.resolved(b) =~= g.resolved(a));
    } else {
        assert((a + b).drop_last() =~= a + b.drop_last());
        assert((a + b).last() == b.last());
        lemma_resolved_split(g, a, b.drop_last());
        assert(g.resolved(a + b) =~= g.resolved(a) + g.resolved(b));
    }
}

/// The project that a contribution describes.
pub fn project_of(monorepo_root: &str, contribution: ContributedProject) -> (r: Project)
    ensures
        r@ == contributed(monorepo_root@, contribution@),
{
    let ghost c = contribution@;
    let ContributedProject { source, path_root, foreign_name, sources, tags } = contribution;
    let id = project::project_id_from_path(monorepo_root, path_root.as_str());
    let mut project = Project::new(id, path_root, source.clone());
    if let Some(name) = foreign_name {
        project.foreign_names.insert(source, name);
        proof {
            assert(project@.foreign_names =~= Map::<SourceModel, Seq<char>>::empty().insert(
                c.source,
                name@,
            ));
        }
    }
    project.sources = sources;
    project.tags = tag_set(tags);
    project
}

/// The set of the given tags.
fn tag_set(tags: Vec<String>) -> (r: OrderedSet<String>)
    ensures
        r@ == text::texts(tags@).to_set(),
{
    let ghost all = text::texts(tags@);
    let mut r: OrderedSet<String> = OrderedSet::new();
    let mut i: usize = 0;
    while i < tags.len()
        invariant
            all == text::texts(tags@),
            i <= tags@.len(),
            forall|t: Seq<char>| #[trigger] r@.contains(t) <==> all.take(i as int).contains(t),
        decreases tags@.len() - i,
    {
        let ghost before = r@;
        r.insert(tags[i].clone());
        proof {
            let some = all.take(i as int);
            let more = all.take(i + 1);
            assert(more =~= some.push(all[i as int]));
            assert(all[i as int] == tags@[i as int]@);
            assert forall|t: Seq<char>| #[trigger] r@.contains(t) <==> more.contains(t) by {
                if some.contains(t) {
                    let k = choose|k: int| 0 <= k < some.len() && some[k] == t;
                    assert(more[k] == t);
                }
                if t == all[i as int] {
                    assert(more[i as int] == t);
                }
                if more.contains(t) && t != all[i as int] {
                    let k = choose|k: int| 0 <= k < more.len() && more[k] == t;
                    assert(some[k] == t);
                }
            }
        }
        i += 1;
    }
    proof {
        assert(all.take(i as int) =~= all);
        assert(r@ =~= all.to_set());
    }
    r
}

/// What stops the assembly of a graph.
#[derive(Debug)]
pub enum BuildError {
    /// A reader failed to collect projects.
    Projects { reader: String, cause: reader::ReaderError },
    /// A reader failed to collect edges.
    Edges { reader: String, cause: reader::ReaderError },
    /// There are more projects than a graph can hold.
    TooManyProjects,
    /// There are more edges than a graph can hold.
    TooManyEdges,
}

/// The graph with contributions added, in their order. A contribution whose
/// path lies outside the monorepo would get an id that means nothing, so it is
/// skipped.
pub fn add_contributions(graph: ProjectGraph, list: Vec<ContributedProject>) -> (r: Result<
    ProjectGraph,
    BuildError,
>)
    requires
        graph.wf(),
        graph@.projects.len() <= u32::MAX,
    ensures
        ({
            let target = graph@.with_contributions(reader::contributions(list@));
            match r {
                Ok(out) => out.wf() && out@ == target && target.projects.len() <= u32::MAX,
                Err(e) => e is TooManyProjects && target.projects.len() > u32::MAX,
            }
        }),
{
    let ghost g = graph@;
    let ghost all = reader::contributions(list@);
    let ghost total = list@;
    let mut out = graph;
    proof {
        assert(all.take(0) =~= Seq::<ContributionModel>::empty());
    }
    for contribution in it: list
        invariant
            g.wf(),
            g == graph@,
            total == list@,
            it.seq() == total,
            all == reader::contributions(total),
            out.wf(),
            out@ == g.with_contributions(all.take(it.index() as int)),
            out@.projects.len() <= u32::MAX,
    {
        let ghost i = it.index() as int;
        let ghost before = out@;
        proof {
            assert(contribution == total[i]);
            assert(all[i] == contribution@);
            assert(all.take(i + 1).drop_last() =~= all.take(i));
            assert(all.take(i + 1).last() == contribution@);
            lemma_with_contributions(g, all.take(i));
            lemma_with_contributions(g, all.take(i + 1));
            lemma_with_contributions(g.with_contributions(all.take(i + 1)), all.skip(i + 1));
            assert(all =~= all.take(i + 1) + all.skip(i + 1));
            lemma_contributions_split(g, all.take(i + 1), all.skip(i + 1));
        }
        if path::strip_prefix(contribution.path_root.as_str(), out.root().as_str()).is_some() {
            let project = project_of(out.root().as_str(), contribution);
            if !out.has_room_for_project(project.id.as_str()) {
                return Err(BuildError::TooManyProjects);
            }
            out.upsert_project(project);
        }
    }
    proof {
        assert(all.take(all.len() as int) =~= all);
    }
    Ok(out)
}

/// The texts of pairs of strings.
pub open spec fn pair_texts(pairs: Seq<(ProjectId, ProjectId)>) -> Seq<(Seq<char>, Seq<char>)> {
    pairs.map_values(|pair: (ProjectId, ProjectId)| (pair.0@, pair.1@))
}

/// The ids at the ends of the edges that can be resolved, in their order.
pub fn resolve_edges(view: &ResolutionView, list: &Vec<ContributedEdge>) -> (r: Vec<
    (ProjectId, ProjectId),
>)
    ensures
        pair_texts(r@) == view@.resolved(reader::edge_models(list@)),
{
    let ghost g = view@;
    let ghost all = reader::edge_models(list@);
    let mut r: Vec<(ProjectId, ProjectId)> = Vec::new();
    let mut i: usize = 0;
    proof {
        assert(all.take(0) =~= Seq::<EdgeModel>::empty());
        assert(pair_texts(r@) =~= g.resolved(all.take(0)));
    }
    while i < list.len()
        invariant
            g == view@,
            all == reader::edge_models(list@),
            i <= list@.len(),
            pair_texts(r@) == g.resolved(all.take(i as int)),
        decreases list@.len() - i,
    {
        let ghost before = r@;
        let edge = &list[i];
        proof {
            assert(all[i as int] == edge@);
            assert(all.take(i + 1).drop_last() =~= all.take(i as int));
            assert(all.take(i + 1).last() == edge@);
        }
        match (view.resolve(&edge.from), view.resolve(&edge.to)) {
            (Some(from), Some(to)) => {
                r.push((from, to));
                proof {
                    assert(pair_texts(r@) =~= pair_texts(before).push((from@, to@)));
                }
            },
            _ => {},
        }
        i += 1;
    }
    proof {
        assert(all.take(i as int) =~= all);
    }
    r
}

/// The graph with an edge for each pair of ids, in their order.
pub fn add_edges(graph: ProjectGraph, pairs: &Vec<(ProjectId, ProjectId)>) -> (r: Result<
    ProjectGraph,
    BuildError,
>)
    requires
        graph.wf(),
        graph@.edges.len() <= u32::MAX,
    ensures
        ({
            let target = graph@.with_edges(pair_texts(pairs@));
            match r {
                Ok(out) => out.wf() && out@ == target && target.edges.len() <= u32::MAX,
                Err(e) => e is TooManyEdges && target.edges.len() > u32::MAX,
            }
        }),
{
    let ghost g = graph@;
    let ghost all = pair_texts(pairs@);
    let mut out = graph;
    let mut i: usize = 0;
    proof {
        assert(all.take(0) =~= Seq::<(Seq<char>, Seq<char>)>::empty());
    }
    while i < pairs.len()
        invariant
            g == graph@,
            g.wf(),
            all == pair_texts(pairs@),
            i <= pairs@.len(),
            out.wf(),
            out@ == g.with_edges(all.take(i as int)),
            out@.edges.len() <= u32::MAX,
        decreases pairs@.len() - i,
    {
        proof {
            assert(all[i as int] == (pairs@[i as int].0@, pairs@[i as int].1@));
            assert(all.take(i + 1).drop_last() =~= all.take(i as int));
            assert(all.take(i + 1).last() == all[i as int]);
            lemma_with_edges(g, all.take(i + 1));
            lemma_with_edges(g.with_edges(all.take(i + 1)), all.skip(i + 1));
            assert(all =~= all.take(i + 1) + all.skip(i + 1));
            lemma_edges_split(g, all.take(i + 1), all.skip(i + 1));
        }
        if !out.has_room_for_edge(pairs[i].0.as_str(), pairs[i].1.as_str()) {
            return Err(BuildError::TooManyEdges);
        }
        out.add_edge(pairs[i].0.as_str(), pairs[i].1.as_str());
        i += 1;
    }
    proof {
        assert(all.take(i as int) =~= all);
    }
    Ok(out)
}

/// A graph that was assembled, with the cycles in it noted.
fn with_cycles_noted(built: Result<ProjectGraph, BuildError>) -> (r: Result<
    ProjectGraph,
    BuildError,
>)
    requires
        built is Ok ==> (built->Ok_0).wf(),
    ensures
        match built {
            Ok(graph) => {
                &&& r is Ok
                &&& (r->Ok_0).wf()
                &&& (r->Ok_0)@ == graph@
                &&& (r->Ok_0).flagged() == reach::cyclic(graph@.edges)
            },
            Err(e) => r == Err::<ProjectGraph, BuildError>(e),
        },
{
    match built {
        Ok(graph) => {
            let mut graph = graph;
            graph.note_cycles();
            Ok(graph)
        },
        Err(e) => Err(e),
    }
}

/// The graph that contributions and edges make up in two passes.
pub fn assemble(
    monorepo_root: &str,
    projects: Vec<ContributedProject>,
    edges: &Vec<ContributedEdge>,
) -> (r: Result<ProjectGraph, BuildError>)
    ensures
        ({
            let first = GraphModel::empty(monorepo_root@).with_contributions(
                reader::contributions(projects@),
            );
            let target = assembled(
                monorepo_root@,
                reader::contributions(projects@),
                reader::edge_models(edges@),
            );
            match r {
                Ok(graph) => {
                    &&& graph.wf()
                    &&& graph@ == target
                    &&& graph.flagged() == reach::cyclic(target.edges)
                },
                Err(BuildError::TooManyProjects) => first.projects.len() > u32::MAX,
                Err(BuildError::TooManyEdges) => first.projects.len() <= u32::MAX
                    && target.edges.len() > u32::MAX,
                Err(_) => false,
            }
        }),
{
    let ghost start = GraphModel::empty(monorepo_root@);
    proof {
        graph::lemma_empty(monorepo_root@);
        lemma_with_contributions(start, reader::contributions(projects@));
    }
    let graph = match add_contributions(ProjectGraph::new(monorepo_root.to_owned()), projects) {
        Ok(graph) => graph,
        Err(e) => {
            return Err(e);
        },
    };
    let pairs = resolve_edges(&ResolutionView::new(&graph), edges);
    with_cycles_noted(add_edges(graph, &pairs))
}

/// Each reader may have contributed the list at its place.
pub open spec fn may_contribute<R: MonorepoConfigReader>(
    readers: Seq<R>,
    ctx: ContextModel,
    lists: Seq<Seq<ContributionModel>>,
) -> bool {
    &&& lists.len() <= readers.len()
    &&& forall|i: int|
        0 <= i < lists.len() ==> readers[i].offers_projects(ctx, Ok(#[trigger] lists[i]))
}

/// Each reader may have emitted the edges at its place, on the graph `g`.
pub open spec fn may_emit<R: MonorepoConfigReader>(
    readers: Seq<R>,
    ctx: ContextModel,
    g: GraphModel,
    lists: Seq<Seq<EdgeModel>>,
) -> bool {
    &&& lists.len() <= readers.len()
    &&& forall|i: int|
        0 <= i < lists.len() ==> readers[i].offers_edges(ctx, g, Ok(#[trigger] lists[i]))
}

/// The graph of pass 1 for the given contributions.
pub open spec fn first_pass(root: Seq<char>, lists: Seq<Seq<ContributionModel>>) -> GraphModel {
    GraphModel::empty(root).with_contributions(lists.flatten_alt())
}

/// Pass 1: the projects that the readers contribute. The ghost value holds what
/// they answered, up to the first one that failed.
fn collect_all_projects<R: MonorepoConfigReader>(ctx: &ReaderContext, readers: &[R]) -> (r: (
    Result<ProjectGraph, BuildError>,
    Ghost<Seq<Seq<ContributionModel>>>,
))
    ensures
        may_contribute(readers@, ctx@, r.1@),
        match r.0 {
            Ok(graph) => {
                &&& r.1@.len() == readers@.len()
                &&& graph.wf()
                &&& graph@ == first_pass(ctx@.root, r.1@)
                &&& graph@.projects.len() <= u32::MAX
            },
            Err(BuildError::Projects { reader, cause }) => {
                &&& first_pass(ctx@.root, r.1@).projects.len() <= u32::MAX
                &&& r.1@.len() < readers@.len()
                &&& readers@[r.1@.len() as int].names_itself(reader@)
                &&& readers@[r.1@.len() as int].offers_projects(ctx@, Err(cause))
            },
            Err(e) => e is TooManyProjects && first_pass(ctx@.root, r.1@).projects.len()
                > u32::MAX,
        },
{
    let ghost root = ctx@.root;
    let mut graph = ProjectGraph::new(ctx.monorepo_root.clone());
    let ghost mut lists = Seq::<Seq<ContributionModel>>::empty();
    let mut i: usize = 0;
    while i < readers.len()
        invariant
            root == ctx@.root,
            i <= readers@.len(),
            lists.len() == i,
            may_contribute(readers@, ctx@, lists),
            graph.wf(),
            graph@ == first_pass(root, lists),
            graph@.projects.len() <= u32::MAX,
        decreases readers@.len() - i,
    {
        let reader = &readers[i];
        let name = reader.id();
        let list = match reader.collect_projects(ctx) {
            Ok(list) => list,
            Err(cause) => {
                return (
                    Err(BuildError::Projects { reader: name.to_owned(), cause }),
                    Ghost(lists),
                );
            },
        };
        let ghost before = lists;
        proof {
            lists = before.push(reader::contributions(list@));
            assert(lists.drop_last() =~= before);
            lemma_contributions_split(
                GraphModel::empty(root),
                before.flatten_alt(),
                reader::contributions(list@),
            );
            assert(first_pass(root, lists) == graph@.with_contributions(
                reader::contributions(list@),
            ));
            assert forall|k: int| 0 <= k < lists.len() implies readers@[k].offers_projects(
                ctx@,
                Ok(#[trigger] lists[k]),
            ) by {
                if k < before.len() {
                    assert(lists[k] == before[k]);
                }
            }
        }
        graph = match add_contributions(graph, list) {
            Ok(graph) => graph,
            Err(e) => {
                return (Err(e), Ghost(lists));
            },
        };
        i += 1;
    }
    (Ok(graph), Ghost(lists))
}

/// Pass 2: the edges that the readers emit and that can be resolved. The ghost
/// value holds what they answered, up to the first one that failed.
fn collect_all_edges<R: MonorepoConfigReader>(
    ctx: &ReaderContext,
    readers: &[R],
    view: &ResolutionView,
) -> (r: (Result<Vec<(ProjectId, ProjectId)>, BuildError>, Ghost<Seq<Seq<EdgeModel>>>))
    ensures
        may_emit(readers@, ctx@, view@, r.1@),
        match r.0 {
            Ok(pairs) => {
                &&& r.1@.len() == readers@.len()
                &&& pair_texts(pairs@) == view@.resolved(r.1@.flatten_alt())
            },
            Err(BuildError::Edges { reader, cause }) => {
                &&& r.1@.len() < readers@.len()
                &&& readers@[r.1@.len() as int].names_itself(reader@)
                &&& readers@[r.1@.len() as int].offers_edges(ctx@, view@, Err(cause))
            },
            Err(_) => false,
        },
{
    let ghost g = view@;
    let mut pairs: Vec<(ProjectId, ProjectId)> = Vec::new();
    let ghost mut lists = Seq::<Seq<EdgeModel>>::empty();
    let mut i: usize = 0;
    proof {
        assert(pair_texts(pairs@) =~= g.resolved(lists.flatten_alt()));
    }
    while i < readers.len()
        invariant
            g == view@,
            i <= readers@.len(),
            lists.len() == i,
            may_emit(readers@, ctx@, g, lists),
            pair_texts(pairs@) == g.resolved(lists.flatten_alt()),
        decreases readers@.len() - i,
    {
        let reader = &readers[i];
        let name = reader.id();
        let list = match reader.collect_edges(ctx, view) {
            Ok(list) => list,
            Err(cause) => {
                return (Err(BuildError::Edges { reader: name.to_owned(), cause }), Ghost(lists));
            },
        };
        let ghost before = lists;
        let ghost collected = pairs@;
        let mut more = resolve_edges(view, &list);
        let ghost resolved = more@;
        pairs.append(&mut more);
        proof {
            let edges = reader::edge_models(list@);
            lists = before.push(edges);
            assert(lists.drop_last() =~= before);
            lemma_resolved_split(g, before.flatten_alt(), edges);
            assert(pair_texts(pairs@) =~= pair_texts(collected) + pair_texts(resolved));
            assert forall|k: int| 0 <= k < lists.len() implies readers@[k].offers_edges(
                ctx@,
                g,
                Ok(#[trigger] lists[k]),
            ) by {
                if k < before.len() {
                    assert(lists[k] == before[k]);
                }
            }
        }
        i += 1;
    }
    (Ok(pairs), Ghost(lists))
}

/// The readers may have answered so that `graph` is what two passes over them
/// give.
pub open spec fn is_build<R: MonorepoConfigReader>(
    readers: Seq<R>,
    ctx: ContextModel,
    graph: GraphModel,
) -> bool {
    exists|projects: Seq<Seq<ContributionModel>>, edges: Seq<Seq<EdgeModel>>|
        {
            &&& #[trigger] may_contribute(readers, ctx, projects)
            &&& projects.len() == readers.len()
            &&& #[trigger] may_emit(readers, ctx, first_pass(ctx.root, projects), edges)
            &&& edges.len() == readers.len()
            &&& graph == assembled(ctx.root, projects.flatten_alt(), edges.flatten_alt())
        }
}

/// The readers may have answered so that the build fails with `e`. An error of
/// a reader is that of the first one to fail: the readers before it answered.
pub open spec fn is_failure<R: MonorepoConfigReader>(
    readers: Seq<R>,
    ctx: ContextModel,
    e: BuildError,
) -> bool {
    match e {
        BuildError::Projects { reader, cause } => exists|projects: Seq<Seq<ContributionModel>>|
            {
                &&& #[trigger] may_contribute(readers, ctx, projects)
                &&& first_pass(ctx.root, projects).projects.len() <= u32::MAX
                &&& projects.len() < readers.len()
                &&& readers[projects.len() as int].names_itself(reader@)
                &&& readers[projects.len() as int].offers_projects(ctx, Err(cause))
            },
        BuildError::Edges { reader, cause } => exists|
            projects: Seq<Seq<ContributionModel>>,
            edges: Seq<Seq<EdgeModel>>,
        |
            {
                &&& #[trigger] may_contribute(readers, ctx, projects)
                &&& projects.len() == readers.len()
                &&& first_pass(ctx.root, projects).projects.len() <= u32::MAX
                &&& #[trigger] may_emit(readers, ctx, first_pass(ctx.root, projects), edges)
                &&& edges.len() < readers.len()
                &&& readers[edges.len() as int].names_itself(reader@)
                &&& readers[edges.len() as int].offers_edges(
                    ctx,
                    first_pass(ctx.root, projects),
                    Err(cause),
                )
            },
        BuildError::TooManyProjects => exists|projects: Seq<Seq<ContributionModel>>|
            {
                &&& #[trigger] may_contribute(readers, ctx, projects)
                &&& first_pass(ctx.root, projects).projects.len() > u32::MAX
            },
        BuildError::TooManyEdges => exists|
            projects: Seq<Seq<ContributionModel>>,
            edges: Seq<Seq<EdgeModel>>,
        |
            {
                &&& #[trigger] may_contribute(readers, ctx, projects)
                &&& projects.len() == readers.len()
                &&& first_pass(ctx.root, projects).projects.len() <= u32::MAX
                &&& #[trigger] may_emit(readers, ctx, first_pass(ctx.root, projects), edges)
                &&& edges.len() == readers.len()
                &&& assembled(
                    ctx.root,
                    projects.flatten_alt(),
                    edges.flatten_alt(),
                ).edges.len() > u32::MAX
            },
    }
}

/// Two-pass orchestrator that goes through every registered reader to assemble
/// the project graph.
///
/// In pass 1 each reader contributes projects; those with the same id are
/// merged. In pass 2 each reader emits edges, and those that cannot be resolved
/// are dropped. The first reader to fail stops the build. A graph with cycles is
/// not rejected: `ProjectGraph::cycle_found` says whether it has any, and
/// `ProjectGraph::cycles` which.
pub fn build_project_graph<R: MonorepoConfigReader>(ctx: &ReaderContext, readers: &[R]) -> (r:
    Result<ProjectGraph, BuildError>)
    ensures
        match r {
            Ok(graph) => {
                &&& graph.wf()
                &&& is_build(readers@, ctx@, graph@)
                &&& graph.flagged() == reach::cyclic(graph@.edges)
            },
            Err(e) => is_failure(readers@, ctx@, e),
        },
{
    let (first, Ghost(projects)) = collect_all_projects(ctx, readers);
    let graph = match first {
        Ok(graph) => graph,
        Err(e) => {
            return Err(e);
        },
    };
    proof {
        graph::lemma_empty(ctx@.root);
        lemma_with_contributions(GraphModel::empty(ctx@.root), projects.flatten_alt());
    }
    let (second, Ghost(edges)) = collect_all_edges(ctx, readers, &ResolutionView::new(&graph));
    let pairs = match second {
        Ok(pairs) => pairs,
        Err(e) => {
            return Err(e);
        },
    };
    with_cycles_noted(add_edges(graph, &pairs))
}

/// Default reader set: every reader of the crate, in an order in which the mise
/// reader, which has the most to say about projects, comes first.
pub fn default_readers(
    mise: MiseReader,
    nx: NxReader,
    turbo: TurboReader,
    pnpm: PnpmReader,
    npm: NpmReader,
) -> (r: Vec<DefaultReader>)
    ensures
        r@ == seq![
            DefaultReader::Mise(mise),
            DefaultReader::Nx(nx),
            DefaultReader::Turbo(turbo),
            DefaultReader::Pnpm(pnpm),
            DefaultReader::Npm(npm),
        ],
{
    let mut r: Vec<DefaultReader> = Vec::new();
    r.push(DefaultReader::Mise(mise));
    r.push(DefaultReader::Nx(nx));
    r.push(DefaultReader::Turbo(turbo));
    r.push(DefaultReader::Pnpm(pnpm));
    r.push(DefaultReader::Npm(npm));
    r
}

} // verus!
