//! Projects of an nx workspace.
use vstd::prelude::*;

use crate::graph::GraphModel;
use crate::lists;
use crate::path;
use crate::reader;
use crate::reader::ContextModel;
use crate::reader::ContributedEdge;
use crate::reader::ContributedProject;
use crate::reader::ContributionModel;
use crate::reader::EdgeEndpoint;
use crate::reader::EdgeModel;
use crate::reader::EndpointModel;
use crate::reader::MonorepoConfigReader;
use crate::reader::ReaderContext;
use crate::reader::ReaderError;
use crate::reader::ResolutionView;
use crate::source::ProjectSource;
use crate::source::SourceModel;
use crate::text;

verus! {

/// What a `project.json` file says of its project.
#[derive(Debug, Clone)]
pub struct ProjectJson {
    pub name: Option<String>,
    pub tags: Vec<String>,
    pub implicit_dependencies: Vec<String>,
    /// nx lets the sources of a project lie somewhere else than its root.
    pub source_root: Option<String>,
}

/// A directory with a `project.json`, and what it says where it can be read.
#[derive(Debug, Clone)]
pub struct NxDirectory {
    pub dir: String,
    pub parsed: Option<ProjectJson>,
}

/// The source globs of a project: everything under its source root, where it
/// has one.
pub open spec fn nx_sources(source_root: Option<String>) -> Seq<Seq<char>> {
    match source_root {
        Some(root) => seq![root@ + "/**/*"@],
        None => Seq::empty(),
    }
}

/// What a directory contributes.
pub open spec fn nx_project(d: NxDirectory) -> Seq<ContributionModel> {
    match d.parsed {
        Some(parsed) => seq![
            ContributionModel {
                source: SourceModel::Nx,
                path_root: d.dir@,
                foreign_name: reader::optional_text(parsed.name),
                sources: nx_sources(parsed.source_root),
                tags: text::texts(parsed.tags@),
            },
        ],
        None => Seq::empty(),
    }
}

/// What a dependency refers to: a project by its nx name where one is
/// registered, and else a path from the monorepo root.
pub open spec fn nx_target(root: Seq<char>, g: GraphModel, dep: Seq<char>) -> EndpointModel {
    if g.names.contains_key((SourceModel::Nx, dep)) {
        EndpointModel::ForeignName { source: SourceModel::Nx, name: dep }
    } else {
        EndpointModel::Path(path::joined(root, dep))
    }
}

/// The edge for a dependency. One that begins with `!` is negated and makes
/// none.
pub open spec fn nx_edge(root: Seq<char>, g: GraphModel, dir: Seq<char>, dep: Seq<char>) -> Seq<
    EdgeModel,
> {
    if dep.len() > 0 && dep[0] == '!' {
        Seq::empty()
    } else {
        seq![EdgeModel { from: EndpointModel::Path(dir), to: nx_target(root, g, dep) }]
    }
}

/// The edges of a directory, in the order of its implicit dependencies.
pub open spec fn nx_edges(root: Seq<char>, g: GraphModel, d: NxDirectory) -> Seq<EdgeModel> {
    match d.parsed {
        Some(parsed) => lists::gathered(
            text::texts(parsed.implicit_dependencies@),
            |dep: Seq<char>| nx_edge(root, g, d.dir@, dep),
        ),
        None => Seq::empty(),
    }
}

/// Reads nx workspace projects: each `project.json` becomes one project, by its
/// `name` in the `Nx` namespace. `implicitDependencies` refer to other projects
/// by their nx names or paths.
#[derive(Debug, Clone)]
pub struct NxReader {
    pub found: Vec<NxDirectory>,
}

impl NxReader {
    /// The file that declares a project.
    pub fn markers() -> (r: [&'static str; 1])
        ensures
            r@.len() == 1,
            r@[0]@ == "project.json"@,
    {
        ["project.json"]
    }

    /// Emits the edges of a directory.
    fn emit(
        ctx: &ReaderContext,
        view: &ResolutionView,
        dir: &String,
        deps: &Vec<String>,
        out: &mut Vec<ContributedEdge>,
    )
        ensures
            reader::edge_models(final(out)@) == reader::edge_models(old(out)@) + lists::gathered(
                text::texts(deps@),
                |dep: Seq<char>| nx_edge(ctx@.root, view@, dir@, dep),
            ),
    {
        let ghost start = reader::edge_models(out@);
        let ghost all = text::texts(deps@);
        let ghost f = |dep: Seq<char>| nx_edge(ctx@.root, view@, dir@, dep);
        let mut i: usize = 0;
        proof {
            lists::lemma_gathered_ends(all, f);
            assert(reader::edge_models(out@) =~= start + Seq::<EdgeModel>::empty());
        }
        while i < deps.len()
            invariant
                all == text::texts(deps@),
                f == (|dep: Seq<char>| nx_edge(ctx@.root, view@, dir@, dep)),
                i <= deps@.len(),
                reader::edge_models(out@) == start + lists::gathered(all.take(i as int), f),
            decreases deps@.len() - i,
        {
            let ghost before = out@;
            let dep = &deps[i];
            proof {
                lists::lemma_gathered_next(all, i as int, f);
                assert(all[i as int] == dep@);
            }
            if !text::starts_with_char(dep.as_str(), '!') {
                let named = EdgeEndpoint::ForeignName {
                    source: ProjectSource::Nx,
                    name: dep.clone(),
                };
                let to = if view.resolve(&named).is_some() {
                    named
                } else {
                    EdgeEndpoint::Path(path::join(ctx.monorepo_root.as_str(), dep.as_str()))
                };
                out.push(ContributedEdge { from: EdgeEndpoint::Path(dir.clone()), to });
            }
            proof {
                assert(reader::edge_models(out@) =~= reader::edge_models(before) + f(dep@));
                assert(reader::edge_models(out@) =~= start + lists::gathered(
                    all.take(i + 1),
                    f,
                ));
            }
            i += 1;
        }
        proof {
            lists::lemma_gathered_ends(all, f);
        }
    }
}

impl MonorepoConfigReader for NxReader {
    open spec fn names_itself(&self, name: Seq<char>) -> bool {
        name == "nx"@
    }

    open spec fn offers_projects(
        &self,
        ctx: ContextModel,
        answer: Result<Seq<ContributionModel>, ReaderError>,
    ) -> bool {
        answer == Ok::<Seq<ContributionModel>, ReaderError>(
            lists::gathered(self.found@, |d: NxDirectory| nx_project(d)),
        )
    }

    open spec fn offers_edges(
        &self,
        ctx: ContextModel,
        graph: GraphModel,
        answer: Result<Seq<EdgeModel>, ReaderError>,
    ) -> bool {
        answer == Ok::<Seq<EdgeModel>, ReaderError>(
            lists::gathered(self.found@, |d: NxDirectory| nx_edges(ctx.root, graph, d)),
        )
    }

    fn id(&self) -> (r: &'static str) {
        "nx"
    }

    fn collect_projects(&self, ctx: &ReaderContext) -> (r: Result<
        Vec<ContributedProject>,
        ReaderError,
    >) {
        let ghost all = self.found@;
        let ghost f = |d: NxDirectory| nx_project(d);
        let mut out: Vec<ContributedProject> = Vec::new();
        let mut i: usize = 0;
        proof {
            lists::lemma_gathered_ends(all, f);
            assert(reader::contributions(out@) =~= Seq::<ContributionModel>::empty());
        }
        while i < self.found.len()
            invariant
                all == self.found@,
                f == (|d: NxDirectory| nx_project(d)),
                i <= all.len(),
                reader::contributions(out@) == lists::gathered(all.take(i as int), f),
            decreases all.len() - i,
        {
            let ghost before = out@;
            let directory = &self.found[i];
            proof {
                lists::lemma_gathered_next(all, i as int, f);
            }
            if let Some(parsed) = &directory.parsed {
                let mut sources: Vec<String> = Vec::new();
                if let Some(root) = &parsed.source_root {
                    sources.push(text::join_text(root.as_str(), "/**/*"));
                }
                proof {
                    assert(text::texts(sources@) =~= nx_sources(parsed.source_root));
                }
                out.push(
                    ContributedProject {
                        source: ProjectSource::Nx,
                        path_root: directory.dir.clone(),
                        foreign_name: text::clone_optional(&parsed.name),
                        sources,
                        tags: text::clone_texts(&parsed.tags),
                    },
                );
            }
            proof {
                assert(reader::contributions(out@) =~= reader::contributions(before) + f(
                    *directory,
                ));
            }
            i += 1;
        }
        proof {
            lists::lemma_gathered_ends(all, f);
        }
        Ok(out)
    }

    fn collect_edges(&self, ctx: &ReaderContext, view: &ResolutionView) -> (r: Result<
        Vec<ContributedEdge>,
        ReaderError,
    >) {
        let ghost all = self.found@;
        let ghost root = ctx@.root;
        let ghost g = view@;
        let ghost f = |d: NxDirectory| nx_edges(root, g, d);
        let mut out: Vec<ContributedEdge> = Vec::new();
        let mut i: usize = 0;
        proof {
            lists::lemma_gathered_ends(all, f);
            assert(reader::edge_models(out@) =~= Seq::<EdgeModel>::empty());
        }
        while i < self.found.len()
            invariant
                all == self.found@,
                root == ctx@.root,
                g == view@,
                f == (|d: NxDirectory| nx_edges(root, g, d)),
                i <= all.len(),
                reader::edge_models(out@) == lists::gathered(all.take(i as int), f),
            decreases all.len() - i,
        {
            let ghost before = reader::edge_models(out@);
            let directory = &self.found[i];
            proof {
                lists::lemma_gathered_next(all, i as int, f);
            }
            if let Some(parsed) = &directory.parsed {
                Self::emit(ctx, view, &directory.dir, &parsed.implicit_dependencies, &mut out);
            }
            proof {
                assert(reader::edge_models(out@) =~= before + f(*directory));
            }
            i += 1;
        }
        proof {
            lists::lemma_gathered_ends(all, f);
        }
        Ok(out)
    }
}

/// Every directory with a `project.json` that can be read is contributed, as the
/// file says, and nothing else is. Where the file names a source root, the
/// project has everything below it as its only source glob.
pub proof fn law_contributes_every_project(
    reader: NxReader,
    ctx: ContextModel,
    list: Seq<ContributionModel>,
    c: ContributionModel,
)
    requires
        reader.offers_projects(ctx, Ok(list)),
    ensures
        list.contains(c) <==> exists|d: int|
            {
                let file = (#[trigger] reader.found@[d]).parsed->0;
                &&& 0 <= d < reader.found@.len()
                &&& reader.found@[d].parsed is Some
                &&& c.path_root == reader.found@[d].dir@
                &&& c.source == SourceModel::Nx
                &&& c.foreign_name == reader::optional_text(file.name)
                &&& c.tags == text::texts(file.tags@)
                &&& match file.source_root {
                    Some(root) => c.sources.len() == 1 && c.sources[0] == root@ + seq![
                        '/',
                        '*',
                        '*',
                        '/',
                        '*',
                    ],
                    None => c.sources.len() == 0,
                }
            },
{
    let x = Ok::<Seq<ContributionModel>, ReaderError>(list);
    assert(x->Ok_0 == list);
    reveal_strlit("/**/*");
    assert("/**/*"@ =~= seq!['/', '*', '*', '/', '*']);
    let f = |d: NxDirectory| nx_project(d);
    lists::lemma_gathered_contains(reader.found@, f, c);
    if list.contains(c) {
        let d = choose|d: int|
            0 <= d < reader.found@.len() && (#[trigger] f(reader.found@[d])).contains(c);
        assert(nx_project(reader.found@[d]).contains(c));
    }
    if exists|d: int|
        {
            let file = (#[trigger] reader.found@[d]).parsed->0;
            &&& 0 <= d < reader.found@.len()
            &&& reader.found@[d].parsed is Some
            &&& c.path_root == reader.found@[d].dir@
            &&& c.source == SourceModel::Nx
            &&& c.foreign_name == reader::optional_text(file.name)
            &&& c.tags == text::texts(file.tags@)
            &&& match file.source_root {
                Some(root) => c.sources.len() == 1 && c.sources[0] == root@ + seq![
                    '/',
                    '*',
                    '*',
                    '/',
                    '*',
                ],
                None => c.sources.len() == 0,
            }
        } {
        let d = choose|d: int|
            {
                let file = (#[trigger] reader.found@[d]).parsed->0;
                &&& 0 <= d < reader.found@.len()
                &&& reader.found@[d].parsed is Some
                &&& c.path_root == reader.found@[d].dir@
                &&& c.source == SourceModel::Nx
                &&& c.foreign_name == reader::optional_text(file.name)
                &&& c.tags == text::texts(file.tags@)
                &&& match file.source_root {
                    Some(root) => c.sources.len() == 1 && c.sources[0] == root@ + seq![
                        '/',
                        '*',
                        '*',
                        '/',
                        '*',
                    ],
                    None => c.sources.len() == 0,
                }
            };
        let given = f(reader.found@[d]);
        assert(c.sources =~= given[0].sources);
        assert(given[0] == c);
        assert(given.contains(c));
    }
}

/// What the directories of two lists contribute comes one list after the other.
pub proof fn law_contributions_in_order(
    a: NxReader,
    b: NxReader,
    both: NxReader,
    ctx: ContextModel,
    x: Seq<ContributionModel>,
    y: Seq<ContributionModel>,
    z: Seq<ContributionModel>,
)
    requires
        both.found@ == a.found@ + b.found@,
        a.offers_projects(ctx, Ok(x)),
        b.offers_projects(ctx, Ok(y)),
        both.offers_projects(ctx, Ok(z)),
    ensures
        z == x + y,
{
    let f = |d: NxDirectory| nx_project(d);
    lists::lemma_gathered_split(a.found@, b.found@, f);
    let p = Ok::<Seq<ContributionModel>, ReaderError>(x);
    let q = Ok::<Seq<ContributionModel>, ReaderError>(y);
    let r = Ok::<Seq<ContributionModel>, ReaderError>(z);
    assert(p->Ok_0 == x && q->Ok_0 == y && r->Ok_0 == z);
}

/// Some implicit dependency of the file is `dep`.
pub open spec fn is_dependency(file: ProjectJson, dep: Seq<char>) -> bool {
    exists|n: int|
        0 <= n < file.implicit_dependencies@.len() && (#[trigger] file.implicit_dependencies@[n])@
            == dep
}

/// Every implicit dependency of every directory that is not negated by a leading
/// `!` makes an edge from that directory, and nothing else does. It leads to the
/// project of that name where one is registered, and else to a path from the
/// monorepo root.
pub proof fn law_dependencies_make_edges(
    reader: NxReader,
    ctx: ContextModel,
    g: GraphModel,
    edges: Seq<EdgeModel>,
    e: EdgeModel,
)
    requires
        reader.offers_edges(ctx, g, Ok(edges)),
    ensures
        edges.contains(e) <==> exists|d: int, dep: Seq<char>|
            {
                &&& 0 <= d < reader.found@.len()
                &&& reader.found@[d].parsed is Some
                &&& #[trigger] is_dependency(reader.found@[d].parsed->0, dep)
                &&& dep.len() == 0 || dep[0] != '!'
                &&& e.from == EndpointModel::Path(reader.found@[d].dir@)
                &&& if g.names.contains_key((SourceModel::Nx, dep)) {
                    e.to == (EndpointModel::ForeignName { source: SourceModel::Nx, name: dep })
                } else {
                    e.to == EndpointModel::Path(path::joined(ctx.root, dep))
                }
            },
{
    let x = Ok::<Seq<EdgeModel>, ReaderError>(edges);
    assert(x->Ok_0 == edges);
    let f = |d: NxDirectory| nx_edges(ctx.root, g, d);
    lists::lemma_gathered_contains(reader.found@, f, e);
    if edges.contains(e) {
        let d = choose|d: int|
            0 <= d < reader.found@.len() && (#[trigger] f(reader.found@[d])).contains(e);
        let own = reader.found@[d];
        assert(nx_edges(ctx.root, g, own).contains(e));
        let deps = text::texts((own.parsed->0).implicit_dependencies@);
        let one = |dep: Seq<char>| nx_edge(ctx.root, g, own.dir@, dep);
        lists::lemma_gathered_contains(deps, one, e);
        let n = choose|n: int| 0 <= n < deps.len() && (#[trigger] one(deps[n])).contains(e);
        let dep = deps[n];
        assert(nx_edge(ctx.root, g, own.dir@, dep).contains(e));
        assert((own.parsed->0).implicit_dependencies@[n]@ == dep);
        assert(is_dependency(reader.found@[d].parsed->0, dep));
    }
    if exists|d: int, dep: Seq<char>|
        {
            &&& 0 <= d < reader.found@.len()
            &&& reader.found@[d].parsed is Some
            &&& #[trigger] is_dependency(reader.found@[d].parsed->0, dep)
            &&& dep.len() == 0 || dep[0] != '!'
            &&& e.from == EndpointModel::Path(reader.found@[d].dir@)
            &&& if g.names.contains_key((SourceModel::Nx, dep)) {
                e.to == (EndpointModel::ForeignName { source: SourceModel::Nx, name: dep })
            } else {
                e.to == EndpointModel::Path(path::joined(ctx.root, dep))
            }
        } {
        let (d, dep) = choose|d: int, dep: Seq<char>|
            {
                &&& 0 <= d < reader.found@.len()
                &&& reader.found@[d].parsed is Some
                &&& #[trigger] is_dependency(reader.found@[d].parsed->0, dep)
                &&& dep.len() == 0 || dep[0] != '!'
                &&& e.from == EndpointModel::Path(reader.found@[d].dir@)
                &&& if g.names.contains_key((SourceModel::Nx, dep)) {
                    e.to == (EndpointModel::ForeignName { source: SourceModel::Nx, name: dep })
                } else {
                    e.to == EndpointModel::Path(path::joined(ctx.root, dep))
                }
            };
        let own = reader.found@[d];
        let file = own.parsed->0;
        let n = choose|n: int|
            0 <= n < file.implicit_dependencies@.len() && (
            #[trigger] file.implicit_dependencies@[n])@ == dep;
        let deps = text::texts(file.implicit_dependencies@);
        let one = |dep: Seq<char>| nx_edge(ctx.root, g, own.dir@, dep);
        assert(deps[n] == dep);
        assert(one(deps[n])[0] == e);
        assert(one(deps[n]).contains(e));
        lists::lemma_gathered_contains(deps, one, e);
        assert(f(reader.found@[d]).contains(e));
    }
}

/// The reader always has an answer, and a directory contributes one project at
/// most.
pub proof fn law_answers(
    reader: NxReader,
    ctx: ContextModel,
    g: GraphModel,
    projects: Result<Seq<ContributionModel>, ReaderError>,
    edges: Result<Seq<EdgeModel>, ReaderError>,
)
    requires
        reader.offers_projects(ctx, projects),
        reader.offers_edges(ctx, g, edges),
    ensures
        projects is Ok,
        (projects->Ok_0).len() <= reader.found@.len(),
        edges is Ok,
{
    let f = |d: NxDirectory| nx_project(d);
    lists::lemma_gathered_len(reader.found@, f);
}

/// The edges of the directories of two lists come one list after the other.
pub proof fn law_edges_in_order(
    a: NxReader,
    b: NxReader,
    both: NxReader,
    ctx: ContextModel,
    g: GraphModel,
    x: Seq<EdgeModel>,
    y: Seq<EdgeModel>,
    z: Seq<EdgeModel>,
)
    requires
        both.found@ == a.found@ + b.found@,
        a.offers_edges(ctx, g, Ok(x)),
        b.offers_edges(ctx, g, Ok(y)),
        both.offers_edges(ctx, g, Ok(z)),
    ensures
        z == x + y,
{
    let f = |d: NxDirectory| nx_edges(ctx.root, g, d);
    lists::lemma_gathered_split(a.found@, b.found@, f);
    let p = Ok::<Seq<EdgeModel>, ReaderError>(x);
    let q = Ok::<Seq<EdgeModel>, ReaderError>(y);
    let r = Ok::<Seq<EdgeModel>, ReaderError>(z);
    assert(p->Ok_0 == x && q->Ok_0 == y && r->Ok_0 == z);
}

/// A single directory makes one edge at most for each of its implicit
/// dependencies.
pub proof fn law_one_edge_each(
    reader: NxReader,
    ctx: ContextModel,
    g: GraphModel,
    edges: Seq<EdgeModel>,
)
    requires
        reader.found@.len() == 1,
        reader.found@[0].parsed is Some,
        reader.offers_edges(ctx, g, Ok(edges)),
    ensures
        edges.len() <= (reader.found@[0].parsed->0).implicit_dependencies@.len(),
{
    let x = Ok::<Seq<EdgeModel>, ReaderError>(edges);
    assert(x->Ok_0 == edges);
    let own = reader.found@[0];
    let f = |d: NxDirectory| nx_edges(ctx.root, g, d);
    assert(reader.found@.drop_last() =~= Seq::<NxDirectory>::empty());
    assert(lists::gathered(reader.found@.drop_last(), f) =~= Seq::<EdgeModel>::empty());
    assert(lists::gathered(reader.found@, f) == lists::gathered(reader.found@.drop_last(), f) + f(
        reader.found@.last(),
    ));
    let deps = text::texts((own.parsed->0).implicit_dependencies@);
    lists::lemma_gathered_len(deps, |dep: Seq<char>| nx_edge(ctx.root, g, own.dir@, dep));
}

} // verus!
