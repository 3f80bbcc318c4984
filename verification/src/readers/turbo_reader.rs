//! Projects of a turborepo.
use vstd::prelude::*;

use crate::graph;
use crate::graph::GraphModel;
use crate::lists;
use crate::path;
use crate::project::Project;
use crate::project::ProjectId;
use crate::project::ProjectModel;
use crate::reader;
use crate::reader::ContextModel;
use crate::reader::ContributedEdge;
use crate::reader::ContributedProject;
use crate::reader::ContributionModel;
use crate::reader::EdgeEndpoint;
use crate::reader::EdgeModel;
use crate::reader::EndpointModel;
use crate::reader::MonorepoConfigReader;
use crate::reader::ReaderContext;
use crate::reader::ReaderError;
use crate::reader::ResolutionView;
use crate::source::ProjectSource;
use crate::source::SourceModel;
use crate::text;

verus! {

/// What a `turbo.json` says: the entries of its pipeline, by their tasks.
#[derive(Debug, Clone)]
pub struct TurboJson {
    pub pipeline: Vec<(String, PipelineEntry)>,
}

/// An entry of a pipeline.
#[derive(Debug, Clone)]
pub struct PipelineEntry {
    pub depends_on: Vec<String>,
}

/// A directory with a `turbo.json`, and what it says where it can be read.
#[derive(Debug, Clone)]
pub struct TurboDirectory {
    pub dir: String,
    pub parsed: Option<TurboJson>,
}

/// All references of a pipeline, in the order of its entries.
pub open spec fn references(turbo: TurboJson) -> Seq<Seq<char>> {
    lists::gathered(turbo.pipeline@, |entry: (String, PipelineEntry)| entry_references(entry))
}

/// The references of an entry of a pipeline.
pub open spec fn entry_references(entry: (String, PipelineEntry)) -> Seq<Seq<char>> {
    text::texts(entry.1.depends_on@)
}

/// The package of a reference `<package>#<task>`. A task of the own package has
/// none, and `^` stands for the dependencies of a package rather than for one
/// of that name.
pub open spec fn referred_package(dep: Seq<char>) -> Option<Seq<char>> {
    let hash = text::position_of(dep, '#', 0);
    if 0 < hash < dep.len() && dep[0] != '^' {
        Some(dep.take(hash))
    } else {
        None
    }
}

/// The id of the project that a reference leads to, by the name of its package
/// in an npm workspace or else in a pnpm workspace.
pub open spec fn referred_project(g: GraphModel, dep: Seq<char>) -> Option<Seq<char>> {
    match referred_package(dep) {
        Some(name) => if g.names.contains_key((SourceModel::NpmWorkspace, name)) {
            Some(g.names[(SourceModel::NpmWorkspace, name)])
        } else if g.names.contains_key((SourceModel::PnpmWorkspace, name)) {
            Some(g.names[(SourceModel::PnpmWorkspace, name)])
        } else {
            None
        },
        None => None,
    }
}

/// The edge from a project to `target`, unless it is the project itself.
pub open spec fn edge_to(p: ProjectModel, target: Seq<char>) -> Seq<EdgeModel> {
    if p.id == target {
        Seq::empty()
    } else {
        seq![EdgeModel { from: EndpointModel::Id(p.id), to: EndpointModel::Id(target) }]
    }
}

/// Edges from every other workspace package to the project that a reference of
/// the root pipeline leads to: the root pipeline does not say which package an
/// entry is for.
pub open spec fn root_edges(g: GraphModel, dep: Seq<char>) -> Seq<EdgeModel> {
    match referred_project(g, dep) {
        Some(target) => lists::gathered(
            g.of_source(SourceModel::NpmWorkspace) + g.of_source(SourceModel::PnpmWorkspace),
            |p: ProjectModel| edge_to(p, target),
        ),
        None => Seq::empty(),
    }
}

/// The edge from a package to the project that a reference of its own pipeline
/// leads to, unless it is the package itself.
pub open spec fn package_edge(g: GraphModel, dir: Seq<char>, dep: Seq<char>) -> Seq<EdgeModel> {
    match referred_project(g, dep) {
        Some(target) => if g.resolve(EndpointModel::Path(dir)) == Some(target) {
            Seq::empty()
        } else {
            seq![EdgeModel { from: EndpointModel::Path(dir), to: EndpointModel::Id(target) }]
        },
        None => Seq::empty(),
    }
}

/// The directory is the monorepo root.
pub open spec fn is_root(root: Seq<char>, dir: Seq<char>) -> bool {
    path::parts(dir) == path::parts(root)
}

/// What a directory contributes. The root `turbo.json` stands for the
/// workspace and contributes nothing.
pub open spec fn turbo_project(root: Seq<char>, d: TurboDirectory) -> Seq<ContributionModel> {
    if is_root(root, d.dir@) || d.parsed is None {
        Seq::empty()
    } else {
        seq![
            ContributionModel {
                source: SourceModel::Turbo,
                path_root: d.dir@,
                foreign_name: path::last_name(d.dir@),
                sources: Seq::empty(),
                tags: Seq::empty(),
            },
        ]
    }
}

/// The edges of the pipeline of a package.
pub open spec fn turbo_edges(root: Seq<char>, g: GraphModel, d: TurboDirectory) -> Seq<EdgeModel> {
    match d.parsed {
        Some(turbo) => if is_root(root, d.dir@) {
            Seq::empty()
        } else {
            lists::gathered(references(turbo), |dep: Seq<char>| package_edge(g, d.dir@, dep))
        },
        None => Seq::empty(),
    }
}

/// Reads `turbo.json` files (turborepo). The root `turbo.json` declares the
/// pipeline; the `turbo.json` of a package can add entries of its own.
///
/// Turborepo refers to projects by their package names, as `<package>#<task>`
/// in `dependsOn`. References are resolved in the npm and pnpm namespaces. The
/// form `^<task>` is left to the dependencies of the packages.
#[derive(Debug, Clone)]
pub struct TurboReader {
    /// The `turbo.json` at the monorepo root.
    pub root: Option<TurboJson>,
    pub found: Vec<TurboDirectory>,
}

impl TurboReader {
    /// The file that declares a pipeline.
    pub fn markers() -> (r: [&'static str; 1])
        ensures
            r@.len() == 1,
            r@[0]@ == "turbo.json"@,
    {
        ["turbo.json"]
    }

    /// The id of the project that a reference leads to.
    fn refer(view: &ResolutionView, dep: &str) -> (r: Option<ProjectId>)
        ensures
            reader::optional_text(r) == referred_project(view@, dep@),
    {
        let chars = text::chars_of(dep);
        let hash: usize = text::find_char(&chars, '#', 0);
        if hash == 0 || hash >= chars.len() || chars[0] == '^' {
            return None;
        }
        let name = text::slice_text(dep, 0, hash);
        proof {
            assert(name@ =~= dep@.take(hash as int));
        }
        let npm = EdgeEndpoint::ForeignName {
            source: ProjectSource::NpmWorkspace,
            name: name.clone(),
        };
        match view.resolve(&npm) {
            Some(id) => Some(id),
            None => view.resolve(
                &EdgeEndpoint::ForeignName { source: ProjectSource::PnpmWorkspace, name },
            ),
        }
    }

    /// All references of a pipeline.
    fn all_references(turbo: &TurboJson) -> (r: Vec<String>)
        ensures
            text::texts(r@) == references(*turbo),
    {
        let ghost all = turbo.pipeline@;
        let ghost f = |entry: (String, PipelineEntry)| entry_references(entry);
        let mut r: Vec<String> = Vec::new();
        let mut i: usize = 0;
        proof {
            lists::lemma_gathered_ends(all, f);
            assert(text::texts(r@) =~= Seq::<Seq<char>>::empty());
        }
        while i < turbo.pipeline.len()
            invariant
                all == turbo.pipeline@,
                f == (|entry: (String, PipelineEntry)| entry_references(entry)),
                i <= all.len(),
                text::texts(r@) == lists::gathered(all.take(i as int), f),
            decreases all.len() - i,
        {
            let ghost before = r@;
            let mut more = text::clone_texts(&turbo.pipeline[i].1.depends_on);
            let ghost added = more@;
            proof {
                lists::lemma_gathered_next(all, i as int, f);
            }
            r.append(&mut more);
            proof {
                assert(text::texts(r@) =~= text::texts(before) + text::texts(added));
            }
            i += 1;
        }
        proof {
            lists::lemma_gathered_ends(all, f);
        }
        r
    }

    /// Emits edges from the given projects to `target`.
    fn emit_to(projects: &Vec<&Project>, target: &ProjectId, out: &mut Vec<ContributedEdge>)
        ensures
            reader::edge_models(final(out)@) == reader::edge_models(old(out)@) + lists::gathered(
                projects@.map_values(|p: &Project| p@),
                |p: ProjectModel| edge_to(p, target@),
            ),
    {
        let ghost start = reader::edge_models(out@);
        let ghost view = |p: &Project| p@;
        let ghost all = projects@.map_values(view);
        let ghost f = |p: ProjectModel| edge_to(p, target@);
        let mut i: usize = 0;
        proof {
            lists::lemma_gathered_ends(all, f);
            assert(reader::edge_models(out@) =~= start + Seq::<EdgeModel>::empty());
        }
        while i < projects.len()
            invariant
                view == (|p: &Project| p@),
                all == projects@.map_values(view),
                f == (|p: ProjectModel| edge_to(p, target@)),
                i <= projects@.len(),
                reader::edge_models(out@) == start + lists::gathered(all.take(i as int), f),
            decreases projects@.len() - i,
        {
            let ghost before = out@;
            let project = projects[i];
            proof {
                lists::lemma_gathered_next(all, i as int, f);
                assert(all[i as int] == project@);
            }
            if !text::same_text(project.id.as_str(), target.as_str()) {
                out.push(
                    ContributedEdge {
                        from: EdgeEndpoint::Id(project.id.clone()),
                        to: EdgeEndpoint::Id(target.clone()),
                    },
                );
            }
            proof {
                assert(reader::edge_models(out@) =~= reader::edge_models(before) + f(project@));
                assert(reader::edge_models(out@) =~= start + lists::gathered(
                    all.take(i + 1),
                    f,
                ));
            }
            i += 1;
        }
        proof {
            lists::lemma_gathered_ends(all, f);
        }
    }

    /// Emits the edges of the root pipeline.
    fn emit_root(view: &ResolutionView, turbo: &TurboJson, out: &mut Vec<ContributedEdge>)
        ensures
            reader::edge_models(final(out)@) == reader::edge_models(old(out)@) + lists::gathered(
                references(*turbo),
                |dep: Seq<char>| root_edges(view@, dep),
            ),
    {
        let ghost start = reader::edge_models(out@);
        let ghost g = view@;
        let ghost f = |dep: Seq<char>| root_edges(g, dep);
        let deps = Self::all_references(turbo);
        let npm = view.projects_by_source(&ProjectSource::NpmWorkspace);
        let pnpm = view.projects_by_source(&ProjectSource::PnpmWorkspace);
        let ghost all = text::texts(deps@);
        let mut i: usize = 0;
        proof {
            lists::lemma_gathered_ends(all, f);
            assert(reader::edge_models(out@) =~= start + Seq::<EdgeModel>::empty());
        }
        while i < deps.len()
            invariant
                g == view@,
                all == text::texts(deps@),
                f == (|dep: Seq<char>| root_edges(g, dep)),
                npm@.map_values(|p: &Project| p@) == g.of_source(SourceModel::NpmWorkspace),
                pnpm@.map_values(|p: &Project| p@) == g.of_source(SourceModel::PnpmWorkspace),
                i <= deps@.len(),
                reader::edge_models(out@) == start + lists::gathered(all.take(i as int), f),
            decreases deps@.len() - i,
        {
            let ghost before = reader::edge_models(out@);
            proof {
                lists::lemma_gathered_next(all, i as int, f);
                assert(all[i as int] == deps@[i as int]@);
            }
            if let Some(target) = Self::refer(view, deps[i].as_str()) {
                Self::emit_to(&npm, &target, out);
                Self::emit_to(&pnpm, &target, out);
                proof {
                    lists::lemma_gathered_split(
                        g.of_source(SourceModel::NpmWorkspace),
                        g.of_source(SourceModel::PnpmWorkspace),
                        |p: ProjectModel| edge_to(p, target@),
                    );
                }
            }
            proof {
                assert(reader::edge_models(out@) =~= before + f(all[i as int]));
                assert(reader::edge_models(out@) =~= start + lists::gathered(
                    all.take(i + 1),
                    f,
                ));
            }
            i += 1;
        }
        proof {
            lists::lemma_gathered_ends(all, f);
        }
    }

    /// Emits the edges of the pipeline of the package in `dir`.
    fn emit_package(
        view: &ResolutionView,
        dir: &String,
        turbo: &TurboJson,
        out: &mut Vec<ContributedEdge>,
    )
        ensures
            reader::edge_models(final(out)@) == reader::edge_models(old(out)@) + lists::gathered(
                references(*turbo),
                |dep: Seq<char>| package_edge(view@, dir@, dep),
            ),
    {
        let ghost start = reader::edge_models(out@);
        let ghost g = view@;
        let ghost f = |dep: Seq<char>| package_edge(g, dir@, dep);
        let deps = Self::all_references(turbo);
        let own = view.resolve(&EdgeEndpoint::Path(dir.clone()));
        let ghost all = text::texts(deps@);
        let mut i: usize = 0;
        proof {
            lists::lemma_gathered_ends(all, f);
            assert(reader::edge_models(out@) =~= start + Seq::<EdgeModel>::empty());
        }
        while i < deps.len()
            invariant
                g == view@,
                all == text::texts(deps@),
                f == (|dep: Seq<char>| package_edge(g, dir@, dep)),
                reader::optional_text(own) == g.resolve(EndpointModel::Path(dir@)),
                i <= deps@.len(),
                reader::edge_models(out@) == start + lists::gathered(all.take(i as int), f),
            decreases deps@.len() - i,
        {
            let ghost before = reader::edge_models(out@);
            proof {
                lists::lemma_gathered_next(all, i as int, f);
                assert(all[i as int] == deps@[i as int]@);
            }
            if let Some(target) = Self::refer(view, deps[i].as_str()) {
                let is_own = match &own {
                    Some(id) => text::same_text(id.as_str(), target.as_str()),
                    None => false,
                };
                if !is_own {
                    out.push(
                        ContributedEdge {
                            from: EdgeEndpoint::Path(dir.clone()),
                            to: EdgeEndpoint::Id(target),
                        },
                    );
                }
            }
            proof {
                assert(reader::edge_models(out@) =~= before + f(all[i as int]));
                assert(reader::edge_models(out@) =~= start + lists::gathered(
                    all.take(i + 1),
                    f,
                ));
            }
            i += 1;
        }
        proof {
            lists::lemma_gathered_ends(all, f);
        }
    }
}

impl MonorepoConfigReader for TurboReader {
    open spec fn names_itself(&self, name: Seq<char>) -> bool {
        name == "turbo"@
    }

    open spec fn offers_projects(
        &self,
        ctx: ContextModel,
        answer: Result<Seq<ContributionModel>, ReaderError>,
    ) -> bool {
        answer == Ok::<Seq<ContributionModel>, ReaderError>(
            lists::gathered(self.found@, |d: TurboDirectory| turbo_project(ctx.root, d)),
        )
    }

    open spec fn offers_edges(
        &self,
        ctx: ContextModel,
        graph: GraphModel,
        answer: Result<Seq<EdgeModel>, ReaderError>,
    ) -> bool {
        answer == Ok::<Seq<EdgeModel>, ReaderError>(
            match self.root {
                Some(turbo) => all_edges(ctx.root, graph, turbo, self.found@),
                None => Seq::empty(),
            },
        )
    }

    fn id(&self) -> (r: &'static str) {
        "turbo"
    }

    fn collect_projects(&self, ctx: &ReaderContext) -> (r: Result<
        Vec<ContributedProject>,
        ReaderError,
    >) {
        let ghost all = self.found@;
        let ghost root = ctx@.root;
        let ghost f = |d: TurboDirectory| turbo_project(root, d);
        let mut out: Vec<ContributedProject> = Vec::new();
        let mut i: usize = 0;
        proof {
            lists::lemma_gathered_ends(all, f);
            assert(reader::contributions(out@) =~= Seq::<ContributionModel>::empty());
        }
        while i < self.found.len()
            invariant
                all == self.found@,
                root == ctx@.root,
                f == (|d: TurboDirectory| turbo_project(root, d)),
                i <= all.len(),
                reader::contributions(out@) == lists::gathered(all.take(i as int), f),
            decreases all.len() - i,
        {
            let ghost before = out@;
            let directory = &self.found[i];
            proof {
                lists::lemma_gathered_next(all, i as int, f);
            }
            if !path::same_path(directory.dir.as_str(), ctx.monorepo_root.as_str())
                && directory.parsed.is_some() {
                let added = ContributedProject {
                    source: ProjectSource::Turbo,
                    path_root: directory.dir.clone(),
                    foreign_name: path::file_name(directory.dir.as_str()),
                    sources: Vec::new(),
                    tags: Vec::new(),
                };
                proof {
                    assert(added@.sources =~= Seq::<Seq<char>>::empty());
                    assert(added@.tags =~= Seq::<Seq<char>>::empty());
                }
                out.push(added);
            }
            proof {
                assert(reader::contributions(out@) =~= reader::contributions(before) + f(
                    *directory,
                ));
            }
            i += 1;
        }
        proof {
            lists::lemma_gathered_ends(all, f);
        }
        Ok(out)
    }

    fn collect_edges(&self, ctx: &ReaderContext, view: &ResolutionView) -> (r: Result<
        Vec<ContributedEdge>,
        ReaderError,
    >) {
        let ghost all = self.found@;
        let ghost root = ctx@.root;
        let ghost g = view@;
        let ghost f = |d: TurboDirectory| turbo_edges(root, g, d);
        let mut out: Vec<ContributedEdge> = Vec::new();
        proof {
            assert(reader::edge_models(out@) =~= Seq::<EdgeModel>::empty());
        }
        match &self.root {
            Some(turbo) => Self::emit_root(view, turbo, &mut out),
            None => {
                return Ok(out);
            },
        }
        let ghost start = reader::edge_models(out@);
        let mut i: usize = 0;
        proof {
            lists::lemma_gathered_ends(all, f);
            assert(start =~= start + Seq::<EdgeModel>::empty());
        }
        while i < self.found.len()
            invariant
                all == self.found@,
                root == ctx@.root,
                g == view@,
                f == (|d: TurboDirectory| turbo_edges(root, g, d)),
                i <= all.len(),
                reader::edge_models(out@) == start + lists::gathered(all.take(i as int), f),
            decreases all.len() - i,
        {
            let ghost before = reader::edge_models(out@);
            let directory = &self.found[i];
            proof {
                lists::lemma_gathered_next(all, i as int, f);
            }
            if !path::same_path(directory.dir.as_str(), ctx.monorepo_root.as_str()) {
                if let Some(turbo) = &directory.parsed {
                    Self::emit_package(view, &directory.dir, turbo, &mut out);
                }
            }
            proof {
                assert(reader::edge_models(out@) =~= before + f(*directory));
                assert(reader::edge_models(out@) =~= start + lists::gathered(
                    all.take(i + 1),
                    f,
                ));
            }
            i += 1;
        }
        proof {
            lists::lemma_gathered_ends(all, f);
            assert(start =~= lists::gathered(
                references(self.root->0),
                |dep: Seq<char>| root_edges(g, dep),
            ));
        }
        Ok(out)
    }
}

/// The monorepo root is never contributed as a project of a turborepo.
pub proof fn law_root_is_no_package(
    root: Seq<char>,
    found: Seq<TurboDirectory>,
    c: ContributionModel,
)
    requires
        lists::gathered(found, |d: TurboDirectory| turbo_project(root, d)).contains(c),
    ensures
        path::parts(c.path_root) != path::parts(root),
{
    let f = |d: TurboDirectory| turbo_project(root, d);
    lists::lemma_gathered_contains(found, f, c);
    let i = choose|i: int| 0 <= i < found.len() && (#[trigger] f(found[i])).contains(c);
    assert(!is_root(root, found[i].dir@));
}

/// What a reference leads to is a project, whatever the references are.
pub proof fn law_references_lead_to_projects(g: GraphModel, dep: Seq<char>)
    requires
        g.wf(),
        referred_project(g, dep) is Some,
    ensures
        g.has(referred_project(g, dep)->0),
{
    let name = referred_package(dep)->0;
    if g.names.contains_key((SourceModel::NpmWorkspace, name)) {
        graph::lemma_named(g, (SourceModel::NpmWorkspace, name));
    } else {
        graph::lemma_named(g, (SourceModel::PnpmWorkspace, name));
    }
}

/// The edges that a turborepo emits: those of the root pipeline, and then those
/// of the pipelines of packages.
pub open spec fn all_edges(
    root: Seq<char>,
    g: GraphModel,
    turbo: TurboJson,
    found: Seq<TurboDirectory>,
) -> Seq<EdgeModel> {
    lists::gathered(references(turbo), |dep: Seq<char>| root_edges(g, dep)) + lists::gathered(
        found,
        |d: TurboDirectory| turbo_edges(root, g, d),
    )
}

/// Some reference of the root pipeline, or of that of a package, leads to the
/// project with the id `id`.
pub open spec fn is_referred(
    g: GraphModel,
    turbo: TurboJson,
    found: Seq<TurboDirectory>,
    id: Seq<char>,
) -> bool {
    ||| exists|dep: Seq<char>| #[trigger]
        references(turbo).contains(dep) && referred_project(g, dep) == Some(id)
    ||| exists|k: int, dep: Seq<char>|
        0 <= k < found.len() && found[k].parsed is Some && #[trigger] references(
            found[k].parsed->0,
        ).contains(dep) && referred_project(g, dep) == Some(id)
}

/// Every edge leads to a project that some reference names, and from another
/// project.
pub proof fn law_edges_join_different_projects(
    root: Seq<char>,
    g: GraphModel,
    turbo: TurboJson,
    found: Seq<TurboDirectory>,
    e: EdgeModel,
)
    requires
        g.wf(),
        all_edges(root, g, turbo, found).contains(e),
    ensures
        e.to is Id,
        g.resolve(e.to) == Some(e.to->Id_0),
        g.resolve(e.from) != g.resolve(e.to),
        is_referred(g, turbo, found, e.to->Id_0),
{
    let a = lists::gathered(references(turbo), |dep: Seq<char>| root_edges(g, dep));
    let b = lists::gathered(found, |d: TurboDirectory| turbo_edges(root, g, d));
    let all = all_edges(root, g, turbo, found);
    let k = choose|k: int| 0 <= k < all.len() && all[k] == e;
    if k < a.len() {
        assert(a[k] == e);
        lemma_root_edge(g, turbo, e);
    } else {
        assert(b[k - a.len()] == e);
        let f = |d: TurboDirectory| turbo_edges(root, g, d);
        lists::lemma_gathered_contains(found, f, e);
        let i = choose|i: int| 0 <= i < found.len() && (#[trigger] f(found[i])).contains(e);
        assert(turbo_edges(root, g, found[i]).contains(e));
        lemma_package_edge(g, found[i].parsed->0, found[i].dir@, e);
    }
}

/// What an edge of the root pipeline joins.
proof fn lemma_root_edge(g: GraphModel, turbo: TurboJson, e: EdgeModel)
    requires
        g.wf(),
        lists::gathered(references(turbo), |dep: Seq<char>| root_edges(g, dep)).contains(e),
    ensures
        e.to is Id,
        g.has(e.to->Id_0),
        g.resolve(e.from) != g.resolve(e.to),
        exists|dep: Seq<char>| #[trigger]
            references(turbo).contains(dep) && referred_project(g, dep) == Some(e.to->Id_0),
{
    let f = |dep: Seq<char>| root_edges(g, dep);
    let deps = references(turbo);
    lists::lemma_gathered_contains(deps, f, e);
    let i = choose|i: int| 0 <= i < deps.len() && (#[trigger] f(deps[i])).contains(e);
    assert(root_edges(g, deps[i]).contains(e));
    let target = referred_project(g, deps[i])->0;
    let npm = g.of_source(SourceModel::NpmWorkspace);
    let pnpm = g.of_source(SourceModel::PnpmWorkspace);
    let to = |p: ProjectModel| edge_to(p, target);
    lists::lemma_gathered_contains(npm + pnpm, to, e);
    let k = choose|k: int|
        0 <= k < (npm + pnpm).len() && (#[trigger] to((npm + pnpm)[k])).contains(e);
    let p = (npm + pnpm)[k];
    assert(edge_to(p, target).contains(e));
    assert(g.projects.contains(p)) by {
        let in_npm = |p: ProjectModel| p.source == SourceModel::NpmWorkspace;
        let in_pnpm = |p: ProjectModel| p.source == SourceModel::PnpmWorkspace;
        if k < npm.len() {
            assert(npm[k] == p);
            assert(npm.contains(p));
            g.projects.lemma_filter_contains_rev(in_npm, p);
        } else {
            assert(pnpm[k - npm.len()] == p);
            assert(pnpm.contains(p));
            g.projects.lemma_filter_contains_rev(in_pnpm, p);
        }
    }
    let at = choose|at: int| 0 <= at < g.projects.len() && g.projects[at] == p;
    assert(g.is_at(at, p.id));
    law_references_lead_to_projects(g, deps[i]);
    assert(deps.contains(deps[i]));
}

/// What an edge of the pipeline of a package joins.
proof fn lemma_package_edge(g: GraphModel, turbo: TurboJson, dir: Seq<char>, e: EdgeModel)
    requires
        g.wf(),
        lists::gathered(references(turbo), |dep: Seq<char>| package_edge(g, dir, dep)).contains(e),
    ensures
        e.to is Id,
        g.has(e.to->Id_0),
        g.resolve(e.from) != g.resolve(e.to),
        exists|dep: Seq<char>| #[trigger]
            references(turbo).contains(dep) && referred_project(g, dep) == Some(e.to->Id_0),
{
    let f = |dep: Seq<char>| package_edge(g, dir, dep);
    let deps = references(turbo);
    lists::lemma_gathered_contains(deps, f, e);
    let i = choose|i: int| 0 <= i < deps.len() && (#[trigger] f(deps[i])).contains(e);
    assert(package_edge(g, dir, deps[i]).contains(e));
    law_references_lead_to_projects(g, deps[i]);
    assert(deps.contains(deps[i]));
}

/// The text is a reference to a task of a package: `<package>#<task>`, where the
/// name of the package is not empty and does not begin with `^`.
pub open spec fn is_reference(dep: Seq<char>, package: Seq<char>, task: Seq<char>) -> bool {
    &&& dep == package + seq!['#'] + task
    &&& package.len() > 0
    &&& package[0] != '^'
    &&& !package.contains('#')
}

/// Some entry of the pipeline, whichever it is, depends on a task of the package.
pub open spec fn refers_to(turbo: TurboJson, package: Seq<char>) -> bool {
    exists|k: int, j: int, task: Seq<char>|
        {
            &&& 0 <= k < turbo.pipeline@.len()
            &&& 0 <= j < turbo.pipeline@[k].1.depends_on@.len()
            &&& #[trigger] is_reference(turbo.pipeline@[k].1.depends_on@[j]@, package, task)
        }
}

/// The package is the project `id`: by its name in an npm workspace, or else in a
/// pnpm workspace.
pub open spec fn is_package(g: GraphModel, package: Seq<char>, id: Seq<char>) -> bool {
    if g.names.contains_key((SourceModel::NpmWorkspace, package)) {
        id == g.names[(SourceModel::NpmWorkspace, package)]
    } else {
        &&& g.names.contains_key((SourceModel::PnpmWorkspace, package))
        &&& id == g.names[(SourceModel::PnpmWorkspace, package)]
    }
}

/// A reference is taken apart at its first `#`.
proof fn lemma_reference(dep: Seq<char>, package: Seq<char>)
    ensures
        referred_package(dep) == Some(package) <==> exists|task: Seq<char>| #[trigger]
            is_reference(dep, package, task),
{
    text::lemma_position_of(dep, '#', 0);
    let hash = text::position_of(dep, '#', 0);
    if referred_package(dep) == Some(package) {
        let task = dep.skip(hash + 1);
        assert(package == dep.take(hash));
        assert(dep =~= package + seq!['#'] + task);
        assert(package[0] == dep[0]);
        if package.contains('#') {
            let i = choose|i: int| 0 <= i < package.len() && package[i] == '#';
            assert(dep[i] == '#');
        }
        assert(is_reference(dep, package, task));
    }
    if exists|task: Seq<char>| #[trigger] is_reference(dep, package, task) {
        let task = choose|task: Seq<char>| #[trigger] is_reference(dep, package, task);
        let n = package.len() as int;
        assert(dep[n] == '#');
        assert(dep[0] == package[0]);
        if hash < n {
            assert(package[hash] == dep[hash]);
            assert(package.contains('#'));
        }
        assert(hash == n);
        assert(dep.take(hash) =~= package);
    }
}

/// What some reference leads to is what the pipeline refers to.
proof fn lemma_references(g: GraphModel, turbo: TurboJson, id: Seq<char>)
    ensures
        (exists|n: int|
            0 <= n < references(turbo).len() && referred_project(g, #[trigger] references(turbo)[n])
                == Some(id)) <==> exists|package: Seq<char>| #[trigger]
            refers_to(turbo, package) && is_package(g, package, id),
{
    let f = |entry: (String, PipelineEntry)| entry_references(entry);
    let all = references(turbo);
    if exists|n: int| 0 <= n < all.len() && referred_project(g, #[trigger] all[n]) == Some(id) {
        let n = choose|n: int| 0 <= n < all.len() && referred_project(g, #[trigger] all[n]) == Some(
            id,
        );
        let dep = all[n];
        assert(all.contains(dep));
        lists::lemma_gathered_contains(turbo.pipeline@, f, dep);
        let k = choose|k: int|
            0 <= k < turbo.pipeline@.len() && (#[trigger] f(turbo.pipeline@[k])).contains(dep);
        let list = f(turbo.pipeline@[k]);
        let j = choose|j: int| 0 <= j < list.len() && list[j] == dep;
        assert(turbo.pipeline@[k].1.depends_on@[j]@ == dep);
        let package = referred_package(dep)->0;
        lemma_reference(dep, package);
        let task = choose|task: Seq<char>| #[trigger] is_reference(dep, package, task);
        assert(is_reference(turbo.pipeline@[k].1.depends_on@[j]@, package, task));
        assert(refers_to(turbo, package));
    }
    if exists|package: Seq<char>| #[trigger]
        refers_to(turbo, package) && is_package(g, package, id) {
        let package = choose|package: Seq<char>| #[trigger]
            refers_to(turbo, package) && is_package(g, package, id);
        let (k, j, task) = choose|k: int, j: int, task: Seq<char>|
            {
                &&& 0 <= k < turbo.pipeline@.len()
                &&& 0 <= j < turbo.pipeline@[k].1.depends_on@.len()
                &&& #[trigger] is_reference(turbo.pipeline@[k].1.depends_on@[j]@, package, task)
            };
        let dep = turbo.pipeline@[k].1.depends_on@[j]@;
        lemma_reference(dep, package);
        assert(f(turbo.pipeline@[k])[j] == dep);
        assert(f(turbo.pipeline@[k]).contains(dep));
        lists::lemma_gathered_contains(turbo.pipeline@, f, dep);
        let n = choose|n: int| 0 <= n < all.len() && all[n] == dep;
        assert(referred_project(g, all[n]) == Some(id));
    }
}

/// Every reference of the root pipeline, in whichever entry it stands, makes every
/// npm and pnpm package depend on the one that it names, but for that one itself.
pub proof fn law_root_references_complete(
    reader: TurboReader,
    ctx: ContextModel,
    g: GraphModel,
    edges: Seq<EdgeModel>,
    turbo: TurboJson,
    package: Seq<char>,
    id: Seq<char>,
    i: int,
)
    requires
        reader.offers_edges(ctx, g, Ok(edges)),
        reader.root == Some(turbo),
        refers_to(turbo, package),
        is_package(g, package, id),
        0 <= i < g.projects.len(),
        g.projects[i].source is NpmWorkspace || g.projects[i].source is PnpmWorkspace,
        g.projects[i].id != id,
    ensures
        edges.contains(
            (EdgeModel { from: EndpointModel::Id(g.projects[i].id), to: EndpointModel::Id(id) }),
        ),
{
    let e = EdgeModel { from: EndpointModel::Id(g.projects[i].id), to: EndpointModel::Id(id) };
    let p = g.projects[i];
    lemma_references(g, turbo, id);
    let deps = references(turbo);
    let n = choose|n: int| 0 <= n < deps.len() && referred_project(g, #[trigger] deps[n]) == Some(
        id,
    );
    assert(g.projects.contains(p));
    crate::laws::law_of_source(g, SourceModel::NpmWorkspace, p);
    crate::laws::law_of_source(g, SourceModel::PnpmWorkspace, p);
    let npm = g.of_source(SourceModel::NpmWorkspace);
    let pnpm = g.of_source(SourceModel::PnpmWorkspace);
    let to = |p: ProjectModel| edge_to(p, id);
    let m = if p.source is NpmWorkspace {
        choose|m: int| 0 <= m < npm.len() && npm[m] == p
    } else {
        npm.len() + choose|m: int| 0 <= m < pnpm.len() && pnpm[m] == p
    };
    assert((npm + pnpm)[m] == p);
    assert(to((npm + pnpm)[m])[0] == e);
    assert(to((npm + pnpm)[m]).contains(e));
    lists::lemma_gathered_contains(npm + pnpm, to, e);
    assert(root_edges(g, deps[n]) == lists::gathered(npm + pnpm, to));
    let f = |dep: Seq<char>| root_edges(g, dep);
    assert(f(deps[n]).contains(e));
    lists::lemma_gathered_contains(deps, f, e);
    let first = lists::gathered(deps, f);
    let k = choose|k: int| 0 <= k < first.len() && first[k] == e;
    lemma_offered(reader, ctx, g, edges);
    assert(edges[k] == e);
}

/// What an answer in pass 2 is.
proof fn lemma_offered(
    reader: TurboReader,
    ctx: ContextModel,
    g: GraphModel,
    edges: Seq<EdgeModel>,
)
    requires
        reader.offers_edges(ctx, g, Ok(edges)),
    ensures
        edges == match reader.root {
            Some(turbo) => all_edges(ctx.root, g, turbo, reader.found@),
            None => Seq::<EdgeModel>::empty(),
        },
{
    let x = Ok::<Seq<EdgeModel>, ReaderError>(edges);
    assert(x->Ok_0 == edges);
}

/// Every reference of the pipeline of a package, in whichever entry and of
/// whichever package, makes that package depend on the one that it names, but for
/// itself.
pub proof fn law_package_references_complete(
    reader: TurboReader,
    ctx: ContextModel,
    g: GraphModel,
    edges: Seq<EdgeModel>,
    d: int,
    turbo: TurboJson,
    package: Seq<char>,
    id: Seq<char>,
)
    requires
        reader.offers_edges(ctx, g, Ok(edges)),
        reader.root is Some,
        0 <= d < reader.found@.len(),
        reader.found@[d].parsed == Some(turbo),
        path::parts(reader.found@[d].dir@) != path::parts(ctx.root),
        refers_to(turbo, package),
        is_package(g, package, id),
        g.resolve(EndpointModel::Path(reader.found@[d].dir@)) != Some(id),
    ensures
        edges.contains(
            (EdgeModel {
                from: EndpointModel::Path(reader.found@[d].dir@),
                to: EndpointModel::Id(id),
            }),
        ),
{
    let dir = reader.found@[d].dir@;
    let e = EdgeModel { from: EndpointModel::Path(dir), to: EndpointModel::Id(id) };
    lemma_references(g, turbo, id);
    let deps = references(turbo);
    let n = choose|n: int| 0 <= n < deps.len() && referred_project(g, #[trigger] deps[n]) == Some(
        id,
    );
    let f = |dep: Seq<char>| package_edge(g, dir, dep);
    assert(f(deps[n])[0] == e);
    assert(f(deps[n]).contains(e));
    lists::lemma_gathered_contains(deps, f, e);
    let h = |d: TurboDirectory| turbo_edges(ctx.root, g, d);
    assert(h(reader.found@[d]) == lists::gathered(deps, f));
    lists::lemma_gathered_contains(reader.found@, h, e);
    let second = lists::gathered(reader.found@, h);
    let k = choose|k: int| 0 <= k < second.len() && second[k] == e;
    lemma_offered(reader, ctx, g, edges);
    let first = lists::gathered(references(reader.root->0), |dep: Seq<char>| root_edges(g, dep));
    assert(edges == first + second);
    assert(edges[first.len() + k] == e);
}

/// Every edge leads to a package that some pipeline refers to: that of the root,
/// and then it comes from another npm or pnpm package, or that of a package other
/// than the root, and then it comes from that package. Without a root
/// `turbo.json` there are none.
pub proof fn law_edges_are_references(
    reader: TurboReader,
    ctx: ContextModel,
    g: GraphModel,
    edges: Seq<EdgeModel>,
    e: EdgeModel,
)
    requires
        reader.offers_edges(ctx, g, Ok(edges)),
        edges.contains(e),
    ensures
        reader.root is Some,
        e.to is Id,
        ({
            ||| exists|package: Seq<char>, i: int|
                {
                    &&& #[trigger] refers_to(reader.root->0, package)
                    &&& is_package(g, package, e.to->Id_0)
                    &&& 0 <= i < g.projects.len()
                    &&& e.from == EndpointModel::Id((#[trigger] g.projects[i]).id)
                    &&& g.projects[i].id != e.to->Id_0
                    &&& g.projects[i].source is NpmWorkspace
                        || g.projects[i].source is PnpmWorkspace
                }
            ||| exists|package: Seq<char>, d: int|
                {
                    &&& 0 <= d < reader.found@.len()
                    &&& reader.found@[d].parsed is Some
                    &&& path::parts(reader.found@[d].dir@) != path::parts(ctx.root)
                    &&& e.from == EndpointModel::Path(reader.found@[d].dir@)
                    &&& #[trigger] refers_to(reader.found@[d].parsed->0, package)
                    &&& is_package(g, package, e.to->Id_0)
                }
        }),
{
    lemma_offered(reader, ctx, g, edges);
    let turbo = reader.root->0;
    let f = |dep: Seq<char>| root_edges(g, dep);
    let h = |d: TurboDirectory| turbo_edges(ctx.root, g, d);
    let first = lists::gathered(references(turbo), f);
    let second = lists::gathered(reader.found@, h);
    assert(edges == first + second);
    let k = choose|k: int| 0 <= k < edges.len() && edges[k] == e;
    if k < first.len() {
        assert(first[k] == e);
        assert(first.contains(e));
        let deps = references(turbo);
        lists::lemma_gathered_contains(deps, f, e);
        let n = choose|n: int| 0 <= n < deps.len() && (#[trigger] f(deps[n])).contains(e);
        assert(root_edges(g, deps[n]).contains(e));
        let id = referred_project(g, deps[n])->0;
        let npm = g.of_source(SourceModel::NpmWorkspace);
        let pnpm = g.of_source(SourceModel::PnpmWorkspace);
        let to = |p: ProjectModel| edge_to(p, id);
        lists::lemma_gathered_contains(npm + pnpm, to, e);
        let m = choose|m: int|
            0 <= m < (npm + pnpm).len() && (#[trigger] to((npm + pnpm)[m])).contains(e);
        let p = (npm + pnpm)[m];
        assert(edge_to(p, id).contains(e));
        if m < npm.len() {
            assert(npm[m] == p);
            assert(npm.contains(p));
        } else {
            assert(pnpm[m - npm.len()] == p);
            assert(pnpm.contains(p));
        }
        crate::laws::law_of_source(g, SourceModel::NpmWorkspace, p);
        crate::laws::law_of_source(g, SourceModel::PnpmWorkspace, p);
        let i = choose|i: int| 0 <= i < g.projects.len() && g.projects[i] == p;
        lemma_references(g, turbo, id);
        assert(referred_project(g, references(turbo)[n]) == Some(id));
        let package = choose|package: Seq<char>| #[trigger]
            refers_to(turbo, package) && is_package(g, package, id);
        assert(e.to == EndpointModel::Id(id));
        assert(e.from == EndpointModel::Id(g.projects[i].id));
    } else {
        assert(second[k - first.len()] == e);
        assert(second.contains(e));
        lists::lemma_gathered_contains(reader.found@, h, e);
        let d = choose|d: int|
            0 <= d < reader.found@.len() && (#[trigger] h(reader.found@[d])).contains(e);
        let own = reader.found@[d];
        assert(turbo_edges(ctx.root, g, own).contains(e));
        let deps = references(own.parsed->0);
        let one = |dep: Seq<char>| package_edge(g, own.dir@, dep);
        lists::lemma_gathered_contains(deps, one, e);
        let n = choose|n: int| 0 <= n < deps.len() && (#[trigger] one(deps[n])).contains(e);
        assert(package_edge(g, own.dir@, deps[n]).contains(e));
        let id = referred_project(g, deps[n])->0;
        lemma_references(g, own.parsed->0, id);
        assert(referred_project(g, references(own.parsed->0)[n]) == Some(id));
        let package = choose|package: Seq<char>| #[trigger]
            refers_to(own.parsed->0, package) && is_package(g, package, id);
        assert(refers_to(reader.found@[d].parsed->0, package));
    }
}

/// Every directory with a `turbo.json` that can be read, but for the monorepo
/// root, is contributed under the name of the directory, and nothing else is.
pub proof fn law_contributes_every_package(
    reader: TurboReader,
    ctx: ContextModel,
    list: Seq<ContributionModel>,
    c: ContributionModel,
)
    requires
        reader.offers_projects(ctx, Ok(list)),
    ensures
        list.contains(c) <==> exists|d: int|
            {
                &&& 0 <= d < reader.found@.len()
                &&& (#[trigger] reader.found@[d]).parsed is Some
                &&& path::parts(reader.found@[d].dir@) != path::parts(ctx.root)
                &&& c.path_root == reader.found@[d].dir@
                &&& c.source == SourceModel::Turbo
                &&& c.foreign_name == path::last_name(reader.found@[d].dir@)
                &&& c.sources.len() == 0
                &&& c.tags.len() == 0
            },
{
    let x = Ok::<Seq<ContributionModel>, ReaderError>(list);
    assert(x->Ok_0 == list);
    let f = |d: TurboDirectory| turbo_project(ctx.root, d);
    lists::lemma_gathered_contains(reader.found@, f, c);
    assert forall|d: int| 0 <= d < reader.found@.len() implies ((#[trigger] f(
        reader.found@[d],
    )).contains(c) <==> {
        &&& reader.found@[d].parsed is Some
        &&& path::parts(reader.found@[d].dir@) != path::parts(ctx.root)
        &&& c.path_root == reader.found@[d].dir@
        &&& c.source == SourceModel::Turbo
        &&& c.foreign_name == path::last_name(reader.found@[d].dir@)
        &&& c.sources.len() == 0
        &&& c.tags.len() == 0
    }) by {
        let given = f(reader.found@[d]);
        if given.len() > 0 {
            assert(given[0].sources =~= Seq::<Seq<char>>::empty());
            if c.sources.len() == 0 {
                assert(c.sources =~= given[0].sources);
            }
            if c.tags.len() == 0 {
                assert(c.tags =~= given[0].tags);
            }
            if given[0] == c {
                assert(given.contains(c));
            }
        }
    }
    if exists|d: int|
        {
            &&& 0 <= d < reader.found@.len()
            &&& (#[trigger] reader.found@[d]).parsed is Some
            &&& path::parts(reader.found@[d].dir@) != path::parts(ctx.root)
            &&& c.path_root == reader.found@[d].dir@
            &&& c.source == SourceModel::Turbo
            &&& c.foreign_name == path::last_name(reader.found@[d].dir@)
            &&& c.sources.len() == 0
            &&& c.tags.len() == 0
        } {
        let d = choose|d: int|
            {
                &&& 0 <= d < reader.found@.len()
                &&& (#[trigger] reader.found@[d]).parsed is Some
                &&& path::parts(reader.found@[d].dir@) != path::parts(ctx.root)
                &&& c.path_root == reader.found@[d].dir@
                &&& c.source == SourceModel::Turbo
                &&& c.foreign_name == path::last_name(reader.found@[d].dir@)
                &&& c.sources.len() == 0
                &&& c.tags.len() == 0
            };
        assert(f(reader.found@[d]).contains(c));
    }
    if list.contains(c) {
        let d = choose|d: int|
            0 <= d < reader.found@.len() && (#[trigger] f(reader.found@[d])).contains(c);
        assert(reader.found@[d].parsed is Some);
    }
}

/// What the directories of two lists contribute comes one list after the other.
pub proof fn law_contributions_in_order(
    a: TurboReader,
    b: TurboReader,
    both: TurboReader,
    ctx: ContextModel,
    x: Seq<ContributionModel>,
    y: Seq<ContributionModel>,
    z: Seq<ContributionModel>,
)
    requires
        both.found@ == a.found@ + b.found@,
        a.offers_projects(ctx, Ok(x)),
        b.offers_projects(ctx, Ok(y)),
        both.offers_projects(ctx, Ok(z)),
    ensures
        z == x + y,
{
    let f = |d: TurboDirectory| turbo_project(ctx.root, d);
    lists::lemma_gathered_split(a.found@, b.found@, f);
    let p = Ok::<Seq<ContributionModel>, ReaderError>(x);
    let q = Ok::<Seq<ContributionModel>, ReaderError>(y);
    let r = Ok::<Seq<ContributionModel>, ReaderError>(z);
    assert(p->Ok_0 == x && q->Ok_0 == y && r->Ok_0 == z);
}

/// The reader always has an answer, and a directory contributes one project at
/// most. Without a `turbo.json` at the monorepo root there are no edges.
pub proof fn law_answers(
    reader: TurboReader,
    ctx: ContextModel,
    g: GraphModel,
    projects: Result<Seq<ContributionModel>, ReaderError>,
    edges: Result<Seq<EdgeModel>, ReaderError>,
)
    requires
        reader.offers_projects(ctx, projects),
        reader.offers_edges(ctx, g, edges),
    ensures
        projects is Ok,
        (projects->Ok_0).len() <= reader.found@.len(),
        edges is Ok,
        reader.root is None ==> (edges->Ok_0).len() == 0,
{
    let f = |d: TurboDirectory| turbo_project(ctx.root, d);
    lists::lemma_gathered_len(reader.found@, f);
}

/// The edges of the pipeline at the monorepo root come first, and behind them
/// those of the packages, in the order of their directories.
pub proof fn law_edges_in_order(
    a: TurboReader,
    b: TurboReader,
    both: TurboReader,
    bare: TurboReader,
    ctx: ContextModel,
    g: GraphModel,
    x: Seq<EdgeModel>,
    y: Seq<EdgeModel>,
    z: Seq<EdgeModel>,
    w: Seq<EdgeModel>,
)
    requires
        a.root is Some,
        a.root == b.root,
        a.root == both.root,
        a.root == bare.root,
        bare.found@.len() == 0,
        both.found@ == a.found@ + b.found@,
        a.offers_edges(ctx, g, Ok(x)),
        b.offers_edges(ctx, g, Ok(y)),
        both.offers_edges(ctx, g, Ok(z)),
        bare.offers_edges(ctx, g, Ok(w)),
    ensures
        w.is_prefix_of(y),
        z == x + y.skip(w.len() as int),
{
    let f = |d: TurboDirectory| turbo_edges(ctx.root, g, d);
    lists::lemma_gathered_split(a.found@, b.found@, f);
    let p = Ok::<Seq<EdgeModel>, ReaderError>(x);
    let q = Ok::<Seq<EdgeModel>, ReaderError>(y);
    let r = Ok::<Seq<EdgeModel>, ReaderError>(z);
    let s = Ok::<Seq<EdgeModel>, ReaderError>(w);
    assert(p->Ok_0 == x && q->Ok_0 == y && r->Ok_0 == z && s->Ok_0 == w);
    let turbo = a.root->0;
    let start = lists::gathered(references(turbo), |dep: Seq<char>| root_edges(g, dep));
    assert(w =~= start);
    assert(y == start + lists::gathered(b.found@, f));
    assert(y.skip(w.len() as int) =~= lists::gathered(b.found@, f));
    assert(w =~= y.subrange(0, w.len() as int));
    assert(z =~= x + y.skip(w.len() as int));
}

} // verus!
